//! What is refused, and how it is described.

use dzip::codec::flags::{ChunkEncoding, Codec, Compression};
use dzip::codec::limits::CodecLimits;
use dzip::codec::{CodecError, DecodeContext};
use dzip::codecs::bzip;
use dzip::codecs::dz::{
    compress_archive, compress_chunk, decompress_chunk, model_workspace_size, DecoderOptions,
    DzCommonBuffer, DzEncoderOptions, Encoder, EncoderOptions, RangeSettings, ResourceLimits,
};
use dzip::codecs::error::ErrorKind;
use dzip::codecs::lzma;
use dzip::codecs::zlib;
use dzip::error::DzipError;

fn broken() -> RangeSettings {
    RangeSettings {
        offset_tables: 0,
        ..RangeSettings::default()
    }
}

#[test]
fn dz_settings_are_validated() {
    assert_eq!(
        compress_chunk(b"x", broken()).unwrap_err().kind(),
        ErrorKind::InvalidOptions
    );
    assert_eq!(
        decompress_chunk(b"x", 1, broken()).unwrap_err().kind(),
        ErrorKind::InvalidOptions
    );
    assert!(broken().validate().is_err());
    assert!(RangeSettings::default().validate().is_ok());
    assert!(Encoder::new(EncoderOptions {
        settings: broken(),
        limits: ResourceLimits::unlimited(),
    })
    .is_err());
}

#[test]
fn dz_limits_are_kept() {
    let settings = RangeSettings::default();
    let input = b"limits limits limits".repeat(20);
    let limited = |limits: ResourceLimits| {
        dzip::codecs::dz::encode(&input, EncoderOptions { settings, limits })
            .unwrap_err()
            .kind()
    };
    let free = ResourceLimits::unlimited();
    assert_eq!(
        limited(ResourceLimits {
            max_input_size: 1,
            ..free
        }),
        ErrorKind::InputLimitExceeded
    );
    assert_eq!(
        limited(ResourceLimits {
            max_output_size: 1,
            ..free
        }),
        ErrorKind::OutputLimitExceeded
    );
    assert_eq!(
        limited(ResourceLimits {
            max_workspace_size: 1,
            ..free
        }),
        ErrorKind::WorkspaceLimitExceeded
    );
    let stream = dzip::codecs::dz::encode(
        &input,
        EncoderOptions {
            settings,
            limits: free,
        },
    )
    .unwrap();
    assert_eq!(stream, compress_chunk(&input, settings).unwrap());
    let options = DecoderOptions::new(settings, input.len());
    assert_eq!(dzip::codecs::dz::decode(&stream, options).unwrap(), input);
    assert!(model_workspace_size(settings, true).unwrap() > model_workspace_size(settings, false).unwrap());
}

#[test]
fn dz_archives_check_their_request() {
    let inputs = vec![b"one".to_vec(), b"two".to_vec()];
    let plain = RangeSettings {
        flags: 0,
        ..RangeSettings::default()
    };
    let error = compress_archive(
        &inputs,
        &DzEncoderOptions {
            settings: plain,
            use_combuf: true,
            ..DzEncoderOptions::default()
        },
    )
    .unwrap_err();
    assert!(error.message().contains("static tables"));
    let error = DzCommonBuffer::new(RangeSettings::default(), Vec::new()).unwrap_err();
    assert_eq!(error.message(), "a common buffer must contain at least one chunk");
    assert!(DzCommonBuffer::new(RangeSettings::default(), vec![vec![1, 2, 3]]).is_err());
    let encoded = compress_archive(&inputs, &DzEncoderOptions::default()).unwrap();
    assert_eq!(encoded.common_buffer, None);
    assert_eq!(
        encoded.chunks[1],
        compress_chunk(b"two", RangeSettings::default()).unwrap()
    );
}

#[test]
fn damaged_dz_streams_are_refused() {
    let settings = RangeSettings::default();
    let stream = compress_chunk(b"damaged damaged damaged", settings).unwrap();
    assert!(decompress_chunk(&stream, 5, settings).is_err());
    assert!(decompress_chunk(&stream, 50, settings).is_err());
    assert!(decompress_chunk(&[], 5, settings).is_err());
}

#[test]
fn bzip_errors_have_kinds() {
    let stream = bzip::encode_default(b"bzip errors").unwrap();
    assert_eq!(
        bzip::decode_exact(&stream[..stream.len() - 2], 11).unwrap_err().kind(),
        ErrorKind::TruncatedData
    );
    assert_eq!(
        bzip::decode_exact(b"BZx1", 0).unwrap_err().kind(),
        ErrorKind::InvalidData
    );
    assert_eq!(
        bzip::decode_exact(&stream, 10).unwrap_err().kind(),
        ErrorKind::InvalidData
    );
    assert_eq!(
        bzip::encode_with_block_size(b"", 10).unwrap_err().kind(),
        ErrorKind::InvalidOptions
    );
    assert_eq!(bzip::bwt::bwt(b"banana"), (b"nnbaaa".to_vec(), 3));
}

#[test]
fn lzma_and_zlib_errors_have_kinds() {
    let props = lzma::LzmaProps::default();
    let stream = lzma::encode_checked(b"lzma errors", &props).unwrap();
    let bytes = lzma::decoder_props(&props).unwrap();
    assert_eq!(
        lzma::decode_raw(&stream[..4], &bytes, 11).unwrap_err().kind(),
        ErrorKind::TruncatedData
    );
    assert_eq!(
        lzma::decode_raw(&stream, &bytes, 12).unwrap_err().kind(),
        ErrorKind::InvalidData
    );
    assert_eq!(
        lzma::encode_checked(b"", &lzma::LzmaProps { pb: 5, ..props }).unwrap_err().kind(),
        ErrorKind::InvalidOptions
    );
    assert_eq!(
        zlib::decode_zlib(&[0x79, 0x9c, 0, 0, 0, 0, 0, 0], 0).unwrap_err().kind(),
        ErrorKind::UnsupportedFeature
    );
    assert_eq!(
        zlib::decode_raw(&[0x07], 0).unwrap_err().message(),
        "reserved DEFLATE block type"
    );
}

#[test]
fn chunks_name_what_they_need() {
    let dz = ChunkEncoding {
        compression: Compression::Dz,
        random_access: false,
        common_buffer: false,
        content_hint: None,
        unknown_flags: 0,
    };
    assert!(matches!(
        dzip::codec::decode(dz, b"", DecodeContext::new(0)),
        Err(DzipError::Codec(CodecError::MissingContext { codec: Codec::Dz }))
    ));
    assert!(matches!(
        dzip::codec::decode(
            ChunkEncoding {
                compression: Compression::Zlib,
                ..dz
            },
            b"not a stream",
            DecodeContext::new(3),
        ),
        Err(DzipError::Codec(CodecError::InvalidData { codec: Codec::Zlib, .. }))
    ));
    let stored = dzip::codec::encode(Compression::Bzip, b"abc", RangeSettings::default()).unwrap();
    let error = dzip::codec::decode(
        ChunkEncoding {
            compression: Compression::Bzip,
            ..dz
        },
        &stored,
        DecodeContext {
            expected_len: 3,
            dz: None,
            limits: CodecLimits {
                max_workspace_size: 1,
                ..CodecLimits::unlimited()
            },
        },
    )
    .unwrap_err();
    assert!(matches!(
        error,
        DzipError::Codec(CodecError::SizeLimit { codec: Codec::Bzip, .. })
    ));
    assert!("zip".parse::<Compression>().is_err());
    assert_eq!("LZMA".parse::<Compression>().unwrap(), Compression::Lzma);
    assert_eq!(Compression::of_codec(Codec::Dz), Compression::Dz);
}
