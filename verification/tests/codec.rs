//! The codec facade and the rules of the format.

use dzip::codec::flags::{ChunkEncoding, Codec, Compression, ContentHint};
use dzip::codec::limits::CodecLimits;
use dzip::codec::{bzip, lzma, zlib, DecodeContext};
use dzip::codecs::dz::RangeSettings;
use dzip::compat::{
    compression_writes_range_settings, flags_require_range_settings, registered_compression,
};
use dzip::error::DzipError;
use dzip::format::{
    CHUNK_BZIP, CHUNK_COPYCOMP, CHUNK_DZ, CHUNK_JPEG, CHUNK_LZMA, CHUNK_MP3, CHUNK_RANDOMACCESS,
    CHUNK_ZERO, CHUNK_ZLIB,
};

#[test]
fn empty_input_keeps_the_original_bzip2_stream() {
    assert_eq!(
        bzip::encode(&[]).unwrap(),
        [
            0x42, 0x5a, 0x68, 0x31, 0x17, 0x72, 0x45, 0x38, 0x50, 0x90, 0x00, 0x00, 0x00, 0x00,
        ]
    );
}

#[test]
fn storage_flags_round_trip_with_orthogonal_metadata() {
    for flags in [
        CHUNK_COPYCOMP,
        CHUNK_COPYCOMP | CHUNK_RANDOMACCESS | CHUNK_MP3,
        CHUNK_COPYCOMP | CHUNK_MP3 | CHUNK_JPEG,
        CHUNK_ZLIB | CHUNK_RANDOMACCESS,
        CHUNK_ZLIB | CHUNK_JPEG,
        CHUNK_BZIP,
        CHUNK_LZMA,
        CHUNK_DZ | CHUNK_MP3,
        CHUNK_ZERO,
        CHUNK_ZLIB | 0x8000,
    ] {
        assert_eq!(ChunkEncoding::from_flags(flags).unwrap().to_flags(), flags);
    }
}

#[test]
fn media_and_random_access_flags_do_not_select_copy() {
    let dz_mp3 = ChunkEncoding::from_flags(CHUNK_DZ | CHUNK_MP3).unwrap();
    assert_eq!(dz_mp3.compression, Compression::Dz);
    assert_eq!(dz_mp3.content_hint, Some(ContentHint::Mp3));

    let zlib_jpeg =
        ChunkEncoding::from_flags(CHUNK_ZLIB | CHUNK_JPEG | CHUNK_RANDOMACCESS).unwrap();
    assert_eq!(zlib_jpeg.compression, Compression::Zlib);
    assert_eq!(zlib_jpeg.content_hint, Some(ContentHint::Jpeg));
    assert!(zlib_jpeg.random_access);
}

#[test]
fn metadata_only_flags_are_not_decodable_chunks() {
    for flags in [
        CHUNK_MP3,
        CHUNK_JPEG,
        CHUNK_RANDOMACCESS,
        CHUNK_MP3 | CHUNK_JPEG | CHUNK_RANDOMACCESS,
    ] {
        assert!(matches!(
            ChunkEncoding::from_flags(flags),
            Err(DzipError::UnsupportedCompression(value)) if value == flags
        ));
    }
}

#[test]
fn combined_storage_flags_use_original_packer_order() {
    let flags = CHUNK_ZERO | CHUNK_BZIP | CHUNK_COPYCOMP | CHUNK_ZLIB | CHUNK_LZMA | CHUNK_DZ;
    assert_eq!(
        ChunkEncoding::from_flags(flags).unwrap().compression,
        Compression::Zero
    );
    assert_eq!(
        ChunkEncoding::from_flags(flags & !CHUNK_ZERO)
            .unwrap()
            .compression,
        Compression::Bzip
    );
    assert_eq!(
        ChunkEncoding::from_flags(flags & !(CHUNK_ZERO | CHUNK_BZIP))
            .unwrap()
            .compression,
        Compression::Copy
    );
    assert_eq!(
        ChunkEncoding::from_flags(flags & !(CHUNK_ZERO | CHUNK_BZIP | CHUNK_COPYCOMP))
            .unwrap()
            .compression,
        Compression::Zlib
    );
    assert_eq!(
        ChunkEncoding::from_flags(
            flags & !(CHUNK_ZERO | CHUNK_BZIP | CHUNK_COPYCOMP | CHUNK_ZLIB)
        )
        .unwrap()
        .compression,
        Compression::Lzma
    );
}

#[test]
fn lzma_alone_header_uses_dzip_properties_and_size() {
    let encoded = lzma::encode(b"payload").unwrap();
    assert_eq!(&encoded[..5], &[0x5d, 0x00, 0x00, 0x01, 0x00]);
    assert_eq!(&encoded[5..13], &7u64.to_le_bytes());
}

#[test]
fn empty_input_matches_dzip_zero_length_storage() {
    assert!(lzma::encode(&[]).unwrap().is_empty());
    assert_eq!(
        lzma::decode(&[], 0, CodecLimits::unlimited()).unwrap(),
        Vec::<u8>::new()
    );
}

#[test]
fn lzma_alone_round_trip_uses_local_decoder() {
    for input in [
        Vec::new(),
        b"local LZMA decoder".repeat(100),
        (0..=255).cycle().take(100_000).collect(),
    ] {
        let encoded = lzma::encode(&input).unwrap();
        assert_eq!(
            lzma::decode(&encoded, input.len(), CodecLimits::unlimited()).unwrap(),
            input
        );
    }
}

#[test]
fn malformed_lzma_alone_streams_return_errors() {
    assert!(lzma::decode(&[0], 0, CodecLimits::unlimited()).is_err());

    let mut mismatched = lzma::encode(b"payload").unwrap();
    mismatched[5..13].copy_from_slice(&8u64.to_le_bytes());
    assert!(lzma::decode(&mismatched, 7, CodecLimits::unlimited()).is_err());

    let mut truncated = lzma::encode(b"payload").unwrap();
    truncated.truncate(15);
    assert!(lzma::decode(&truncated, 7, CodecLimits::unlimited()).is_err());
}

#[test]
fn disabled_codec_features_report_unavailable() {
    let settings = RangeSettings::default();
    for compression in [
        Compression::Bzip,
        Compression::Dz,
        Compression::Lzma,
        Compression::Zlib,
    ] {
        assert!(dzip::codec::encode(compression, b"data", settings).is_ok());
    }
}

#[test]
fn unified_decode_limits_apply_before_dispatch() {
    let encoding = ChunkEncoding {
        compression: Compression::Copy,
        random_access: false,
        common_buffer: false,
        content_hint: None,
        unknown_flags: 0,
    };
    let error = dzip::codec::decode(
        encoding,
        b"too large",
        DecodeContext {
            expected_len: 9,
            dz: None,
            limits: CodecLimits {
                max_input_size: 1,
                ..CodecLimits::unlimited()
            },
        },
    )
    .unwrap_err();
    assert!(matches!(error, DzipError::LimitExceeded { .. }));
}

#[test]
fn combined_flags_follow_the_registered_original_order() {
    let all = CHUNK_ZERO | CHUNK_BZIP | CHUNK_COPYCOMP | CHUNK_ZLIB | CHUNK_LZMA | CHUNK_DZ;
    assert_eq!(registered_compression(all), Some(Compression::Zero));
    assert_eq!(
        registered_compression(all & !CHUNK_ZERO),
        Some(Compression::Bzip)
    );
    assert_eq!(
        registered_compression(all & !(CHUNK_ZERO | CHUNK_BZIP)),
        Some(Compression::Copy)
    );
}

#[test]
fn dz_settings_keep_the_original_writer_reader_asymmetry() {
    assert!(flags_require_range_settings(CHUNK_ZLIB | CHUNK_DZ));
    assert!(!compression_writes_range_settings(Compression::Zlib));
    assert!(compression_writes_range_settings(Compression::Dz));
}

