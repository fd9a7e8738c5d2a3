//! Chunk encoding and decoding for every way of storing.

pub mod bzip;
pub mod dz;
pub mod error;
pub mod flags;
pub mod laws;
pub mod limits;
pub mod lzma;
pub mod zlib;

pub use dz::{DzDecodeContext, DzOptions};
pub use error::CodecError;
pub use flags::{ChunkEncoding, Codec, Compression, ContentHint, ParseCompressionError};
pub use limits::CodecLimits;

use vstd::prelude::*;

use crate::codecs::dz::fault::DzFault;
use crate::codecs::dz::stream::{undz, Common};
use crate::codecs::dz::RangeSettings;
use crate::error::{check_limit, DzipError, Trouble};

verus! {

/// What a chunk is decoded with.
#[derive(Debug, Clone, Copy)]
pub struct DecodeContext<'a> {
    pub expected_len: usize,
    pub dz: Option<&'a DzDecodeContext>,
    pub limits: CodecLimits,
}

impl<'a> DecodeContext<'a> {
    /// The context of a chunk of the given size, without limits.
    pub fn new(expected_len: usize) -> (context: Self)
        ensures
            context.expected_len == expected_len,
            context.dz is None,
            context.limits == CodecLimits::no_limits(),
    {
        DecodeContext { expected_len, dz: None, limits: CodecLimits::unlimited() }
    }
}

/// The stored bytes of a chunk; nothing for the DZ codec, whose encoder has a choice.
pub open spec fn stored(compression: Compression, input: Seq<u8>) -> Option<
    Result<Seq<u8>, error::CodecTrouble>,
> {
    match compression {
        Compression::Copy => Some(Ok(input)),
        Compression::Zero => Some(Ok(seq![])),
        Compression::Bzip => Some(bzip::bzip_chunk(input)),
        Compression::Zlib => Some(Ok(zlib::zlib_chunk(input))),
        Compression::Lzma => Some(lzma::lzma_chunk(input)),
        Compression::Dz => None,
    }
}

/// The settings and the common buffer of a context.
pub struct DzSetup {
    pub settings: RangeSettings,
    pub common: Option<Common>,
}

/// The settings and the common buffer of a context.
pub open spec fn setup_of(context: Option<&DzDecodeContext>) -> Option<DzSetup> {
    match context {
        None => None,
        Some(context) => Some(DzSetup { settings: context.models(), common: context.common() }),
    }
}

/// What a chunk decodes to, once the limits on its size are kept.
pub open spec fn chunk_content(
    compression: Compression,
    data: Seq<u8>,
    expected: usize,
    setup: Option<DzSetup>,
    limits: CodecLimits,
) -> Result<Seq<u8>, Trouble> {
    let inner = match compression {
        Compression::Copy => Ok(data),
        Compression::Zero => Ok(Seq::new(expected as nat, |i: int| 0u8)),
        Compression::Bzip => bzip::bzip_content(data, expected, limits),
        Compression::Zlib => zlib::zlib_content(data, expected, limits),
        Compression::Lzma => lzma::lzma_content(data, expected, limits),
        Compression::Dz => match setup {
            None => Err(error::CodecTrouble::MissingContext { codec: Codec::Dz }),
            Some(setup) => dz::dz_content(data, expected, setup.settings, setup.common, limits),
        },
    };
    match inner {
        Ok(bytes) => Ok(bytes),
        Err(trouble) => Err(Trouble::Codec(trouble)),
    }
}

/// What a chunk decodes to.
pub open spec fn limited_content(
    compression: Compression,
    data: Seq<u8>,
    expected: usize,
    setup: Option<DzSetup>,
    limits: CodecLimits,
) -> Result<Seq<u8>, Trouble> {
    if data.len() > limits.max_input_size {
        Err(
            Trouble::LimitExceeded {
                resource: "codec input size"@,
                limit: limits.max_input_size as u64,
                actual: data.len() as u64,
            },
        )
    } else if expected > limits.max_output_size {
        Err(
            Trouble::LimitExceeded {
                resource: "codec output size"@,
                limit: limits.max_output_size as u64,
                actual: expected as u64,
            },
        )
    } else {
        chunk_content(compression, data, expected, setup, limits)
    }
}

/// What was stored without the DZ codec decodes to what went in, except that zeros are not
/// stored at all.
pub proof fn lemma_chunk_round_trip(
    compression: Compression,
    input: Seq<u8>,
    setup: Option<DzSetup>,
    limits: CodecLimits,
)
    requires
        limits.ample(),
        input.len() <= usize::MAX,
        stored(compression, input) matches Some(Ok(data)) && data.len() <= usize::MAX,
        compression == Compression::Zero ==> forall|i: int|
            0 <= i < input.len() ==> #[trigger] input[i] == 0,
    ensures
        limited_content(
            compression,
            stored(compression, input)->Some_0->Ok_0,
            input.len() as usize,
            setup,
            limits,
        ) == Ok::<Seq<u8>, Trouble>(input),
{
    match compression {
        Compression::Copy => {},
        Compression::Zero => {
            assert(Seq::new(input.len(), |i: int| 0u8) =~= input);
        },
        Compression::Bzip => {
            bzip::lemma_bzip_chunk(input, limits);
        },
        Compression::Zlib => {
            zlib::lemma_zlib_chunk(input, limits);
        },
        Compression::Lzma => {
            lzma::lemma_lzma_chunk(input, limits);
        },
        Compression::Dz => {},
    }
}

/// The same bytes once more.
pub fn copied(bytes: &[u8]) -> (copy: Vec<u8>)
    ensures
        copy@ == bytes@,
{
    let mut copy: Vec<u8> = Vec::with_capacity(bytes.len());
    copy.extend_from_slice(bytes);
    assert(copy@ =~= bytes@);
    copy
}

/// Stores a chunk.
pub fn encode(compression: Compression, input: &[u8], dz_settings: RangeSettings) -> (result: Result<
    Vec<u8>,
    DzipError,
>)
    ensures
        match stored(compression, input@) {
            Some(Ok(data)) => result matches Ok(output) && output@ == data,
            Some(Err(trouble)) => result matches Err(error) && error@ == Trouble::Codec(trouble),
            None => match crate::codecs::dz::chunk::dz_stream(input@, dz_settings) {
                Ok(data) => result matches Ok(output) && output@ == data,
                Err(fault) => result matches Err(error) && error@ == Trouble::Codec(
                    dz::dz_trouble(fault),
                ),
            },
        },
        compression == Compression::Dz ==> match result {
            Ok(data) => dz_settings.valid() && undz(
                data@,
                input@.len() as int,
                dz_settings,
                None,
            ) == Ok::<Seq<u8>, DzFault>(input@),
            Err(error) => if dz_settings.valid() {
                error@ == Trouble::Codec(dz::dz_trouble(DzFault::Collapsed))
                    && !dz_settings.lively()
            } else {
                error@ == Trouble::Codec(dz::dz_trouble(DzFault::InvalidSettings))
            },
        },
{
    match compression {
        Compression::Copy => Ok(copied(input)),
        Compression::Zero => {
            let output: Vec<u8> = Vec::new();
            assert(output@ =~= seq![]);
            Ok(output)
        },
        Compression::Dz => dz::encode(input, dz_settings),
        Compression::Bzip => match bzip::encode(input) {
            Ok(output) => Ok(output),
            Err(error) => Err(DzipError::Codec(error)),
        },
        Compression::Zlib => Ok(zlib::encode(input)),
        Compression::Lzma => match lzma::encode(input) {
            Ok(output) => Ok(output),
            Err(error) => Err(DzipError::Codec(error)),
        },
    }
}

/// Reads a stored chunk.
pub fn decode<'a>(encoding: ChunkEncoding, input: &[u8], context: DecodeContext<'a>) -> (result:
    Result<Vec<u8>, DzipError>)
    ensures
        match limited_content(
            encoding.compression,
            input@,
            context.expected_len,
            setup_of(context.dz),
            context.limits,
        ) {
            Ok(bytes) => result matches Ok(output) && output@ == bytes,
            Err(trouble) => result matches Err(error) && error@ == trouble,
        },
{
    let size: usize = input.len();
    match check_limit("codec input size", context.limits.max_input_size as u64, size as u64) {
        Ok(()) => {},
        Err(error) => return Err(error),
    }
    match check_limit(
        "codec output size",
        context.limits.max_output_size as u64,
        context.expected_len as u64,
    ) {
        Ok(()) => {},
        Err(error) => return Err(error),
    }
    match encoding.compression {
        Compression::Copy => Ok(copied(input)),
        Compression::Zero => {
            let output: Vec<u8> = vec![0; context.expected_len];
            assert(output@ =~= Seq::new(context.expected_len as nat, |i: int| 0u8));
            Ok(output)
        },
        Compression::Dz => match context.dz {
            None => Err(DzipError::Codec(CodecError::MissingContext { codec: Codec::Dz })),
            Some(setup) => dz::decode_with_buffer(
                input,
                context.expected_len,
                setup,
                context.limits,
                Vec::new(),
            ),
        },
        Compression::Bzip => match bzip::decode(input, context.expected_len, context.limits) {
            Ok(output) => Ok(output),
            Err(error) => Err(DzipError::Codec(error)),
        },
        Compression::Zlib => match zlib::decode_with_buffer(
            input,
            context.expected_len,
            context.limits,
            Vec::new(),
        ) {
            Ok(output) => Ok(output),
            Err(error) => Err(DzipError::Codec(error)),
        },
        Compression::Lzma => match lzma::decode(input, context.expected_len, context.limits) {
            Ok(output) => Ok(output),
            Err(error) => Err(DzipError::Codec(error)),
        },
    }
}

} // verus!
