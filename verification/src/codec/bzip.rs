//! BZip2 chunks.

use vstd::prelude::*;

use crate::codec::error::{engine_trouble, CodecError, CodecTrouble};
use crate::codec::flags::Codec;
use crate::codec::limits::CodecLimits;
use crate::codecs::bzip;
use crate::codecs::bzip::codec::{decoded, decoder_refusal, encoded, lemma_codec_round_trip};
use crate::codecs::bzip::options::{DecoderOptions, EncoderOptions};
use crate::codecs::zlib::options::ResourceLimits;

verus! {

/// The stored bytes of a BZip2 chunk.
pub open spec fn bzip_chunk(input: Seq<u8>) -> Result<Seq<u8>, CodecTrouble> {
    match encoded(
        EncoderOptions { block_size: 1, limits: ResourceLimits::no_limits() },
        input,
    ) {
        Ok(stream) => Ok(stream),
        Err(fault) => Err(engine_trouble(Codec::Bzip, fault.report())),
    }
}

/// What a BZip2 chunk decodes to.
pub open spec fn bzip_content(data: Seq<u8>, expected: usize, limits: CodecLimits) -> Result<
    Seq<u8>,
    CodecTrouble,
> {
    let options = DecoderOptions { expected_size: expected, limits: limits.engine_limits() };
    if data.len() == 0 && expected == 0 {
        Ok(seq![])
    } else {
        match decoder_refusal(options) {
            Some(fault) => Err(engine_trouble(Codec::Bzip, fault.report())),
            None => match decoded(options, data) {
                Ok(bytes) => Ok(bytes),
                Err(fault) => Err(engine_trouble(Codec::Bzip, fault.report())),
            },
        }
    }
}

/// A BZip2 chunk decodes to what went in.
pub proof fn lemma_bzip_chunk(input: Seq<u8>, limits: CodecLimits)
    requires
        limits.ample(),
        input.len() <= usize::MAX,
        bzip_chunk(input) matches Ok(data) && data.len() <= usize::MAX,
    ensures
        bzip_content(bzip_chunk(input)->Ok_0, input.len() as usize, limits) == Ok::<
            Seq<u8>,
            CodecTrouble,
        >(input),
{
    let options = DecoderOptions {
        expected_size: input.len() as usize,
        limits: limits.engine_limits(),
    };
    lemma_codec_round_trip(
        EncoderOptions { block_size: 1, limits: ResourceLimits::no_limits() },
        options,
        input,
    );
    let data = bzip_chunk(input)->Ok_0;
    if data.len() == 0 {
        assert(data =~= seq![]);
        assert(input =~= seq![]) by {
            if input.len() == 0 {
            }
        }
    }
}

/// Writes a BZip2 stream with the smallest blocks.
pub fn encode(input: &[u8]) -> (result: Result<Vec<u8>, CodecError>)
    ensures
        match bzip_chunk(input@) {
            Ok(data) => result matches Ok(output) && output@ == data,
            Err(trouble) => result matches Err(error) && error@ == trouble,
        },
{
    match bzip::encode_default(input) {
        Ok(output) => Ok(output),
        Err(error) => Err(CodecError::engine(Codec::Bzip, error.kind(), error.message())),
    }
}

pub fn decode(input: &[u8], expected_length: usize, limits: CodecLimits) -> (result: Result<
    Vec<u8>,
    CodecError,
>)
    ensures
        match bzip_content(input@, expected_length, limits) {
            Ok(bytes) => result matches Ok(output) && output@ == bytes,
            Err(trouble) => result matches Err(error) && error@ == trouble,
        },
{
    if input.len() == 0 && expected_length == 0 {
        let output: Vec<u8> = Vec::new();
        assert(output@ =~= seq![]);
        return Ok(output);
    }
    let options = DecoderOptions { expected_size: expected_length, limits: limits.for_engine() };
    match bzip::decode(input, &options) {
        Ok(output) => Ok(output),
        Err(error) => Err(CodecError::engine(Codec::Bzip, error.kind(), error.message())),
    }
}

} // verus!
