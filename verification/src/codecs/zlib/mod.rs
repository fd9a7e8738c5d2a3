//! RFC 1951 DEFLATE and RFC 1950 zlib streams.

pub mod bitstream;
pub mod checksum;
pub mod codec;
pub mod deflate;
pub mod engine;
pub mod fault;
pub mod fixed;
pub mod huffman;
pub mod inflate;
pub mod laws;
pub mod options;
pub mod strict;
pub mod window;

pub use crate::codecs::error::{Error, ErrorKind};
pub use checksum::adler32;
pub use codec::{decode, encode, Decoder, Encoder};
pub use options::{DecoderOptions, EncoderOptions, ResourceLimits, StreamFormat};

use vstd::prelude::*;

verus! {

/// Encodes `input` as a raw DEFLATE stream without limits.
pub fn encode_raw(input: &[u8]) -> (stream: Vec<u8>)
    ensures
        stream@ == deflate::deflate(input@),
{
    deflate::encode_raw_with_buffer(input, Vec::new())
}

/// Decodes a raw DEFLATE stream to exactly `expected_size` bytes.
pub fn decode_raw(input: &[u8], expected_size: usize) -> (result: Result<Vec<u8>, Error>)
    ensures
        match inflate::inflate(input@, expected_size) {
            Ok(content) => result is Ok && result->Ok_0@ == content,
            Err(fault) => result is Err && result->Err_0@ == fault.report(),
        },
{
    let options = DecoderOptions {
        format: StreamFormat::RawDeflate,
        expected_size,
        limits: ResourceLimits::unlimited(),
    };
    assert(input@.len() == input.len());
    decode(input, &options)
}

/// Encodes `input` as a zlib stream without limits.
pub fn encode_zlib(input: &[u8]) -> (stream: Vec<u8>)
    ensures
        stream@ == engine::zlib_stream(input@),
{
    engine::encode_zlib_with_buffer(input, Vec::new())
}

/// Decodes a zlib stream to exactly `expected_size` bytes.
pub fn decode_zlib(input: &[u8], expected_size: usize) -> (result: Result<Vec<u8>, Error>)
    ensures
        match engine::unzlib(input@, expected_size) {
            Ok(content) => result is Ok && result->Ok_0@ == content,
            Err(fault) => result is Err && result->Err_0@ == fault.report(),
        },
{
    assert(input@.len() == input.len());
    decode(input, &DecoderOptions::new(expected_size))
}

} // verus!
