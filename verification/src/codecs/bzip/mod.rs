//! BZip2 streams.

pub mod bitstream;
pub mod block;
pub mod bwt;
pub mod checksum;
pub mod codec;
pub mod engine;
pub mod fault;
pub mod huffman;
pub mod laws;
pub mod mtf;
pub mod options;
pub mod randtable;
pub mod rotations;
pub mod strict;
pub mod transform;

pub use crate::codecs::error::{Error, ErrorKind};
pub use crate::codecs::zlib::options::ResourceLimits;
pub use codec::{decode, encode, Decoder, Encoder};
pub use options::{DecoderOptions, EncoderOptions};

use vstd::prelude::*;

verus! {

/// Encodes with the smallest block size.
pub fn encode_default(input: &[u8]) -> (result: Result<Vec<u8>, Error>)
    ensures
        match codec::encoded(
            EncoderOptions { block_size: 1, limits: ResourceLimits::no_limits() },
            input@,
        ) {
            Ok(stream) => result is Ok && result->Ok_0@ == stream,
            Err(fault) => result is Err && result->Err_0@ == fault.report(),
        },
{
    encode(input, &EncoderOptions::default())
}

/// Encodes with the given block size in `1..=9`.
pub fn encode_with_block_size(input: &[u8], block_size: u8) -> (result: Result<Vec<u8>, Error>)
    ensures
        !options::block_size_ok(block_size) ==> result is Err && result->Err_0@
            == fault::Fault::BlockSizeOption.report(),
        options::block_size_ok(block_size) ==> match codec::encoded(
            EncoderOptions { block_size, limits: ResourceLimits::no_limits() },
            input@,
        ) {
            Ok(stream) => result is Ok && result->Ok_0@ == stream,
            Err(fault) => result is Err && result->Err_0@ == fault.report(),
        },
{
    encode(input, &EncoderOptions { block_size, limits: ResourceLimits::unlimited() })
}

/// Decodes one or more concatenated streams to exactly `expected_size` bytes.
pub fn decode_exact(input: &[u8], expected_size: usize) -> (result: Result<Vec<u8>, Error>)
    ensures
        match engine::unbzip(input@, expected_size, usize::MAX) {
            Ok(content) => result is Ok && result->Ok_0@ == content,
            Err(fault) => result is Err && result->Err_0@ == fault.report(),
        },
{
    assert(input@.len() == input.len());
    decode(input, &DecoderOptions::new(expected_size))
}

} // verus!
