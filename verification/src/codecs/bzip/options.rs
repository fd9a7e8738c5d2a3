//! Options and working memory of the BZip2 codec.

use vstd::prelude::*;

use crate::codecs::bzip::fault::Fault;
use crate::codecs::error::Error;
use crate::codecs::zlib::options::ResourceLimits;

verus! {

#[derive(Debug, Clone, Copy, PartialEq, Eq, Structural)]
pub struct EncoderOptions {
    /// BZip2 block size in units of 100 KB (`1..=9`).
    pub block_size: u8,
    pub limits: ResourceLimits,
}

impl Default for EncoderOptions {
    fn default() -> (options: Self)
        ensures
            options.block_size == 1,
            options.limits == ResourceLimits::no_limits(),
    {
        EncoderOptions { block_size: 1, limits: ResourceLimits::unlimited() }
    }
}

/// The block sizes that a stream can declare.
pub open spec fn block_size_ok(block_size: u8) -> bool {
    1 <= block_size <= 9
}

impl EncoderOptions {
    /// Checks the block size.
    pub fn validate(self) -> (options: Result<Self, Error>)
        ensures
            block_size_ok(self.block_size) ==> options is Ok && options->Ok_0 == self,
            !block_size_ok(self.block_size) ==> options is Err && options->Err_0@
                == Fault::BlockSizeOption.report(),
    {
        if self.block_size < 1 || self.block_size > 9 {
            return Err(Fault::BlockSizeOption.error());
        }
        Ok(self)
    }
}

#[derive(Debug, Clone, Copy, PartialEq, Eq, Structural)]
pub struct DecoderOptions {
    pub expected_size: usize,
    pub limits: ResourceLimits,
}

impl DecoderOptions {
    /// Options without limits.
    pub fn new(expected_size: usize) -> (options: Self)
        ensures
            options == (DecoderOptions { expected_size, limits: ResourceLimits::no_limits() }),
    {
        DecoderOptions { expected_size, limits: ResourceLimits::unlimited() }
    }
}

/// The bytes of working memory that encoding takes.
pub open spec fn encode_workspace_size(input_size: int, block_size: u8) -> int {
    let capacity = block_size as int * 100_000;
    let block = if input_size < capacity {
        input_size
    } else {
        capacity
    };
    block * (usize::BITS as int / 8 * 6 + 6) + 0x40000
}

/// The bytes of working memory that decoding takes.
pub open spec fn decode_workspace_size(block_size: int) -> int {
    block_size * 100_000 * (usize::BITS as int / 8 * 3 + 5) + 0x40000
}

/// The working memory for encoding.
pub fn encode_workspace(input_size: usize, block_size: u8) -> (size: usize)
    requires
        block_size_ok(block_size),
    ensures
        size == encode_workspace_size(input_size as int, block_size),
{
    let capacity: usize = block_size as usize * 100_000;
    let block: usize = if input_size < capacity {
        input_size
    } else {
        capacity
    };
    let unit: usize = usize::BITS as usize / 8 * 6 + 6;
    assert(0 <= block * unit <= 900_000 * 54) by (nonlinear_arith)
        requires
            0 <= block <= 900_000,
            0 <= unit <= 54,
    ;
    block * unit + 0x40000
}

/// The working memory for decoding.
pub fn decode_workspace(block_size: u8) -> (size: usize)
    requires
        block_size_ok(block_size),
    ensures
        size == decode_workspace_size(block_size as int),
        size <= 0x200_0000,
{
    let block: usize = block_size as usize * 100_000;
    let unit: usize = usize::BITS as usize / 8 * 3 + 5;
    assert(0 <= block * unit <= 900_000 * 29) by (nonlinear_arith)
        requires
            0 <= block <= 900_000,
            0 <= unit <= 29,
    ;
    block * unit + 0x40000
}

} // verus!
