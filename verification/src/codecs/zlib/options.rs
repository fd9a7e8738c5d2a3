//! Options and resource limits of the DEFLATE and zlib codec.

use vstd::prelude::*;

verus! {

#[derive(Debug, Clone, Copy, PartialEq, Eq, Structural)]
pub enum StreamFormat {
    RawDeflate,
    Zlib,
}

#[derive(Debug, Clone, Copy, PartialEq, Eq, Structural)]
pub struct ResourceLimits {
    pub max_input_size: usize,
    pub max_output_size: usize,
    pub max_workspace_size: usize,
}

impl ResourceLimits {
    /// Limits that no request exceeds.
    pub open spec fn no_limits() -> ResourceLimits {
        ResourceLimits {
            max_input_size: usize::MAX,
            max_output_size: usize::MAX,
            max_workspace_size: usize::MAX,
        }
    }

    /// Limits that no request exceeds.
    pub fn unlimited() -> (limits: ResourceLimits)
        ensures
            limits == ResourceLimits::no_limits(),
    {
        ResourceLimits {
            max_input_size: usize::MAX,
            max_output_size: usize::MAX,
            max_workspace_size: usize::MAX,
        }
    }
}

impl Default for ResourceLimits {
    fn default() -> (limits: Self)
        ensures
            limits == ResourceLimits::no_limits(),
    {
        ResourceLimits::unlimited()
    }
}

#[derive(Debug, Clone, Copy, PartialEq, Eq, Structural)]
pub struct EncoderOptions {
    pub format: StreamFormat,
    pub limits: ResourceLimits,
}

impl Default for EncoderOptions {
    fn default() -> (options: Self)
        ensures
            options.format == StreamFormat::Zlib,
            options.limits == ResourceLimits::no_limits(),
    {
        EncoderOptions { format: StreamFormat::Zlib, limits: ResourceLimits::unlimited() }
    }
}

#[derive(Debug, Clone, Copy, PartialEq, Eq, Structural)]
pub struct DecoderOptions {
    pub format: StreamFormat,
    pub expected_size: usize,
    pub limits: ResourceLimits,
}

impl DecoderOptions {
    /// Options for a zlib stream of `expected_size` bytes without limits.
    pub fn new(expected_size: usize) -> (options: Self)
        ensures
            options == (DecoderOptions {
                format: StreamFormat::Zlib,
                expected_size,
                limits: ResourceLimits::no_limits(),
            }),
    {
        DecoderOptions {
            format: StreamFormat::Zlib,
            expected_size,
            limits: ResourceLimits::unlimited(),
        }
    }
}

/// The bytes of working memory that encoding `input_size` bytes takes: the two hash-chain
/// tables of machine words, and a fixed part.
pub open spec fn encode_workspace_size(input_size: int) -> int {
    (input_size + 0x10000) * (usize::BITS as int / 8) + 0x10000
}

/// The bytes of working memory that decoding takes: two full lookup tables, and a fixed part.
pub open spec fn decode_workspace_size() -> int {
    0x50000
}

/// The working memory for encoding, or `None` if it exceeds the address space.
pub fn encode_workspace(input_size: usize) -> (size: Option<usize>)
    ensures
        match size {
            Some(size) => size == encode_workspace_size(input_size as int),
            None => encode_workspace_size(input_size as int) > usize::MAX,
        },
{
    let word: usize = usize::BITS as usize / 8;
    let fixed: usize = 0x10000 * word;
    assert((input_size + 0x10000) * word == input_size * word + 0x10000 * word)
        by (nonlinear_arith);
    match input_size.checked_mul(word) {
        None => None,
        Some(chains) => match chains.checked_add(fixed) {
            None => None,
            Some(tables) => tables.checked_add(0x10000),
        },
    }
}

/// The working memory for decoding.
pub fn decode_workspace() -> (size: usize)
    ensures
        size == decode_workspace_size(),
{
    2 * 0x8000 * 4 + 0x10000
}

} // verus!
