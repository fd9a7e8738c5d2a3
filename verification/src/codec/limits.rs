//! Limits of the chunk codecs.

use vstd::prelude::*;

verus! {

#[derive(Debug, Clone, Copy, PartialEq, Eq, Structural)]
pub struct CodecLimits {
    pub max_input_size: usize,
    pub max_output_size: usize,
    pub max_workspace_size: usize,
}

impl CodecLimits {
    /// Limits that no request exceeds.
    pub open spec fn no_limits() -> CodecLimits {
        CodecLimits {
            max_input_size: usize::MAX,
            max_output_size: usize::MAX,
            max_workspace_size: usize::MAX,
        }
    }

    /// Limits that no request exceeds.
    pub fn unlimited() -> (limits: CodecLimits)
        ensures
            limits == CodecLimits::no_limits(),
    {
        CodecLimits {
            max_input_size: usize::MAX,
            max_output_size: usize::MAX,
            max_workspace_size: usize::MAX,
        }
    }

    /// Limits that refuse no stream of the usual kinds.
    pub open spec fn ample(self) -> bool {
        &&& self.max_input_size == usize::MAX
        &&& self.max_output_size == usize::MAX
        &&& self.max_workspace_size >= 0x1000_0000
    }

    /// The same limits for the stream engines.
    pub open spec fn engine_limits(self) -> crate::codecs::zlib::options::ResourceLimits {
        crate::codecs::zlib::options::ResourceLimits {
            max_input_size: self.max_input_size,
            max_output_size: self.max_output_size,
            max_workspace_size: self.max_workspace_size,
        }
    }

    /// The same limits for the stream engines.
    pub fn for_engine(self) -> (limits: crate::codecs::zlib::options::ResourceLimits)
        ensures
            limits == self.engine_limits(),
    {
        crate::codecs::zlib::options::ResourceLimits {
            max_input_size: self.max_input_size,
            max_output_size: self.max_output_size,
            max_workspace_size: self.max_workspace_size,
        }
    }
}

impl Default for CodecLimits {
    fn default() -> (limits: CodecLimits)
        ensures
            limits == CodecLimits::no_limits(),
    {
        CodecLimits::unlimited()
    }
}

} // verus!
