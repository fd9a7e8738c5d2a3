//! Everything that can be wrong with an LZMA request.

use vstd::prelude::*;

use crate::codecs::error::{Error, ErrorKind, Report};

verus! {

/// A reason to refuse a stream or a request.
#[derive(Debug, Clone, Copy, PartialEq, Eq, Structural)]
pub enum Fault {
    RangePrefix,
    TruncatedStream,
    LiteralPrecedesOutput,
    MatchPrecedesWindow,
    OutputExceedsLength,
    EarlyEndMarker,
    PropertiesByte,
    PropertiesOption,
    ContextOptions,
    DeclaredOutputLimit,
    InputLimit,
    OutputLimit,
    WorkspaceLimit,
    WorkspaceOverflow,
}

impl Fault {
    /// The category of the fault.
    pub open spec fn kind(self) -> ErrorKind {
        match self {
            Fault::RangePrefix => ErrorKind::TruncatedData,
            Fault::TruncatedStream => ErrorKind::TruncatedData,
            Fault::LiteralPrecedesOutput => ErrorKind::InvalidData,
            Fault::MatchPrecedesWindow => ErrorKind::InvalidData,
            Fault::OutputExceedsLength => ErrorKind::InvalidData,
            Fault::EarlyEndMarker => ErrorKind::InvalidData,
            Fault::PropertiesByte => ErrorKind::InvalidData,
            Fault::PropertiesOption => ErrorKind::InvalidOptions,
            Fault::ContextOptions => ErrorKind::InvalidOptions,
            Fault::DeclaredOutputLimit => ErrorKind::OutputLimitExceeded,
            Fault::InputLimit => ErrorKind::InputLimitExceeded,
            Fault::OutputLimit => ErrorKind::OutputLimitExceeded,
            Fault::WorkspaceLimit => ErrorKind::WorkspaceLimitExceeded,
            Fault::WorkspaceOverflow => ErrorKind::WorkspaceLimitExceeded,
        }
    }

    /// The description of the fault.
    pub open spec fn text(self) -> Seq<char> {
        match self {
            Fault::RangePrefix => "truncated or invalid LZMA range prefix"@,
            Fault::TruncatedStream => "truncated LZMA range stream"@,
            Fault::LiteralPrecedesOutput => "LZMA matched literal precedes output"@,
            Fault::MatchPrecedesWindow => "LZMA match precedes output window"@,
            Fault::OutputExceedsLength => "LZMA output exceeds declared length"@,
            Fault::EarlyEndMarker => "LZMA end marker precedes declared output length"@,
            Fault::PropertiesByte => "invalid LZMA properties byte"@,
            Fault::PropertiesOption => "invalid LZMA properties byte"@,
            Fault::ContextOptions => "invalid LZMA lc/lp/pb properties"@,
            Fault::DeclaredOutputLimit => "LZMA declared output exceeds configured limit"@,
            Fault::InputLimit => "LZMA input exceeds configured limit"@,
            Fault::OutputLimit => "LZMA output exceeds configured limit"@,
            Fault::WorkspaceLimit => "LZMA workspace exceeds configured limit"@,
            Fault::WorkspaceOverflow => "LZMA workspace estimate overflow"@,
        }
    }

    /// The error that reports the fault.
    pub open spec fn report(self) -> Report {
        Report { kind: self.kind(), text: self.text() }
    }

    /// The error that reports the fault.
    pub fn error(self) -> (error: Error)
        ensures
            error@ == self.report(),
    {
        match self {
            Fault::RangePrefix => Error::literal(ErrorKind::TruncatedData, "truncated or invalid LZMA range prefix"),
            Fault::TruncatedStream => Error::literal(ErrorKind::TruncatedData, "truncated LZMA range stream"),
            Fault::LiteralPrecedesOutput => Error::literal(ErrorKind::InvalidData, "LZMA matched literal precedes output"),
            Fault::MatchPrecedesWindow => Error::literal(ErrorKind::InvalidData, "LZMA match precedes output window"),
            Fault::OutputExceedsLength => Error::literal(ErrorKind::InvalidData, "LZMA output exceeds declared length"),
            Fault::EarlyEndMarker => Error::literal(ErrorKind::InvalidData, "LZMA end marker precedes declared output length"),
            Fault::PropertiesByte => Error::literal(ErrorKind::InvalidData, "invalid LZMA properties byte"),
            Fault::PropertiesOption => Error::literal(ErrorKind::InvalidOptions, "invalid LZMA properties byte"),
            Fault::ContextOptions => Error::literal(ErrorKind::InvalidOptions, "invalid LZMA lc/lp/pb properties"),
            Fault::DeclaredOutputLimit => Error::literal(ErrorKind::OutputLimitExceeded, "LZMA declared output exceeds configured limit"),
            Fault::InputLimit => Error::literal(ErrorKind::InputLimitExceeded, "LZMA input exceeds configured limit"),
            Fault::OutputLimit => Error::literal(ErrorKind::OutputLimitExceeded, "LZMA output exceeds configured limit"),
            Fault::WorkspaceLimit => Error::literal(ErrorKind::WorkspaceLimitExceeded, "LZMA workspace exceeds configured limit"),
            Fault::WorkspaceOverflow => Error::literal(ErrorKind::WorkspaceLimitExceeded, "LZMA workspace estimate overflow"),
        }
    }
}

} // verus!
