//! Everything that can be wrong with a DEFLATE or zlib request.

use vstd::prelude::*;
use vstd::string::*;

use crate::codecs::error::{Error, ErrorKind, Report};
use crate::codecs::text::{append_decimal, decimal};

verus! {

/// A reason to refuse a stream or a request.
#[derive(Debug, Clone, Copy, PartialEq, Eq, Structural)]
pub enum Fault {
    TruncatedStream,
    TruncatedCode,
    TruncatedZlib,
    ReservedBlockType,
    UnsupportedMethod,
    HeaderChecksum,
    PresetDictionary,
    ChecksumMismatch,
    StoredComplement,
    OutputExceedsLength,
    EmptyDistanceTree,
    ReservedDistance,
    MatchPrecedesWindow,
    ReservedLiteral,
    RepeatWithoutPredecessor,
    InvalidCodeLengthSymbol,
    MissingEndOfBlock,
    EmptyDistanceTreeTooLong,
    RepeatExceedsTree,
    CodeTooLong,
    OversubscribedTree,
    EmptyTree,
    InvalidCode,
    DeclaredOutputLimit,
    InputLimit,
    OutputLimit,
    WorkspaceLimit,
    WorkspaceOverflow,
    LengthMismatch { expected: usize, actual: usize },
}

impl Fault {
    /// The category of the fault.
    pub open spec fn kind(self) -> ErrorKind {
        match self {
            Fault::TruncatedStream => ErrorKind::TruncatedData,
            Fault::TruncatedCode => ErrorKind::TruncatedData,
            Fault::TruncatedZlib => ErrorKind::TruncatedData,
            Fault::ReservedBlockType => ErrorKind::InvalidData,
            Fault::UnsupportedMethod => ErrorKind::UnsupportedFeature,
            Fault::HeaderChecksum => ErrorKind::InvalidData,
            Fault::PresetDictionary => ErrorKind::UnsupportedFeature,
            Fault::ChecksumMismatch => ErrorKind::InvalidData,
            Fault::StoredComplement => ErrorKind::InvalidData,
            Fault::OutputExceedsLength => ErrorKind::InvalidData,
            Fault::EmptyDistanceTree => ErrorKind::InvalidData,
            Fault::ReservedDistance => ErrorKind::InvalidData,
            Fault::MatchPrecedesWindow => ErrorKind::InvalidData,
            Fault::ReservedLiteral => ErrorKind::InvalidData,
            Fault::RepeatWithoutPredecessor => ErrorKind::InvalidData,
            Fault::InvalidCodeLengthSymbol => ErrorKind::InvalidData,
            Fault::MissingEndOfBlock => ErrorKind::InvalidData,
            Fault::EmptyDistanceTreeTooLong => ErrorKind::InvalidData,
            Fault::RepeatExceedsTree => ErrorKind::InvalidData,
            Fault::CodeTooLong => ErrorKind::InvalidData,
            Fault::OversubscribedTree => ErrorKind::InvalidData,
            Fault::EmptyTree => ErrorKind::InvalidData,
            Fault::InvalidCode => ErrorKind::InvalidData,
            Fault::DeclaredOutputLimit => ErrorKind::OutputLimitExceeded,
            Fault::InputLimit => ErrorKind::InputLimitExceeded,
            Fault::OutputLimit => ErrorKind::OutputLimitExceeded,
            Fault::WorkspaceLimit => ErrorKind::WorkspaceLimitExceeded,
            Fault::WorkspaceOverflow => ErrorKind::WorkspaceLimitExceeded,
            Fault::LengthMismatch { .. } => ErrorKind::InvalidData,
        }
    }

    /// The description of the fault.
    pub open spec fn text(self) -> Seq<char> {
        match self {
            Fault::TruncatedStream => "truncated DEFLATE bitstream"@,
            Fault::TruncatedCode => "truncated Huffman code"@,
            Fault::TruncatedZlib => "truncated zlib stream"@,
            Fault::ReservedBlockType => "reserved DEFLATE block type"@,
            Fault::UnsupportedMethod => "unsupported zlib compression method or window"@,
            Fault::HeaderChecksum => "invalid zlib header checksum"@,
            Fault::PresetDictionary => "preset zlib dictionaries are unsupported"@,
            Fault::ChecksumMismatch => "zlib Adler-32 mismatch"@,
            Fault::StoredComplement => "invalid stored-block length complement"@,
            Fault::OutputExceedsLength => "DEFLATE output exceeds declared length"@,
            Fault::EmptyDistanceTree => "DEFLATE length uses an empty distance tree"@,
            Fault::ReservedDistance => "reserved DEFLATE distance symbol"@,
            Fault::MatchPrecedesWindow => "DEFLATE match precedes output window"@,
            Fault::ReservedLiteral => "reserved DEFLATE literal/length symbol"@,
            Fault::RepeatWithoutPredecessor => "code-length repeat has no predecessor"@,
            Fault::InvalidCodeLengthSymbol => "invalid code-length symbol"@,
            Fault::MissingEndOfBlock => "dynamic tree omits end-of-block symbol"@,
            Fault::EmptyDistanceTreeTooLong => "empty DEFLATE distance tree declares more than one code"@,
            Fault::RepeatExceedsTree => "code-length repeat exceeds dynamic tree"@,
            Fault::CodeTooLong => "Huffman code exceeds 15 bits"@,
            Fault::OversubscribedTree => "oversubscribed Huffman tree"@,
            Fault::EmptyTree => "empty Huffman tree"@,
            Fault::InvalidCode => "invalid Huffman code"@,
            Fault::DeclaredOutputLimit => "DEFLATE declared output exceeds configured limit"@,
            Fault::InputLimit => "DEFLATE input exceeds configured limit"@,
            Fault::OutputLimit => "DEFLATE output exceeds configured limit"@,
            Fault::WorkspaceLimit => "DEFLATE workspace exceeds configured limit"@,
            Fault::WorkspaceOverflow => "DEFLATE workspace estimate overflow"@,
            Fault::LengthMismatch { expected, actual } => "DEFLATE length mismatch: expected "@ + decimal(expected as nat) + ", got "@ + decimal(actual as nat),
        }
    }

    /// The error that reports the fault.
    pub open spec fn report(self) -> Report {
        Report { kind: self.kind(), text: self.text() }
    }

    /// The error that reports the fault.
    pub fn error(self) -> (error: Error)
        ensures
            error@ == self.report(),
    {
        match self {
            Fault::TruncatedStream => Error::literal(ErrorKind::TruncatedData, "truncated DEFLATE bitstream"),
            Fault::TruncatedCode => Error::literal(ErrorKind::TruncatedData, "truncated Huffman code"),
            Fault::TruncatedZlib => Error::literal(ErrorKind::TruncatedData, "truncated zlib stream"),
            Fault::ReservedBlockType => Error::literal(ErrorKind::InvalidData, "reserved DEFLATE block type"),
            Fault::UnsupportedMethod => Error::literal(ErrorKind::UnsupportedFeature, "unsupported zlib compression method or window"),
            Fault::HeaderChecksum => Error::literal(ErrorKind::InvalidData, "invalid zlib header checksum"),
            Fault::PresetDictionary => Error::literal(ErrorKind::UnsupportedFeature, "preset zlib dictionaries are unsupported"),
            Fault::ChecksumMismatch => Error::literal(ErrorKind::InvalidData, "zlib Adler-32 mismatch"),
            Fault::StoredComplement => Error::literal(ErrorKind::InvalidData, "invalid stored-block length complement"),
            Fault::OutputExceedsLength => Error::literal(ErrorKind::InvalidData, "DEFLATE output exceeds declared length"),
            Fault::EmptyDistanceTree => Error::literal(ErrorKind::InvalidData, "DEFLATE length uses an empty distance tree"),
            Fault::ReservedDistance => Error::literal(ErrorKind::InvalidData, "reserved DEFLATE distance symbol"),
            Fault::MatchPrecedesWindow => Error::literal(ErrorKind::InvalidData, "DEFLATE match precedes output window"),
            Fault::ReservedLiteral => Error::literal(ErrorKind::InvalidData, "reserved DEFLATE literal/length symbol"),
            Fault::RepeatWithoutPredecessor => Error::literal(ErrorKind::InvalidData, "code-length repeat has no predecessor"),
            Fault::InvalidCodeLengthSymbol => Error::literal(ErrorKind::InvalidData, "invalid code-length symbol"),
            Fault::MissingEndOfBlock => Error::literal(ErrorKind::InvalidData, "dynamic tree omits end-of-block symbol"),
            Fault::EmptyDistanceTreeTooLong => Error::literal(ErrorKind::InvalidData, "empty DEFLATE distance tree declares more than one code"),
            Fault::RepeatExceedsTree => Error::literal(ErrorKind::InvalidData, "code-length repeat exceeds dynamic tree"),
            Fault::CodeTooLong => Error::literal(ErrorKind::InvalidData, "Huffman code exceeds 15 bits"),
            Fault::OversubscribedTree => Error::literal(ErrorKind::InvalidData, "oversubscribed Huffman tree"),
            Fault::EmptyTree => Error::literal(ErrorKind::InvalidData, "empty Huffman tree"),
            Fault::InvalidCode => Error::literal(ErrorKind::InvalidData, "invalid Huffman code"),
            Fault::DeclaredOutputLimit => Error::literal(ErrorKind::OutputLimitExceeded, "DEFLATE declared output exceeds configured limit"),
            Fault::InputLimit => Error::literal(ErrorKind::InputLimitExceeded, "DEFLATE input exceeds configured limit"),
            Fault::OutputLimit => Error::literal(ErrorKind::OutputLimitExceeded, "DEFLATE output exceeds configured limit"),
            Fault::WorkspaceLimit => Error::literal(ErrorKind::WorkspaceLimitExceeded, "DEFLATE workspace exceeds configured limit"),
            Fault::WorkspaceOverflow => Error::literal(ErrorKind::WorkspaceLimitExceeded, "DEFLATE workspace estimate overflow"),
            Fault::LengthMismatch { expected, actual } => {
                let mut text = "DEFLATE length mismatch: expected ".to_owned();
                append_decimal(&mut text, expected);
                text.append(", got ");
                append_decimal(&mut text, actual);
                Error::new(ErrorKind::InvalidData, text)
            },
        }
    }
}

} // verus!
