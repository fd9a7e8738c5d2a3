//! Everything that can be wrong with a BZip2 request.

use vstd::prelude::*;
use vstd::string::*;

use crate::codecs::error::{Error, ErrorKind, Report};
use crate::codecs::text::{append_decimal, decimal};

verus! {

/// A reason to refuse a stream or a request.
#[derive(Debug, Clone, Copy, PartialEq, Eq, Structural)]
pub enum Fault {
    TruncatedStream,
    TruncatedRun,
    RunExceedsLength,
    InvalidTransform,
    BlockSize,
    BlockSizeOption,
    StreamHeader,
    CombinedChecksum,
    BlockMarker,
    OriginalPointer,
    BlockChecksum,
    OutputExceedsLength,
    SelectorCount,
    EmptySymbolMap,
    GroupCount,
    NoSelectors,
    SelectorValue,
    CodeLength,
    SelectorsExhausted,
    RunLengthOverflow,
    RunWeightOverflow,
    BlockTooLarge,
    InvalidSymbol,
    HuffmanLength,
    OversubscribedTree,
    InvalidCode,
    DeclaredOutputLimit,
    InputLimit,
    OutputLimit,
    WorkspaceLimit,
    WorkspaceOverflow,
    LengthMismatch { expected: usize, actual: usize },
}

impl Fault {
    /// The category of the fault.
    pub open spec fn kind(self) -> ErrorKind {
        match self {
            Fault::TruncatedStream => ErrorKind::TruncatedData,
            Fault::TruncatedRun => ErrorKind::TruncatedData,
            Fault::RunExceedsLength => ErrorKind::InvalidData,
            Fault::InvalidTransform => ErrorKind::InvalidData,
            Fault::BlockSize => ErrorKind::InvalidData,
            Fault::BlockSizeOption => ErrorKind::InvalidOptions,
            Fault::StreamHeader => ErrorKind::InvalidData,
            Fault::CombinedChecksum => ErrorKind::InvalidData,
            Fault::BlockMarker => ErrorKind::InvalidData,
            Fault::OriginalPointer => ErrorKind::InvalidData,
            Fault::BlockChecksum => ErrorKind::InvalidData,
            Fault::OutputExceedsLength => ErrorKind::InvalidData,
            Fault::SelectorCount => ErrorKind::InvalidData,
            Fault::EmptySymbolMap => ErrorKind::InvalidData,
            Fault::GroupCount => ErrorKind::InvalidData,
            Fault::NoSelectors => ErrorKind::InvalidData,
            Fault::SelectorValue => ErrorKind::InvalidData,
            Fault::CodeLength => ErrorKind::InvalidData,
            Fault::SelectorsExhausted => ErrorKind::TruncatedData,
            Fault::RunLengthOverflow => ErrorKind::InvalidData,
            Fault::RunWeightOverflow => ErrorKind::InvalidData,
            Fault::BlockTooLarge => ErrorKind::InvalidData,
            Fault::InvalidSymbol => ErrorKind::InvalidData,
            Fault::HuffmanLength => ErrorKind::InvalidData,
            Fault::OversubscribedTree => ErrorKind::InvalidData,
            Fault::InvalidCode => ErrorKind::InvalidData,
            Fault::DeclaredOutputLimit => ErrorKind::OutputLimitExceeded,
            Fault::InputLimit => ErrorKind::InputLimitExceeded,
            Fault::OutputLimit => ErrorKind::OutputLimitExceeded,
            Fault::WorkspaceLimit => ErrorKind::WorkspaceLimitExceeded,
            Fault::WorkspaceOverflow => ErrorKind::WorkspaceLimitExceeded,
            Fault::LengthMismatch { .. } => ErrorKind::InvalidData,
        }
    }

    /// The description of the fault.
    pub open spec fn text(self) -> Seq<char> {
        match self {
            Fault::TruncatedStream => "truncated BZip2 bitstream"@,
            Fault::TruncatedRun => "truncated BZip2 RLE1 run"@,
            Fault::RunExceedsLength => "BZip2 RLE1 output exceeds declared length"@,
            Fault::InvalidTransform => "invalid BZip2 BWT input"@,
            Fault::BlockSize => "BZip2 block size must be in 1..=9"@,
            Fault::BlockSizeOption => "BZip2 block size must be in 1..=9"@,
            Fault::StreamHeader => "invalid BZip2 stream header"@,
            Fault::CombinedChecksum => "BZip2 combined CRC mismatch"@,
            Fault::BlockMarker => "invalid BZip2 block marker"@,
            Fault::OriginalPointer => "invalid BZip2 original pointer"@,
            Fault::BlockChecksum => "BZip2 block CRC mismatch"@,
            Fault::OutputExceedsLength => "BZip2 output exceeds declared length"@,
            Fault::SelectorCount => "BZip2 selector count exceeds format limit"@,
            Fault::EmptySymbolMap => "BZip2 block has an empty symbol map"@,
            Fault::GroupCount => "invalid BZip2 Huffman group count"@,
            Fault::NoSelectors => "BZip2 block has no selectors"@,
            Fault::SelectorValue => "invalid BZip2 selector MTF value"@,
            Fault::CodeLength => "invalid BZip2 Huffman code length"@,
            Fault::SelectorsExhausted => "BZip2 selector list ended before block"@,
            Fault::RunLengthOverflow => "BZip2 run length overflow"@,
            Fault::RunWeightOverflow => "BZip2 run weight overflow"@,
            Fault::BlockTooLarge => "BZip2 block exceeds declared block size"@,
            Fault::InvalidSymbol => "invalid BZip2 MTF symbol"@,
            Fault::HuffmanLength => "invalid BZip2 Huffman length"@,
            Fault::OversubscribedTree => "oversubscribed BZip2 Huffman tree"@,
            Fault::InvalidCode => "invalid BZip2 Huffman code"@,
            Fault::DeclaredOutputLimit => "BZip2 declared output exceeds configured limit"@,
            Fault::InputLimit => "BZip2 input exceeds configured limit"@,
            Fault::OutputLimit => "BZip2 output exceeds configured limit"@,
            Fault::WorkspaceLimit => "BZip2 workspace exceeds configured limit"@,
            Fault::WorkspaceOverflow => "BZip2 workspace estimate overflow"@,
            Fault::LengthMismatch { expected, actual } => "BZip2 length mismatch: expected "@ + decimal(expected as nat) + ", got "@ + decimal(actual as nat),
        }
    }

    /// The error that reports the fault.
    pub open spec fn report(self) -> Report {
        Report { kind: self.kind(), text: self.text() }
    }

    /// The error that reports the fault.
    pub fn error(self) -> (error: Error)
        ensures
            error@ == self.report(),
    {
        match self {
            Fault::TruncatedStream => Error::literal(ErrorKind::TruncatedData, "truncated BZip2 bitstream"),
            Fault::TruncatedRun => Error::literal(ErrorKind::TruncatedData, "truncated BZip2 RLE1 run"),
            Fault::RunExceedsLength => Error::literal(ErrorKind::InvalidData, "BZip2 RLE1 output exceeds declared length"),
            Fault::InvalidTransform => Error::literal(ErrorKind::InvalidData, "invalid BZip2 BWT input"),
            Fault::BlockSize => Error::literal(ErrorKind::InvalidData, "BZip2 block size must be in 1..=9"),
            Fault::BlockSizeOption => Error::literal(ErrorKind::InvalidOptions, "BZip2 block size must be in 1..=9"),
            Fault::StreamHeader => Error::literal(ErrorKind::InvalidData, "invalid BZip2 stream header"),
            Fault::CombinedChecksum => Error::literal(ErrorKind::InvalidData, "BZip2 combined CRC mismatch"),
            Fault::BlockMarker => Error::literal(ErrorKind::InvalidData, "invalid BZip2 block marker"),
            Fault::OriginalPointer => Error::literal(ErrorKind::InvalidData, "invalid BZip2 original pointer"),
            Fault::BlockChecksum => Error::literal(ErrorKind::InvalidData, "BZip2 block CRC mismatch"),
            Fault::OutputExceedsLength => Error::literal(ErrorKind::InvalidData, "BZip2 output exceeds declared length"),
            Fault::SelectorCount => Error::literal(ErrorKind::InvalidData, "BZip2 selector count exceeds format limit"),
            Fault::EmptySymbolMap => Error::literal(ErrorKind::InvalidData, "BZip2 block has an empty symbol map"),
            Fault::GroupCount => Error::literal(ErrorKind::InvalidData, "invalid BZip2 Huffman group count"),
            Fault::NoSelectors => Error::literal(ErrorKind::InvalidData, "BZip2 block has no selectors"),
            Fault::SelectorValue => Error::literal(ErrorKind::InvalidData, "invalid BZip2 selector MTF value"),
            Fault::CodeLength => Error::literal(ErrorKind::InvalidData, "invalid BZip2 Huffman code length"),
            Fault::SelectorsExhausted => Error::literal(ErrorKind::TruncatedData, "BZip2 selector list ended before block"),
            Fault::RunLengthOverflow => Error::literal(ErrorKind::InvalidData, "BZip2 run length overflow"),
            Fault::RunWeightOverflow => Error::literal(ErrorKind::InvalidData, "BZip2 run weight overflow"),
            Fault::BlockTooLarge => Error::literal(ErrorKind::InvalidData, "BZip2 block exceeds declared block size"),
            Fault::InvalidSymbol => Error::literal(ErrorKind::InvalidData, "invalid BZip2 MTF symbol"),
            Fault::HuffmanLength => Error::literal(ErrorKind::InvalidData, "invalid BZip2 Huffman length"),
            Fault::OversubscribedTree => Error::literal(ErrorKind::InvalidData, "oversubscribed BZip2 Huffman tree"),
            Fault::InvalidCode => Error::literal(ErrorKind::InvalidData, "invalid BZip2 Huffman code"),
            Fault::DeclaredOutputLimit => Error::literal(ErrorKind::OutputLimitExceeded, "BZip2 declared output exceeds configured limit"),
            Fault::InputLimit => Error::literal(ErrorKind::InputLimitExceeded, "BZip2 input exceeds configured limit"),
            Fault::OutputLimit => Error::literal(ErrorKind::OutputLimitExceeded, "BZip2 output exceeds configured limit"),
            Fault::WorkspaceLimit => Error::literal(ErrorKind::WorkspaceLimitExceeded, "BZip2 workspace exceeds configured limit"),
            Fault::WorkspaceOverflow => Error::literal(ErrorKind::WorkspaceLimitExceeded, "BZip2 workspace estimate overflow"),
            Fault::LengthMismatch { expected, actual } => {
                let mut text = "BZip2 length mismatch: expected ".to_owned();
                append_decimal(&mut text, expected);
                text.append(", got ");
                append_decimal(&mut text, actual);
                Error::new(ErrorKind::InvalidData, text)
            },
        }
    }
}

} // verus!
