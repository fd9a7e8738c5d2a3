//! Everything that can be wrong with a DZ stream or request.

use vstd::prelude::*;
use vstd::string::*;

use crate::codecs::dz::error::DzError;
use crate::codecs::error::{ErrorKind, Report};
use crate::codecs::text::{append_decimal, append_wide, decimal};

verus! {

/// A reason to refuse a stream or a request.
#[derive(Debug, Clone, Copy, PartialEq, Eq, Structural)]
pub enum DzFault {
    ModelSize { symbols: usize },
    EmptyTable,
    SymbolOutsideModel { symbol: usize, symbols: usize },
    RangeCount { count: usize, total: usize },
    Collapsed,
    LiteralBehindEnd,
    EarlyEnd { actual: usize, expected: usize },
    NoCommonBuffer,
    ReferenceExceeds { length: usize, expected: usize },
    DeltaOverflow,
    OffsetOverflow,
    NegativeOffset { magnitude: u64 },
    EndpointOverflow,
    ReferenceLengthOverflow,
    NoContinuation,
    GroupedTooLarge,
    SegmentOutsideChunk,
    CommonToken { symbol: usize },
    UnsetDistance,
    Distance { distance: usize, position: usize },
    MatchExceeds { expected: usize },
    EmptyCommonBuffer,
    ChunkSmallerThanPrefix { size: usize, prefix: usize },
    CommonSizeOverflow,
    OffsetBeyondBuffer { offset: usize, size: usize },
    StaticTableSize { size: usize, expected: usize },
    StaticTablesRequired,
    ReferenceModelsRequired,
    ZeroMinMatch,
    ShortReference { length: usize, minimum: usize },
    TargetOverflow,
    CostDeltaOverflow,
    ContinuedLength,
    AnalysisToken { symbol: usize },
    AnalysisGroup,
    DynamicCost,
    FixedCost,
    CommonAnalysisToken { symbol: usize },
    CommonAnalysisGroup,
    TooManyChunks,
    InputSizeOverflow,
    MemoryEstimateOverflow,
    MemoryLimit { limit: usize, required: usize },
    SegmentValidation { segment: usize, raw: usize, encoded: usize },
    ReferenceBounds,
    ReferenceValidation { file: usize, position: usize },
    StaticTableMismatch,
    InvalidSettings,
    ModelOverflow,
    WorkspaceOverflow,
    InputLimit,
    OutputLimit,
    DeclaredOutputLimit,
    WorkspaceLimit,
}

impl DzFault {
    /// The category of the fault.
    pub open spec fn kind(self) -> ErrorKind {
        match self {
            DzFault::InvalidSettings => ErrorKind::InvalidOptions,
            DzFault::ModelOverflow => ErrorKind::WorkspaceLimitExceeded,
            DzFault::WorkspaceOverflow => ErrorKind::WorkspaceLimitExceeded,
            DzFault::InputLimit => ErrorKind::InputLimitExceeded,
            DzFault::OutputLimit => ErrorKind::OutputLimitExceeded,
            DzFault::DeclaredOutputLimit => ErrorKind::OutputLimitExceeded,
            DzFault::WorkspaceLimit => ErrorKind::WorkspaceLimitExceeded,
            _ => ErrorKind::InvalidData,
        }
    }

    /// The description of the fault.
    pub open spec fn text(self) -> Seq<char> {
        match self {
            DzFault::ModelSize { symbols } => "invalid adaptive model size "@ + decimal(symbols as nat),
            DzFault::EmptyTable => "empty static frequency table"@,
            DzFault::SymbolOutsideModel { symbol, symbols } => "symbol "@ + decimal(symbol as nat) + " outside model of "@ + decimal(symbols as nat) + " symbols"@,
            DzFault::RangeCount { count, total } => "range count "@ + decimal(count as nat) + " exceeds model total "@ + decimal(total as nat),
            DzFault::Collapsed => "range coder interval collapsed"@,
            DzFault::LiteralBehindEnd => "literal follows the expected end of a DZ chunk"@,
            DzFault::EarlyEnd { actual, expected } => "DZ stream ended after "@ + decimal(actual as nat) + " of "@ + decimal(expected as nat) + " bytes"@,
            DzFault::NoCommonBuffer => "common-buffer reference without a common buffer"@,
            DzFault::ReferenceExceeds { length, expected } => "COMBUF reference of "@ + decimal(length as nat) + " bytes exceeds expected output size "@ + decimal(expected as nat),
            DzFault::DeltaOverflow => "COMBUF offset delta overflow"@,
            DzFault::OffsetOverflow => "COMBUF offset overflow"@,
            DzFault::NegativeOffset { magnitude } => "negative COMBUF offset -"@ + decimal(magnitude as nat),
            DzFault::EndpointOverflow => "COMBUF reference endpoint overflow"@,
            DzFault::ReferenceLengthOverflow => "COMBUF reference length overflow"@,
            DzFault::NoContinuation => "continued grouped integer has no continuation model"@,
            DzFault::GroupedTooLarge => "grouped integer is too large"@,
            DzFault::SegmentOutsideChunk => "COMBUF segment ends outside its chunk"@,
            DzFault::CommonToken { symbol } => "invalid COMBUF token "@ + decimal(symbol as nat),
            DzFault::UnsetDistance => "DZ stream used an uninitialized recent distance"@,
            DzFault::Distance { distance, position } => "invalid LZ distance "@ + decimal(distance as nat) + " at output position "@ + decimal(position as nat),
            DzFault::MatchExceeds { expected } => "LZ match exceeds expected output size "@ + decimal(expected as nat),
            DzFault::EmptyCommonBuffer => "a common buffer must contain at least one chunk"@,
            DzFault::ChunkSmallerThanPrefix { size, prefix } => "COMBUF chunk is "@ + decimal(size as nat) + " bytes, smaller than its "@ + decimal(prefix as nat) + " byte static prefix"@,
            DzFault::CommonSizeOverflow => "COMBUF size overflow"@,
            DzFault::OffsetBeyondBuffer { offset, size } => "COMBUF offset "@ + decimal(offset as nat) + " exceeds "@ + decimal(size as nat) + " bytes"@,
            DzFault::StaticTableSize { size, expected } => "COMBUF static table is "@ + decimal(size as nat) + " bytes, expected "@ + decimal(expected as nat),
            DzFault::StaticTablesRequired => "dzip 1.1.3 requires COMBUF static tables when common references are enabled"@,
            DzFault::ReferenceModelsRequired => "COMBUF references require length and offset continuation models"@,
            DzFault::ZeroMinMatch => "BigMinMatch must not be zero when common references are enabled"@,
            DzFault::ShortReference { length, minimum } => "COMBUF reference length "@ + decimal(length as nat) + " is shorter than BigMinMatch "@ + decimal(minimum as nat),
            DzFault::TargetOverflow => "COMBUF target overflow"@,
            DzFault::CostDeltaOverflow => "COMBUF delta overflow"@,
            DzFault::ContinuedLength => "continued COMBUF length has no model"@,
            DzFault::AnalysisToken { symbol } => "invalid DZ analysis token "@ + decimal(symbol as nat),
            DzFault::AnalysisGroup => "invalid DZ analysis offset group"@,
            DzFault::DynamicCost => "invalid dynamic DZ offset cost"@,
            DzFault::FixedCost => "invalid fixed DZ offset cost"@,
            DzFault::CommonAnalysisToken { symbol } => "invalid COMBUF analysis token "@ + decimal(symbol as nat),
            DzFault::CommonAnalysisGroup => "invalid COMBUF analysis group"@,
            DzFault::TooManyChunks => "dzip.exe accepts at most 32768 DZ chunks"@,
            DzFault::InputSizeOverflow => "DZ input size overflows memory estimate"@,
            DzFault::MemoryEstimateOverflow => "DZ memory estimate overflow"@,
            DzFault::MemoryLimit { limit, required } => "max_mem_usage "@ + decimal(limit as nat) + " is below dzip.exe's minimum DZ estimate "@ + decimal(required as nat),
            DzFault::SegmentValidation { segment, raw, encoded } => "internal COMBUF validation failed for segment "@ + decimal(segment as nat) + " (raw "@ + decimal(raw as nat) + ", encoded "@ + decimal(encoded as nat) + ")"@,
            DzFault::ReferenceBounds => "internal COMBUF reference overflow"@,
            DzFault::ReferenceValidation { file, position } => "internal COMBUF reference validation failed for file "@ + decimal(file as nat) + " at "@ + decimal(position as nat),
            DzFault::StaticTableMismatch => "internal COMBUF static table size mismatch"@,
            DzFault::InvalidSettings => "invalid DZ range settings"@,
            DzFault::ModelOverflow => "DZ model size overflow"@,
            DzFault::WorkspaceOverflow => "DZ encoder workspace estimate overflow"@,
            DzFault::InputLimit => "DZ input exceeds configured limit"@,
            DzFault::OutputLimit => "DZ output exceeds configured limit"@,
            DzFault::DeclaredOutputLimit => "DZ declared output exceeds configured limit"@,
            DzFault::WorkspaceLimit => "DZ workspace exceeds configured limit"@,
        }
    }

    /// The error that reports the fault.
    pub open spec fn report(self) -> Report {
        Report { kind: self.kind(), text: self.text() }
    }

    /// The error that reports the fault.
    pub fn error(self) -> (error: DzError)
        ensures
            error@ == self.report(),
    {
        let text = self.message();
        let kind = match self {
            DzFault::InvalidSettings => ErrorKind::InvalidOptions,
            DzFault::ModelOverflow => ErrorKind::WorkspaceLimitExceeded,
            DzFault::WorkspaceOverflow => ErrorKind::WorkspaceLimitExceeded,
            DzFault::InputLimit => ErrorKind::InputLimitExceeded,
            DzFault::OutputLimit => ErrorKind::OutputLimitExceeded,
            DzFault::DeclaredOutputLimit => ErrorKind::OutputLimitExceeded,
            DzFault::WorkspaceLimit => ErrorKind::WorkspaceLimitExceeded,
            _ => ErrorKind::InvalidData,
        };
        DzError::with_kind(kind, text)
    }

    /// The description of the fault.
    fn message(self) -> (text: String)
        ensures
            text@ == self.text(),
    {
        match self {
            DzFault::ModelSize { symbols } => {
                let mut text = "invalid adaptive model size ".to_owned();
                append_decimal(&mut text, symbols);
                text
            },
            DzFault::EmptyTable => "empty static frequency table".to_owned(),
            DzFault::SymbolOutsideModel { symbol, symbols } => {
                let mut text = "symbol ".to_owned();
                append_decimal(&mut text, symbol);
                text.append(" outside model of ");
                append_decimal(&mut text, symbols);
                text.append(" symbols");
                text
            },
            DzFault::RangeCount { count, total } => {
                let mut text = "range count ".to_owned();
                append_decimal(&mut text, count);
                text.append(" exceeds model total ");
                append_decimal(&mut text, total);
                text
            },
            DzFault::Collapsed => "range coder interval collapsed".to_owned(),
            DzFault::LiteralBehindEnd => "literal follows the expected end of a DZ chunk".to_owned(),
            DzFault::EarlyEnd { actual, expected } => {
                let mut text = "DZ stream ended after ".to_owned();
                append_decimal(&mut text, actual);
                text.append(" of ");
                append_decimal(&mut text, expected);
                text.append(" bytes");
                text
            },
            DzFault::NoCommonBuffer => "common-buffer reference without a common buffer".to_owned(),
            DzFault::ReferenceExceeds { length, expected } => {
                let mut text = "COMBUF reference of ".to_owned();
                append_decimal(&mut text, length);
                text.append(" bytes exceeds expected output size ");
                append_decimal(&mut text, expected);
                text
            },
            DzFault::DeltaOverflow => "COMBUF offset delta overflow".to_owned(),
            DzFault::OffsetOverflow => "COMBUF offset overflow".to_owned(),
            DzFault::NegativeOffset { magnitude } => {
                let mut text = "negative COMBUF offset -".to_owned();
                append_wide(&mut text, magnitude);
                text
            },
            DzFault::EndpointOverflow => "COMBUF reference endpoint overflow".to_owned(),
            DzFault::ReferenceLengthOverflow => "COMBUF reference length overflow".to_owned(),
            DzFault::NoContinuation => "continued grouped integer has no continuation model".to_owned(),
            DzFault::GroupedTooLarge => "grouped integer is too large".to_owned(),
            DzFault::SegmentOutsideChunk => "COMBUF segment ends outside its chunk".to_owned(),
            DzFault::CommonToken { symbol } => {
                let mut text = "invalid COMBUF token ".to_owned();
                append_decimal(&mut text, symbol);
                text
            },
            DzFault::UnsetDistance => "DZ stream used an uninitialized recent distance".to_owned(),
            DzFault::Distance { distance, position } => {
                let mut text = "invalid LZ distance ".to_owned();
                append_decimal(&mut text, distance);
                text.append(" at output position ");
                append_decimal(&mut text, position);
                text
            },
            DzFault::MatchExceeds { expected } => {
                let mut text = "LZ match exceeds expected output size ".to_owned();
                append_decimal(&mut text, expected);
                text
            },
            DzFault::EmptyCommonBuffer => "a common buffer must contain at least one chunk".to_owned(),
            DzFault::ChunkSmallerThanPrefix { size, prefix } => {
                let mut text = "COMBUF chunk is ".to_owned();
                append_decimal(&mut text, size);
                text.append(" bytes, smaller than its ");
                append_decimal(&mut text, prefix);
                text.append(" byte static prefix");
                text
            },
            DzFault::CommonSizeOverflow => "COMBUF size overflow".to_owned(),
            DzFault::OffsetBeyondBuffer { offset, size } => {
                let mut text = "COMBUF offset ".to_owned();
                append_decimal(&mut text, offset);
                text.append(" exceeds ");
                append_decimal(&mut text, size);
                text.append(" bytes");
                text
            },
            DzFault::StaticTableSize { size, expected } => {
                let mut text = "COMBUF static table is ".to_owned();
                append_decimal(&mut text, size);
                text.append(" bytes, expected ");
                append_decimal(&mut text, expected);
                text
            },
            DzFault::StaticTablesRequired => "dzip 1.1.3 requires COMBUF static tables when common references are enabled".to_owned(),
            DzFault::ReferenceModelsRequired => "COMBUF references require length and offset continuation models".to_owned(),
            DzFault::ZeroMinMatch => "BigMinMatch must not be zero when common references are enabled".to_owned(),
            DzFault::ShortReference { length, minimum } => {
                let mut text = "COMBUF reference length ".to_owned();
                append_decimal(&mut text, length);
                text.append(" is shorter than BigMinMatch ");
                append_decimal(&mut text, minimum);
                text
            },
            DzFault::TargetOverflow => "COMBUF target overflow".to_owned(),
            DzFault::CostDeltaOverflow => "COMBUF delta overflow".to_owned(),
            DzFault::ContinuedLength => "continued COMBUF length has no model".to_owned(),
            DzFault::AnalysisToken { symbol } => {
                let mut text = "invalid DZ analysis token ".to_owned();
                append_decimal(&mut text, symbol);
                text
            },
            DzFault::AnalysisGroup => "invalid DZ analysis offset group".to_owned(),
            DzFault::DynamicCost => "invalid dynamic DZ offset cost".to_owned(),
            DzFault::FixedCost => "invalid fixed DZ offset cost".to_owned(),
            DzFault::CommonAnalysisToken { symbol } => {
                let mut text = "invalid COMBUF analysis token ".to_owned();
                append_decimal(&mut text, symbol);
                text
            },
            DzFault::CommonAnalysisGroup => "invalid COMBUF analysis group".to_owned(),
            DzFault::TooManyChunks => "dzip.exe accepts at most 32768 DZ chunks".to_owned(),
            DzFault::InputSizeOverflow => "DZ input size overflows memory estimate".to_owned(),
            DzFault::MemoryEstimateOverflow => "DZ memory estimate overflow".to_owned(),
            DzFault::MemoryLimit { limit, required } => {
                let mut text = "max_mem_usage ".to_owned();
                append_decimal(&mut text, limit);
                text.append(" is below dzip.exe's minimum DZ estimate ");
                append_decimal(&mut text, required);
                text
            },
            DzFault::SegmentValidation { segment, raw, encoded } => {
                let mut text = "internal COMBUF validation failed for segment ".to_owned();
                append_decimal(&mut text, segment);
                text.append(" (raw ");
                append_decimal(&mut text, raw);
                text.append(", encoded ");
                append_decimal(&mut text, encoded);
                text.append(")");
                text
            },
            DzFault::ReferenceBounds => "internal COMBUF reference overflow".to_owned(),
            DzFault::ReferenceValidation { file, position } => {
                let mut text = "internal COMBUF reference validation failed for file ".to_owned();
                append_decimal(&mut text, file);
                text.append(" at ");
                append_decimal(&mut text, position);
                text
            },
            DzFault::StaticTableMismatch => "internal COMBUF static table size mismatch".to_owned(),
            DzFault::InvalidSettings => "invalid DZ range settings".to_owned(),
            DzFault::ModelOverflow => "DZ model size overflow".to_owned(),
            DzFault::WorkspaceOverflow => "DZ encoder workspace estimate overflow".to_owned(),
            DzFault::InputLimit => "DZ input exceeds configured limit".to_owned(),
            DzFault::OutputLimit => "DZ output exceeds configured limit".to_owned(),
            DzFault::DeclaredOutputLimit => "DZ declared output exceeds configured limit".to_owned(),
            DzFault::WorkspaceLimit => "DZ workspace exceeds configured limit".to_owned(),
        }
    }
}

} // verus!
