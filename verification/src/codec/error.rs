//! Errors of the compression engines.

use vstd::prelude::*;
use vstd::string::*;

use crate::codec::flags::Codec;
use crate::codecs::error::{ErrorKind, Report};
use crate::codecs::text::{append_decimal, decimal};

verus! {

/// What a [`CodecError`] says.
pub enum CodecTrouble {
    InvalidData { codec: Codec, message: Seq<char> },
    LengthMismatch { codec: Codec, expected: usize, actual: usize },
    SizeLimit { codec: Codec, message: Seq<char> },
    MissingContext { codec: Codec },
    Unavailable { codec: Codec },
}

/// An error of a compression engine.
#[derive(Debug)]
#[non_exhaustive]
pub enum CodecError {
    InvalidData { codec: Codec, message: String },
    LengthMismatch { codec: Codec, expected: usize, actual: usize },
    SizeLimit { codec: Codec, message: String },
    MissingContext { codec: Codec },
    Unavailable { codec: Codec },
}

impl View for CodecError {
    type V = CodecTrouble;

    open spec fn view(&self) -> CodecTrouble {
        match self {
            CodecError::InvalidData { codec, message } => CodecTrouble::InvalidData {
                codec: *codec,
                message: message@,
            },
            CodecError::LengthMismatch { codec, expected, actual } => CodecTrouble::LengthMismatch {
                codec: *codec,
                expected: *expected,
                actual: *actual,
            },
            CodecError::SizeLimit { codec, message } => CodecTrouble::SizeLimit {
                codec: *codec,
                message: message@,
            },
            CodecError::MissingContext { codec } => CodecTrouble::MissingContext { codec: *codec },
            CodecError::Unavailable { codec } => CodecTrouble::Unavailable { codec: *codec },
        }
    }
}

impl CodecTrouble {
    /// The description of the error.
    pub open spec fn text(self) -> Seq<char> {
        match self {
            CodecTrouble::InvalidData { codec, message } => "Invalid "@ + codec.label()
                + " stream: "@ + message,
            CodecTrouble::LengthMismatch { codec, expected, actual } => codec.label()
                + " decompressed length mismatch: expected "@ + decimal(expected as nat)
                + ", got "@ + decimal(actual as nat),
            CodecTrouble::SizeLimit { codec, message } => codec.label() + " stream size limit: "@
                + message,
            CodecTrouble::MissingContext { codec } => codec.label()
                + " decoding requires archive context"@,
            CodecTrouble::Unavailable { codec } => codec.label()
                + " support is not enabled in this build"@,
        }
    }
}

/// How the report of an engine is passed on: limits as such, all else as bad data.
pub open spec fn engine_trouble(codec: Codec, report: Report) -> CodecTrouble {
    match report.kind {
        ErrorKind::InputLimitExceeded | ErrorKind::OutputLimitExceeded
        | ErrorKind::WorkspaceLimitExceeded => CodecTrouble::SizeLimit {
            codec,
            message: report.text,
        },
        _ => CodecTrouble::InvalidData { codec, message: report.text },
    }
}

impl CodecError {
    /// Bad data, with the given description.
    pub fn invalid(codec: Codec, message: &str) -> (error: CodecError)
        ensures
            error@ == (CodecTrouble::InvalidData { codec, message: message@ }),
    {
        CodecError::InvalidData { codec, message: message.to_owned() }
    }

    /// What an engine reported.
    pub fn engine(codec: Codec, kind: ErrorKind, message: &str) -> (error: CodecError)
        ensures
            error@ == engine_trouble(codec, Report { kind, text: message@ }),
    {
        match kind {
            ErrorKind::InputLimitExceeded | ErrorKind::OutputLimitExceeded
            | ErrorKind::WorkspaceLimitExceeded => CodecError::SizeLimit {
                codec,
                message: message.to_owned(),
            },
            _ => CodecError::InvalidData { codec, message: message.to_owned() },
        }
    }

    /// The human-readable description of the error.
    pub fn message(&self) -> (text: String)
        ensures
            text@ == self@.text(),
    {
        match self {
            CodecError::InvalidData { codec, message } => {
                let mut text = "Invalid ".to_owned();
                text.append(codec.name());
                text.append(" stream: ");
                text.append(message.as_str());
                text
            },
            CodecError::LengthMismatch { codec, expected, actual } => {
                let mut text = codec.name().to_owned();
                text.append(" decompressed length mismatch: expected ");
                append_decimal(&mut text, *expected);
                text.append(", got ");
                append_decimal(&mut text, *actual);
                text
            },
            CodecError::SizeLimit { codec, message } => {
                let mut text = codec.name().to_owned();
                text.append(" stream size limit: ");
                text.append(message.as_str());
                text
            },
            CodecError::MissingContext { codec } => {
                let mut text = codec.name().to_owned();
                text.append(" decoding requires archive context");
                text
            },
            CodecError::Unavailable { codec } => {
                let mut text = codec.name().to_owned();
                text.append(" support is not enabled in this build");
                text
            },
        }
    }
}

} // verus!
