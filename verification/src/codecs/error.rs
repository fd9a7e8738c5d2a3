//! The error type shared by the stream codecs.

use vstd::prelude::*;

verus! {

/// Stable, machine-readable category shared by the codec APIs.
#[derive(Debug, Clone, Copy, PartialEq, Eq, Structural)]
#[non_exhaustive]
pub enum ErrorKind {
    InvalidOptions,
    InvalidData,
    TruncatedData,
    InputLimitExceeded,
    OutputLimitExceeded,
    WorkspaceLimitExceeded,
    UnsupportedFeature,
}

/// What an [`Error`] says: its category and its text.
pub struct Report {
    pub kind: ErrorKind,
    pub text: Seq<char>,
}

/// A configuration or stream error of a codec.
#[derive(Debug, Clone)]
pub struct Error {
    kind: ErrorKind,
    message: String,
}

impl View for Error {
    type V = Report;

    closed spec fn view(&self) -> Report {
        Report { kind: self.kind, text: self.message@ }
    }
}

impl Error {
    /// An error of the given category with the given text.
    pub fn new(kind: ErrorKind, message: String) -> (error: Error)
        ensures
            error@ == (Report { kind, text: message@ }),
    {
        Error { kind, message }
    }

    /// An error whose text is a literal.
    pub fn literal(kind: ErrorKind, message: &str) -> (error: Error)
        ensures
            error@ == (Report { kind, text: message@ }),
    {
        Error { kind, message: message.to_owned() }
    }

    /// The category of the error.
    pub fn kind(&self) -> (kind: ErrorKind)
        ensures
            kind == self@.kind,
    {
        self.kind
    }

    /// The human-readable description of the error.
    pub fn message(&self) -> (message: &str)
        ensures
            message@ == self@.text,
    {
        self.message.as_str()
    }

    /// The same text as [`Error::message`].
    pub fn as_str(&self) -> (message: &str)
        ensures
            message@ == self@.text,
    {
        self.message()
    }
}

} // verus!
