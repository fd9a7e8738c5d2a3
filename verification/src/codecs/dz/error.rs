//! The error type of the DZ codec.

use vstd::prelude::*;

use crate::codecs::error::{ErrorKind, Report};

verus! {

/// A configuration or stream error of the DZ codec.
#[derive(Debug, Clone)]
pub struct DzError {
    kind: ErrorKind,
    message: String,
}

impl View for DzError {
    type V = Report;

    closed spec fn view(&self) -> Report {
        Report { kind: self.kind, text: self.message@ }
    }
}

impl DzError {
    /// An error about malformed data.
    pub fn new(message: String) -> (error: DzError)
        ensures
            error@ == (Report { kind: ErrorKind::InvalidData, text: message@ }),
    {
        DzError { kind: ErrorKind::InvalidData, message }
    }

    /// An error of the given category.
    pub fn with_kind(kind: ErrorKind, message: String) -> (error: DzError)
        ensures
            error@ == (Report { kind, text: message@ }),
    {
        DzError { kind, message }
    }

    /// The category of the error.
    pub fn kind(&self) -> (kind: ErrorKind)
        ensures
            kind == self@.kind,
    {
        self.kind
    }

    /// The human-readable description of the error.
    pub fn message(&self) -> (message: &str)
        ensures
            message@ == self@.text,
    {
        self.message.as_str()
    }
}

} // verus!
