//! Verified compression codecs and archive logic for the DZ container format.

pub mod archive;
pub mod bounds;
pub mod builder;
pub mod codec;
pub mod codecs;
pub mod compat;
pub mod error;
pub mod extract;
pub mod format;
pub mod laws;
pub mod math;
pub mod metadata;
pub mod options;
pub mod path;
pub mod reading;
