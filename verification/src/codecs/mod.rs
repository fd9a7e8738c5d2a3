//! The compression codecs, each with its own stream format.

pub mod bzip;
pub mod dz;
pub mod error;
pub mod lzma;
pub mod matchfinder;
pub mod sdk;
pub mod text;
pub mod zlib;
