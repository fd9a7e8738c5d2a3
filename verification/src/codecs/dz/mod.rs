//! The native DZ range and LZ codec with its archive-wide common buffer.

pub mod analysis;
pub mod archive;
pub mod chunk;
pub mod codec;
pub mod coder;
pub mod common;
pub mod cutting;
pub mod decoding;
pub mod encoding;
pub mod error;
pub mod fault;
pub mod fenwick;
pub mod frequencies;
pub mod laws;
pub mod lists;
pub mod matchfinder;
pub mod model;
pub mod options;
pub mod range;
pub mod settings;
pub mod sharing;
pub mod stream;
pub mod tokens;

pub use archive::{compress_archive, compress_archive_slices, DzEncoderOptions, EncodedDzArchive};
pub use chunk::{compress_chunk, decompress_chunk, decompress_chunk_with_common_buffer};
pub use codec::{decode, encode, Decoder, Encoder};
pub use common::DzCommonBuffer;
pub use error::DzError;
pub use options::{model_workspace_size, DecoderOptions, EncoderOptions, ResourceLimits};
pub use settings::RangeSettings;
