//! The LZMA encoder that searches for a cheap parse, and a strict decoder.

pub mod choice;
pub mod costs;
pub mod course;
pub mod decoder;
pub mod distances;
pub mod encoder;
pub mod laws;
pub mod ledger;
pub mod matchfinder;
pub mod optimum;
pub mod parse;
pub mod price;
pub mod prices;
pub mod props;
pub mod rangecoder;
pub mod search;
