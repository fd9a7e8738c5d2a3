//! Rules of the packer that readers and writers have to share.

use vstd::prelude::*;

use crate::codec::flags::{registered, Compression, KNOWN_FLAGS, STORAGE_FLAGS};
use crate::format::{
    Chunk, CHUNK_BZIP, CHUNK_COMBUF, CHUNK_COPYCOMP, CHUNK_DZ, CHUNK_LZMA, CHUNK_ZERO, CHUNK_ZLIB,
};

verus! {

/// The flags that a reader understands.
pub const SEMANTIC_READER_FLAGS: u16 = KNOWN_FLAGS;

/// Tells whether a reader understands all the flags.
pub fn semantic_reader_supports_flags(flags: u16) -> (supported: bool)
    ensures
        supported == (flags & !SEMANTIC_READER_FLAGS == 0),
{
    flags & !SEMANTIC_READER_FLAGS == 0
}

/// The chunk is a part of the common buffer, and not stored data that carries the flag.
pub open spec fn dedicated_combuf(flags: u16) -> bool {
    flags & CHUNK_COMBUF != 0 && flags & STORAGE_FLAGS == 0
}

/// Tells whether the chunk is a part of the common buffer.
pub fn is_dedicated_combuf(flags: u16) -> (dedicated: bool)
    ensures
        dedicated == dedicated_combuf(flags),
{
    flags & CHUNK_COMBUF != 0 && flags & STORAGE_FLAGS == 0
}

/// The way of storing that the flags select; of several, the one whose coder is asked first.
pub fn registered_compression(flags: u16) -> (compression: Option<Compression>)
    ensures
        compression == registered(flags),
{
    if flags & CHUNK_ZERO != 0 {
        Some(Compression::Zero)
    } else if flags & CHUNK_BZIP != 0 {
        Some(Compression::Bzip)
    } else if flags & CHUNK_COPYCOMP != 0 {
        Some(Compression::Copy)
    } else if flags & CHUNK_ZLIB != 0 {
        Some(Compression::Zlib)
    } else if flags & CHUNK_LZMA != 0 {
        Some(Compression::Lzma)
    } else if flags & CHUNK_DZ != 0 {
        Some(Compression::Dz)
    } else {
        None
    }
}

/// A reader expects range settings if any chunk carries the DZ flag.
pub fn flags_require_range_settings(flags: u16) -> (required: bool)
    ensures
        required == (flags & CHUNK_DZ != 0),
{
    flags & CHUNK_DZ != 0
}

/// A writer stores range settings if DZ is the way of storing.
pub fn compression_writes_range_settings(compression: Compression) -> (writes: bool)
    ensures
        writes == (compression == Compression::Dz),
{
    match compression {
        Compression::Dz => true,
        _ => false,
    }
}

/// The place of a way of storing in the order in which chunks are written.
pub open spec fn write_rank(compression: Compression) -> u8 {
    match compression {
        Compression::Zero => 0,
        Compression::Bzip => 1,
        Compression::Copy => 2,
        Compression::Zlib => 3,
        Compression::Lzma => 4,
        Compression::Dz => 5,
    }
}

/// The place of a way of storing in the order in which chunks are written.
pub fn compression_write_rank(compression: Compression) -> (rank: u8)
    ensures
        rank == write_rank(compression),
{
    match compression {
        Compression::Zero => 0,
        Compression::Bzip => 1,
        Compression::Copy => 2,
        Compression::Zlib => 3,
        Compression::Lzma => 4,
        Compression::Dz => 5,
    }
}

/// The compressed length that a chunk records: for some ways of storing it is a placeholder.
pub open spec fn recorded_length(compression: Compression, input: int, encoded: int) -> int {
    match compression {
        Compression::Zlib | Compression::Bzip | Compression::Lzma => input,
        Compression::Copy | Compression::Zero | Compression::Dz => encoded,
    }
}

/// The compressed length that a chunk records.
pub fn stored_length(compression: Compression, input_length: usize, encoded_length: usize) -> (length:
    usize)
    ensures
        length == recorded_length(compression, input_length as int, encoded_length as int),
{
    match compression {
        Compression::Zlib | Compression::Bzip | Compression::Lzma => input_length,
        Compression::Copy | Compression::Zero | Compression::Dz => encoded_length,
    }
}

/// How many bytes are read for a chunk.
pub open spec fn read_length(chunk: Chunk, compression: Compression) -> u32 {
    match compression {
        Compression::Copy => chunk.decompressed_length,
        _ => chunk.compressed_length,
    }
}

/// How many bytes are read for a chunk: plain bytes go by their decoded length.
pub fn payload_read_length(chunk: Chunk, compression: Compression) -> (length: u32)
    ensures
        length == read_length(chunk, compression),
{
    match compression {
        Compression::Copy => chunk.decompressed_length,
        _ => chunk.compressed_length,
    }
}

/// All flags of ways of storing that compress.
pub const COMPRESSED_FLAGS: u16 = 0x21c;

/// The compressed length is a placeholder.
pub open spec fn placeholder_length(chunk: Chunk) -> bool {
    chunk.flags & COMPRESSED_FLAGS != 0 && chunk.compressed_length == chunk.decompressed_length
}

/// Tells whether the compressed length is a placeholder.
pub fn has_placeholder_length(chunk: Chunk) -> (placeholder: bool)
    ensures
        placeholder == placeholder_length(chunk),
{
    chunk.flags & COMPRESSED_FLAGS != 0 && chunk.compressed_length == chunk.decompressed_length
}

/// The chunk takes up bytes, so that it ends the one before it.
pub open spec fn physical(chunk: Chunk) -> bool {
    chunk.flags & CHUNK_ZERO == 0 && (chunk.compressed_length != 0 || chunk.flags & CHUNK_BZIP != 0)
}

/// Tells whether a chunk takes up bytes. An empty BZip2 stream does, other empty chunks do not.
pub fn is_physical_boundary(chunk: Chunk) -> (boundary: bool)
    ensures
        boundary == physical(chunk),
{
    if chunk.flags & CHUNK_ZERO != 0 {
        return false;
    }
    chunk.compressed_length != 0 || chunk.flags & CHUNK_BZIP != 0
}

} // verus!
