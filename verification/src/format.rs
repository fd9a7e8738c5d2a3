//! The records of the archive format.

use vstd::prelude::*;

use crate::codecs::dz::RangeSettings;

verus! {

/// A part of the common buffer.
pub const CHUNK_COMBUF: u16 = 0x1;

/// A native DZ stream.
pub const CHUNK_DZ: u16 = 0x4;

/// A DEFLATE stream.
pub const CHUNK_ZLIB: u16 = 0x8;

/// A BZip2 stream.
pub const CHUNK_BZIP: u16 = 0x10;

/// MP3 content.
pub const CHUNK_MP3: u16 = 0x20;

/// JPEG content.
pub const CHUNK_JPEG: u16 = 0x40;

/// Zeros that are not stored.
pub const CHUNK_ZERO: u16 = 0x80;

/// Plain bytes.
pub const CHUNK_COPYCOMP: u16 = 0x100;

/// An LZMA stream.
pub const CHUNK_LZMA: u16 = 0x200;

/// The decoded chunk is kept for random access.
pub const CHUNK_RANDOMACCESS: u16 = 0x400;

/// A stored piece of a file.
#[derive(Debug, Clone, Copy, PartialEq, Eq, Structural)]
pub struct Chunk {
    pub offset: u32,
    pub compressed_length: u32,
    pub decompressed_length: u32,
    pub flags: u16,
    /// The volume that holds the chunk.
    pub file: u16,
}

/// The first four bytes of an archive.
pub const ARCHIVE_MAGIC: u32 = 0x5a52_5444;

/// The end of a list of chunk numbers.
pub const LIST_END: u16 = 0xffff;

/// The first record of an archive.
#[derive(Debug, Clone, Copy, PartialEq, Eq, Structural)]
pub struct ArchiveSettings {
    pub header: u32,
    pub num_user_files: u16,
    pub num_directories: u16,
    pub version: u8,
}

/// The record before the list of chunks.
#[derive(Debug, Clone, Copy, PartialEq, Eq, Structural)]
pub struct ChunkSettings {
    pub num_archive_files: u16,
    pub num_chunks: u16,
}

/// The directory and the chunks of a file.
#[derive(Debug)]
pub struct RawFileRecord {
    pub directory_id: u16,
    pub chunk_ids: Vec<u16>,
}

/// The directory and the chunks of a file.
#[verifier::ext_equal]
pub struct FileRecord {
    pub directory: u16,
    pub chunks: Seq<u16>,
}

impl View for RawFileRecord {
    type V = FileRecord;

    open spec fn view(&self) -> FileRecord {
        FileRecord { directory: self.directory_id, chunks: self.chunk_ids@ }
    }
}

/// The bytes behind a list of byte strings.
pub open spec fn names_of(names: Seq<Vec<u8>>) -> Seq<Seq<u8>> {
    Seq::new(names.len(), |i: int| names[i]@)
}

/// The records behind a list of them.
pub open spec fn records_of(files: Seq<RawFileRecord>) -> Seq<FileRecord> {
    Seq::new(files.len(), |i: int| files[i]@)
}

/// The metadata of an archive, as they are stored.
#[derive(Debug)]
pub struct RawArchive {
    pub settings: ArchiveSettings,
    /// The names of the files, then those of the directories.
    pub strings: Vec<Vec<u8>>,
    pub files: Vec<RawFileRecord>,
    pub chunk_settings: ChunkSettings,
    pub chunks: Vec<Chunk>,
    /// The names of the volumes behind the first.
    pub volume_files: Vec<Vec<u8>>,
    pub range_settings: Option<RangeSettings>,
}

/// The metadata of an archive.
#[verifier::ext_equal]
pub struct Metadata {
    pub settings: ArchiveSettings,
    pub strings: Seq<Seq<u8>>,
    pub files: Seq<FileRecord>,
    pub counts: ChunkSettings,
    pub chunks: Seq<Chunk>,
    pub volumes: Seq<Seq<u8>>,
    pub range: Option<RangeSettings>,
}

impl View for RawArchive {
    type V = Metadata;

    open spec fn view(&self) -> Metadata {
        Metadata {
            settings: self.settings,
            strings: names_of(self.strings@),
            files: records_of(self.files@),
            counts: self.chunk_settings,
            chunks: self.chunks@,
            volumes: names_of(self.volume_files@),
            range: self.range_settings,
        }
    }
}

} // verus!
