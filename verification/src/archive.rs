//! The index of an archive and the reading of its entries.

use vstd::prelude::*;
use vstd::string::*;
use vstd::utf8::valid_utf8;

use crate::codec::flags::{meaning, ChunkEncoding, Compression};
use crate::codecs::text::{append_decimal, decimal};
use crate::compat::{
    dedicated_combuf, has_placeholder_length, is_dedicated_combuf, is_physical_boundary, physical,
    placeholder_length,
};
use crate::error::{
    check_limit, invalid_archive, invalid_archive_at, DzipError, Trouble,
};
use crate::format::{names_of, ArchiveSettings, Chunk, Metadata, RawArchive, CHUNK_COMBUF};
use crate::metadata::over;
use crate::options::{ReadLimits, ReadOptions};
use crate::path::{
    ensure_utf8, lossy_text, path_key, plain_path, resolve_relative_path, same_path, text_of,
    utf8_detail,
    unsafe_path,
};

verus! {

/// The number of an entry.
#[derive(Debug, Clone, Copy, PartialEq, Eq, Hash, Structural)]
pub struct EntryId(pub usize);

/// A piece of an entry.
#[derive(Debug, Clone, Copy, PartialEq, Eq, Structural)]
pub struct EntrySegment {
    pub chunk_id: u16,
    /// Where the piece begins in the entry.
    pub start: u64,
    /// Where the piece ends in the entry.
    pub end: u64,
    pub encoding: ChunkEncoding,
    pub volume: u16,
}

impl EntrySegment {
    pub fn chunk_id(&self) -> (id: u16)
        ensures
            id == self.chunk_id,
    {
        self.chunk_id
    }

    /// The part of the entry that the piece holds.
    pub fn decoded_range(&self) -> (range: core::ops::Range<u64>)
        ensures
            range.start == self.start,
            range.end == self.end,
    {
        self.start..self.end
    }

    pub fn encoding(&self) -> (encoding: ChunkEncoding)
        ensures
            encoding == self.encoding,
    {
        self.encoding
    }

    pub fn volume(&self) -> (volume: u16)
        ensures
            volume == self.volume,
    {
        self.volume
    }
}

/// What an entry says.
#[verifier::ext_equal]
pub struct EntryView {
    pub id: EntryId,
    pub path: Seq<u8>,
    pub raw_path: Seq<u8>,
    pub chunk_ids: Seq<u16>,
    pub segments: Seq<EntrySegment>,
    pub decompressed_size: u64,
    pub compression: Compression,
    pub volume: u16,
}

/// A file of an archive.
#[derive(Debug)]
pub struct Entry {
    id: EntryId,
    path: Vec<u8>,
    raw_path: Vec<u8>,
    chunk_ids: Vec<u16>,
    segments: Vec<EntrySegment>,
    decompressed_size: u64,
    compression: Compression,
    volume: u16,
}

impl View for Entry {
    type V = EntryView;

    closed spec fn view(&self) -> EntryView {
        EntryView {
            id: self.id,
            path: self.path@,
            raw_path: self.raw_path@,
            chunk_ids: self.chunk_ids@,
            segments: self.segments@,
            decompressed_size: self.decompressed_size,
            compression: self.compression,
            volume: self.volume,
        }
    }
}

impl Entry {
    pub fn id(&self) -> (id: EntryId)
        ensures
            id == self@.id,
    {
        self.id
    }

    /// The path in its plain form.
    pub fn path(&self) -> (path: &[u8])
        ensures
            path@ == self@.path,
    {
        self.path.as_slice()
    }

    /// The path as the archive stores it.
    pub fn raw_path(&self) -> (path: &[u8])
        ensures
            path@ == self@.raw_path,
    {
        self.raw_path.as_slice()
    }

    pub fn chunk_ids(&self) -> (ids: &[u16])
        ensures
            ids@ == self@.chunk_ids,
    {
        self.chunk_ids.as_slice()
    }

    pub fn segments(&self) -> (segments: &[EntrySegment])
        ensures
            segments@ == self@.segments,
    {
        self.segments.as_slice()
    }

    pub fn decompressed_size(&self) -> (size: u64)
        ensures
            size == self@.decompressed_size,
    {
        self.decompressed_size
    }

    /// How the first piece is stored.
    pub fn compression(&self) -> (compression: Compression)
        ensures
            compression == self@.compression,
    {
        self.compression
    }

    /// The volume of the first piece.
    pub fn volume(&self) -> (volume: u16)
        ensures
            volume == self@.volume,
    {
        self.volume
    }
}

/// A chunk together with the number of bytes that it really takes.
#[derive(Debug, Clone, Copy, PartialEq, Eq, Structural)]
pub struct ResolvedChunk {
    pub stored: Chunk,
    pub physical_length: u32,
}

impl ResolvedChunk {
    /// The chunk with its real length.
    pub open spec fn actual(self) -> Chunk {
        Chunk { compressed_length: self.physical_length, ..self.stored }
    }

    /// The chunk with its real length.
    pub fn decoder_chunk(self) -> (chunk: Chunk)
        ensures
            chunk == self.actual(),
    {
        Chunk {
            offset: self.stored.offset,
            compressed_length: self.physical_length,
            decompressed_length: self.stored.decompressed_length,
            flags: self.stored.flags,
            file: self.stored.file,
        }
    }
}

/// The nearest place behind `offset` on a volume where one of the first `n` chunks begins, or
/// else `end`.
pub open spec fn boundary_after(chunks: Seq<Chunk>, volume: u16, offset: u32, end: int, n: nat) -> int
    decreases n,
{
    if n == 0 {
        end
    } else {
        let rest = boundary_after(chunks, volume, offset, end, (n - 1) as nat);
        let chunk = chunks[n - 1];
        if chunk.file == volume && physical(chunk) && offset < chunk.offset < rest {
            chunk.offset as int
        } else {
            rest
        }
    }
}

/// The number of bytes that a chunk takes on a volume of the given size. Where the recorded
/// length is a placeholder, the chunk reaches to the next one, or to the end of the volume.
pub open spec fn physical_length(chunks: Seq<Chunk>, chunk: Chunk, size: int) -> u32 {
    if !placeholder_length(chunk) || !physical(chunk) {
        chunk.compressed_length
    } else {
        let end = boundary_after(chunks, chunk.file, chunk.offset, size, chunks.len());
        let length = end - chunk.offset;
        if length < 0 {
            0
        } else if length > u32::MAX {
            u32::MAX
        } else {
            length as u32
        }
    }
}

/// The size of a volume, if it is there.
pub open spec fn volume_size(volumes: Seq<Option<Seq<u8>>>, volume: u16) -> Option<int> {
    if volume < volumes.len() {
        match volumes[volume as int] {
            Some(bytes) => Some(bytes.len() as int),
            None => None,
        }
    } else {
        None
    }
}

/// A chunk with its real length; on a volume that is not there, the recorded one.
pub open spec fn resolved_chunk(
    chunks: Seq<Chunk>,
    volumes: Seq<Option<Seq<u8>>>,
    chunk: Chunk,
) -> ResolvedChunk {
    ResolvedChunk {
        stored: chunk,
        physical_length: match volume_size(volumes, chunk.file) {
            Some(size) => physical_length(chunks, chunk, size),
            None => chunk.compressed_length,
        },
    }
}

pub open spec fn resolved_chunks(chunks: Seq<Chunk>, volumes: Seq<Option<Seq<u8>>>) -> Seq<
    ResolvedChunk,
> {
    Seq::new(chunks.len(), |i: int| resolved_chunk(chunks, volumes, chunks[i]))
}

/// The chunks with the real lengths of those on one volume, whose size is known.
pub open spec fn with_volume(
    chunks: Seq<Chunk>,
    list: Seq<ResolvedChunk>,
    volume: u16,
    size: int,
) -> Seq<ResolvedChunk> {
    Seq::new(
        list.len(),
        |i: int|
            if chunks[i].file == volume {
                ResolvedChunk {
                    stored: chunks[i],
                    physical_length: physical_length(chunks, chunks[i], size),
                }
            } else {
                list[i]
            },
    )
}

/// The bytes behind a list of volumes.
pub open spec fn volumes_of(volumes: Seq<Option<Vec<u8>>>) -> Seq<Option<Seq<u8>>> {
    Seq::new(
        volumes.len(),
        |i: int|
            match volumes[i] {
                Some(bytes) => Some(bytes@),
                None => None,
            },
    )
}

/// The path of a file as the archive stores it: directory, separator, name.
pub open spec fn raw_path(m: Metadata, index: int) -> Result<Seq<u8>, Trouble> {
    let directory = m.files[index].directory;
    let place = m.settings.num_user_files + directory - 1;
    if index >= m.strings.len() {
        Err(
            Trouble::InvalidArchive(
                "missing file name at index "@ + decimal(index as nat) + ""@,
            ),
        )
    } else if directory == 0 {
        Ok(m.strings[index])
    } else if place >= m.strings.len() {
        Err(
            Trouble::InvalidArchive(
                "invalid directory ID "@ + decimal(directory as nat) + " for "@ + lossy_text(
                    m.strings[index],
                ),
            ),
        )
    } else {
        Ok(with_separator(m.strings[place]) + m.strings[index])
    }
}

/// A directory with a separator behind it.
pub open spec fn with_separator(directory: Seq<u8>) -> Seq<u8> {
    if directory.len() > 0 && (directory.last() == 0x2f || directory.last() == 0x5c) {
        directory
    } else {
        directory.push(0x5c)
    }
}

/// What is wrong with a chunk as a piece of an entry.
pub open spec fn piece_trouble(m: Metadata, path: Seq<u8>, id: u16) -> Option<Trouble> {
    if id >= m.chunks.len() {
        Some(Trouble::InvalidArchive("invalid chunk index "@ + decimal(id as nat)))
    } else {
        let chunk = m.chunks[id as int];
        match meaning(chunk.flags) {
            None => Some(Trouble::UnsupportedCompression(chunk.flags)),
            Some(encoding) => if chunk.flags & CHUNK_COMBUF != 0 && encoding.compression
                == Compression::Dz {
                Some(
                    Trouble::InvalidArchive(
                        "entry "@ + lossy_text(path)
                            + " uses the unsafe DZ | COMBUF combination"@,
                    ),
                )
            } else if chunk.file > m.volumes.len() {
                Some(Trouble::VolumeNotFound(chunk.file))
            } else {
                None
            },
        }
    }
}

/// The pieces of an entry from number `part` on, behind those that are known.
pub open spec fn pieces_from(
    m: Metadata,
    path: Seq<u8>,
    ids: Seq<u16>,
    part: int,
    segments: Seq<EntrySegment>,
    size: int,
) -> Result<(Seq<EntrySegment>, int), Trouble>
    decreases ids.len() - part,
{
    if part >= ids.len() {
        Ok((segments, size))
    } else {
        let id = ids[part];
        match piece_trouble(m, path, id) {
            Some(trouble) => Err(trouble),
            None => {
                let chunk = m.chunks[id as int];
                let end = size + chunk.decompressed_length;
                if end > u64::MAX {
                    Err(Trouble::InvalidArchive("entry size overflow"@))
                } else {
                    pieces_from(
                        m,
                        path,
                        ids,
                        part + 1,
                        segments.push(
                            EntrySegment {
                                chunk_id: id,
                                start: size as u64,
                                end: end as u64,
                                encoding: meaning(chunk.flags)->Some_0,
                                volume: chunk.file,
                            },
                        ),
                        end,
                    )
                }
            },
        }
    }
}

/// An entry of the index.
pub open spec fn entry_of(m: Metadata, index: int, limits: ReadLimits) -> Result<
    EntryView,
    Trouble,
> {
    match raw_path(m, index) {
        Err(trouble) => Err(trouble),
        Ok(raw) => if !valid_utf8(raw) {
            Err(Trouble::Utf8(utf8_detail(raw)))
        } else {
            match plain_path(raw) {
                None => Err(unsafe_path()),
                Some(path) => match pieces_from(m, path, m.files[index].chunks, 0, seq![], 0) {
                    Err(trouble) => Err(trouble),
                    Ok((segments, size)) => if size > limits.max_entry_size {
                        Err(over("entry size"@, limits.max_entry_size as int, size))
                    } else {
                        Ok(
                            EntryView {
                                id: EntryId(index as usize),
                                path,
                                raw_path: raw,
                                chunk_ids: m.files[index].chunks,
                                segments,
                                decompressed_size: size as u64,
                                compression: if segments.len() == 0 {
                                    Compression::Copy
                                } else {
                                    segments[0].encoding.compression
                                },
                                volume: if segments.len() == 0 {
                                    0
                                } else {
                                    segments[0].volume
                                },
                            },
                        )
                    },
                },
            }
        },
    }
}

/// The entries from number `index` on, behind those that are known.
pub open spec fn entries_from(
    m: Metadata,
    index: int,
    entries: Seq<EntryView>,
    total: int,
    limits: ReadLimits,
) -> Result<Seq<EntryView>, Trouble>
    decreases m.files.len() - index,
{
    if index >= m.files.len() {
        if total > limits.max_total_output {
            Err(over("total output size"@, limits.max_total_output as int, total))
        } else {
            Ok(entries)
        }
    } else {
        match entry_of(m, index, limits) {
            Err(trouble) => Err(trouble),
            Ok(entry) => if total + entry.decompressed_size > u64::MAX {
                Err(Trouble::InvalidArchive("total output size overflow"@))
            } else {
                entries_from(
                    m,
                    index + 1,
                    entries.push(entry),
                    total + entry.decompressed_size,
                    limits,
                )
            },
        }
    }
}

/// The entries behind a list of them.
pub open spec fn views_of(entries: Seq<Entry>) -> Seq<EntryView> {
    Seq::new(entries.len(), |i: int| entries[i]@)
}

/// The index of an archive.
#[derive(Debug)]
pub struct ArchiveIndex {
    raw: RawArchive,
    entries: Vec<Entry>,
    resolved_chunks: Vec<ResolvedChunk>,
}

impl ArchiveIndex {
    pub closed spec fn metadata(&self) -> Metadata {
        self.raw@
    }

    pub closed spec fn list(&self) -> Seq<EntryView> {
        views_of(self.entries@)
    }

    pub closed spec fn resolution(&self) -> Seq<ResolvedChunk> {
        self.resolved_chunks@
    }

    pub fn archive_settings(&self) -> (settings: &ArchiveSettings)
        ensures
            *settings == self.metadata().settings,
    {
        &self.raw.settings
    }

    pub fn entries(&self) -> (entries: &[Entry])
        ensures
            views_of(entries@) == self.list(),
    {
        self.entries.as_slice()
    }

    /// The chunks with their real lengths.
    pub fn chunks(&self) -> (chunks: Vec<Chunk>)
        ensures
            chunks@ == Seq::new(
                self.resolution().len(),
                |i: int| self.resolution()[i].actual(),
            ),
    {
        let mut chunks: Vec<Chunk> = Vec::with_capacity(self.resolved_chunks.len());
        let mut i: usize = 0;
        while i < self.resolved_chunks.len()
            invariant
                i <= self.resolved_chunks@.len(),
                chunks@ == Seq::new(i as nat, |k: int| self.resolved_chunks@[k].actual()),
            decreases self.resolved_chunks@.len() - i,
        {
            chunks.push(self.resolved_chunks[i].decoder_chunk());
            i += 1;
            assert(chunks@ =~= Seq::new(i as nat, |k: int| self.resolved_chunks@[k].actual()));
        }
        chunks
    }

    /// A chunk with its real length.
    pub fn chunk(&self, index: usize) -> (chunk: Option<Chunk>)
        ensures
            chunk == (if index < self.resolution().len() {
                Some(self.resolution()[index as int].actual())
            } else {
                None
            }),
    {
        if index < self.resolved_chunks.len() {
            Some(self.resolved_chunks[index].decoder_chunk())
        } else {
            None
        }
    }

    /// The chunks as the archive records them.
    pub fn stored_chunks(&self) -> (chunks: &[Chunk])
        ensures
            chunks@ == self.metadata().chunks,
    {
        self.raw.chunks.as_slice()
    }

    pub fn resolved_chunks(&self) -> (chunks: &[ResolvedChunk])
        ensures
            chunks@ == self.resolution(),
    {
        self.resolved_chunks.as_slice()
    }

    pub fn raw_metadata(&self) -> (raw: &RawArchive)
        ensures
            raw@ == self.metadata(),
    {
        &self.raw
    }

    /// The names of the volumes behind the first.
    pub fn volume_files(&self) -> (names: &[Vec<u8>])
        ensures
            names_of(names@) == self.metadata().volumes,
    {
        self.raw.volume_files.as_slice()
    }

    pub fn range_settings(&self) -> (settings: Option<crate::codecs::dz::RangeSettings>)
        ensures
            settings == self.metadata().range,
    {
        self.raw.range_settings
    }

    /// Tells whether the archive holds a common buffer.
    pub fn has_dz_common_buffer(&self) -> (has: bool)
        ensures
            has == exists|i: int|
                0 <= i < self.metadata().chunks.len() && dedicated_combuf(
                    (#[trigger] self.metadata().chunks[i]).flags,
                ),
    {
        let mut i: usize = 0;
        while i < self.raw.chunks.len()
            invariant
                i <= self.raw.chunks@.len(),
                forall|k: int|
                    0 <= k < i ==> !dedicated_combuf((#[trigger] self.raw.chunks@[k]).flags),
            decreases self.raw.chunks@.len() - i,
        {
            if is_dedicated_combuf(self.raw.chunks[i].flags) {
                assert(dedicated_combuf(self.metadata().chunks[i as int].flags));
                return true;
            }
            i += 1;
        }
        assert(self.metadata().chunks == self.raw.chunks@);
        false
    }

    pub fn entry(&self, id: EntryId) -> (entry: Option<&Entry>)
        ensures
            match entry {
                Some(entry) => id.0 < self.list().len() && entry@ == self.list()[id.0 as int],
                None => id.0 >= self.list().len(),
            },
    {
        if id.0 < self.entries.len() {
            Some(&self.entries[id.0])
        } else {
            None
        }
    }

    /// Puts in the real lengths of the chunks on one volume.
    pub fn resolve_volume(&mut self, volume: u16, length: u64)
        requires
            old(self).resolution().len() == old(self).metadata().chunks.len(),
        ensures
            final(self).metadata() == old(self).metadata(),
            final(self).list() == old(self).list(),
            final(self).resolution() == with_volume(
                old(self).metadata().chunks,
                old(self).resolution(),
                volume,
                length as int,
            ),
    {
        resolve_volume_chunk_layout(
            &self.raw.chunks,
            volume,
            length,
            &mut self.resolved_chunks,
        );
    }

    /// The first entry with the path, whatever the case of its letters and its separators.
    pub fn find(&self, path: &[u8]) -> (entry: Option<&Entry>)
        ensures
            match entry {
                Some(entry) => exists|i: int|
                    0 <= i < self.list().len() && entry@ == #[trigger] self.list()[i] && path_key(
                        self.list()[i].path,
                    ) == path_key(path@) && forall|k: int|
                        0 <= k < i ==> path_key((#[trigger] self.list()[k]).path) != path_key(
                            path@,
                        ),
                None => forall|k: int|
                    0 <= k < self.list().len() ==> path_key((#[trigger] self.list()[k]).path)
                        != path_key(path@),
            },
    {
        let mut i: usize = 0;
        while i < self.entries.len()
            invariant
                i <= self.entries@.len(),
                forall|k: int|
                    0 <= k < i ==> path_key((#[trigger] self.list()[k]).path) != path_key(path@),
            decreases self.entries@.len() - i,
        {
            assert(self.list()[i as int] == self.entries@[i as int]@);
            if same_path(self.entries[i].path.as_slice(), path) {
                return Some(&self.entries[i]);
            }
            i += 1;
        }
        None
    }

    /// The first entry whose stored path is the given one, whatever the case of its letters and
    /// its separators.
    pub fn find_raw(&self, path: &[u8]) -> (entry: Option<&Entry>)
        ensures
            match entry {
                Some(entry) => exists|i: int|
                    0 <= i < self.list().len() && entry@ == #[trigger] self.list()[i] && path_key(
                        self.list()[i].raw_path,
                    ) == path_key(path@) && forall|k: int|
                        0 <= k < i ==> path_key((#[trigger] self.list()[k]).raw_path) != path_key(
                            path@,
                        ),
                None => forall|k: int|
                    0 <= k < self.list().len() ==> path_key((#[trigger] self.list()[k]).raw_path)
                        != path_key(path@),
            },
    {
        let mut i: usize = 0;
        while i < self.entries.len()
            invariant
                i <= self.entries@.len(),
                forall|k: int|
                    0 <= k < i ==> path_key((#[trigger] self.list()[k]).raw_path) != path_key(
                        path@,
                    ),
            decreases self.entries@.len() - i,
        {
            assert(self.list()[i as int] == self.entries@[i as int]@);
            if same_path(self.entries[i].raw_path.as_slice(), path) {
                return Some(&self.entries[i]);
            }
            i += 1;
        }
        None
    }
}

/// The path of a file as the archive stores it.
fn stored_path(parsed: &RawArchive, index: usize) -> (result: Result<Vec<u8>, DzipError>)
    requires
        index < parsed.files@.len(),
    ensures
        match raw_path(parsed@, index as int) {
            Ok(path) => result matches Ok(got) && got@ == path,
            Err(trouble) => result matches Err(error) && error@ == trouble,
        },
{
    let ghost m = parsed@;
    assert(m.files[index as int] == parsed.files@[index as int]@);
    let directory_id: u16 = parsed.files[index].directory_id;
    if index >= parsed.strings.len() {
        return Err(invalid_archive_at("missing file name at index ", index as u64, ""));
    }
    assert(m.strings[index as int] == parsed.strings@[index as int]@);
    let mut path: Vec<u8> = Vec::new();
    if directory_id > 0 {
        let place: usize = parsed.settings.num_user_files as usize + (directory_id as usize - 1);
        if place >= parsed.strings.len() {
            let name = text_of(parsed.strings[index].as_slice());
            let mut text = "invalid directory ID ".to_owned();
            append_decimal(&mut text, directory_id as usize);
            text.append(" for ");
            text.append(name.as_str());
            return Err(DzipError::InvalidArchive(text));
        }
        assert(m.strings[place as int] == parsed.strings@[place as int]@);
        let directory = &parsed.strings[place];
        path.extend_from_slice(directory.as_slice());
        let size: usize = directory.len();
        if !(size > 0 && (directory[size - 1] == 0x2f || directory[size - 1] == 0x5c)) {
            path.push(0x5c);
        }
        assert(path@ =~= with_separator(directory@));
    }
    path.extend_from_slice(parsed.strings[index].as_slice());
    proof {
        if directory_id == 0 {
            assert(path@ =~= m.strings[index as int]);
        }
    }
    Ok(path)
}

/// The encoding of a chunk as a piece of an entry.
fn piece_encoding(parsed: &RawArchive, path: &[u8], id: u16) -> (result: Result<
    ChunkEncoding,
    DzipError,
>)
    ensures
        match piece_trouble(parsed@, path@, id) {
            None => id < parsed.chunks@.len() && (result matches Ok(encoding) && meaning(
                parsed.chunks@[id as int].flags,
            ) == Some(encoding)),
            Some(trouble) => result matches Err(error) && error@ == trouble,
        },
{
    if id as usize >= parsed.chunks.len() {
        proof {
            reveal_strlit("");
            assert("invalid chunk index "@ + decimal(id as nat) + ""@ =~= "invalid chunk index "@
                + decimal(id as nat));
        }
        return Err(invalid_archive_at("invalid chunk index ", id as u64, ""));
    }
    let chunk = parsed.chunks[id as usize];
    let encoding = match ChunkEncoding::from_flags(chunk.flags) {
        Ok(encoding) => encoding,
        Err(error) => return Err(error),
    };
    if chunk.flags & CHUNK_COMBUF != 0 && encoding.compression == Compression::Dz {
        let name = text_of(path);
        let mut text = "entry ".to_owned();
        text.append(name.as_str());
        text.append(" uses the unsafe DZ | COMBUF combination");
        return Err(DzipError::InvalidArchive(text));
    }
    if chunk.file as usize > parsed.volume_files.len() {
        return Err(DzipError::VolumeNotFound(chunk.file));
    }
    Ok(encoding)
}

/// The pieces of an entry, and its size.
fn entry_segments(parsed: &RawArchive, path: &[u8], ids: &Vec<u16>) -> (result: Result<
    (Vec<EntrySegment>, u64),
    DzipError,
>)
    ensures
        match pieces_from(parsed@, path@, ids@, 0, seq![], 0) {
            Ok((segments, size)) => result matches Ok((list, total)) && list@ == segments && total
                == size,
            Err(trouble) => result matches Err(error) && error@ == trouble,
        },
{
    let ghost m = parsed@;
    let mut segments: Vec<EntrySegment> = Vec::with_capacity(ids.len());
    let mut size: u64 = 0;
    let mut part: usize = 0;
    assert(segments@ =~= seq![]);
    while part < ids.len()
        invariant
            part <= ids@.len(),
            m == parsed@,
            pieces_from(m, path@, ids@, 0, seq![], 0) == pieces_from(
                m,
                path@,
                ids@,
                part as int,
                segments@,
                size as int,
            ),
        decreases ids@.len() - part,
    {
        let id: u16 = ids[part];
        let encoding = match piece_encoding(parsed, path, id) {
            Ok(encoding) => encoding,
            Err(error) => return Err(error),
        };
        let chunk = parsed.chunks[id as usize];
        assert(m.chunks[id as int] == chunk);
        if chunk.decompressed_length as u64 > u64::MAX - size {
            return Err(invalid_archive("entry size overflow"));
        }
        let end: u64 = size + chunk.decompressed_length as u64;
        segments.push(
            EntrySegment { chunk_id: id, start: size, end, encoding, volume: chunk.file },
        );
        size = end;
        part += 1;
    }
    Ok((segments, size))
}

/// An entry of the index.
fn build_entry(parsed: &RawArchive, index: usize, limits: &ReadLimits) -> (result: Result<
    Entry,
    DzipError,
>)
    requires
        index < parsed.files@.len(),
    ensures
        match entry_of(parsed@, index as int, *limits) {
            Ok(entry) => result matches Ok(got) && got@ == entry,
            Err(trouble) => result matches Err(error) && error@ == trouble,
        },
{
    assert(parsed@.files[index as int] == parsed.files@[index as int]@);
    let raw_path = match stored_path(parsed, index) {
        Ok(path) => path,
        Err(error) => return Err(error),
    };
    match ensure_utf8(raw_path.as_slice()) {
        Ok(()) => {},
        Err(error) => return Err(error),
    }
    let path = match resolve_relative_path(raw_path.as_slice()) {
        Ok(path) => path,
        Err(error) => return Err(error),
    };
    let (segments, size) = match entry_segments(
        parsed,
        path.as_slice(),
        &parsed.files[index].chunk_ids,
    ) {
        Ok(found) => found,
        Err(error) => return Err(error),
    };
    match check_limit("entry size", limits.max_entry_size, size) {
        Ok(()) => {},
        Err(error) => return Err(error),
    }
    let mut chunk_ids: Vec<u16> = Vec::with_capacity(parsed.files[index].chunk_ids.len());
    chunk_ids.extend_from_slice(parsed.files[index].chunk_ids.as_slice());
    assert(chunk_ids@ =~= parsed.files@[index as int].chunk_ids@);
    let (compression, volume) = if segments.len() == 0 {
        (Compression::Copy, 0u16)
    } else {
        (segments[0].encoding.compression, segments[0].volume)
    };
    Ok(
        Entry {
            id: EntryId(index),
            path,
            raw_path,
            chunk_ids,
            segments,
            decompressed_size: size,
            compression,
            volume,
        },
    )
}

/// Builds the index of an archive.
pub fn build_index(
    parsed: RawArchive,
    resolved_chunks: Vec<ResolvedChunk>,
    options: &ReadOptions,
) -> (result: Result<ArchiveIndex, DzipError>)
    ensures
        match entries_from(parsed@, 0, seq![], 0, options.limits) {
            Ok(entries) => result matches Ok(index) && {
                &&& index.metadata() == parsed@
                &&& index.list() == entries
                &&& index.resolution() == resolved_chunks@
            },
            Err(trouble) => result matches Err(error) && error@ == trouble,
        },
{
    let ghost m = parsed@;
    let limits = options.limits;
    let mut entries: Vec<Entry> = Vec::with_capacity(parsed.files.len());
    let mut total: u64 = 0;
    let mut index: usize = 0;
    assert(views_of(entries@) =~= seq![]);
    while index < parsed.files.len()
        invariant
            index <= parsed.files@.len(),
            m == parsed@,
            limits == options.limits,
            m.files.len() == parsed.files@.len(),
            entries_from(m, 0, seq![], 0, limits) == entries_from(
                m,
                index as int,
                views_of(entries@),
                total as int,
                limits,
            ),
        decreases parsed.files@.len() - index,
    {
        let entry = match build_entry(&parsed, index, &limits) {
            Ok(entry) => entry,
            Err(error) => return Err(error),
        };
        if entry.decompressed_size > u64::MAX - total {
            return Err(invalid_archive("total output size overflow"));
        }
        total = total + entry.decompressed_size;
        let ghost before = entries@;
        entries.push(entry);
        assert(views_of(entries@) =~= views_of(before).push(entry@));
        index += 1;
    }
    match check_limit("total output size", limits.max_total_output, total) {
        Ok(()) => {},
        Err(error) => return Err(error),
    }
    Ok(ArchiveIndex { raw: parsed, entries, resolved_chunks })
}

/// Where the next chunk on the volume begins, or the given end.
fn find_boundary(chunks: &Vec<Chunk>, chunk: Chunk, end: u64) -> (place: u64)
    ensures
        place == boundary_after(chunks@, chunk.file, chunk.offset, end as int, chunks@.len()),
{
    let mut place: u64 = end;
    let mut i: usize = 0;
    while i < chunks.len()
        invariant
            i <= chunks@.len(),
            place == boundary_after(chunks@, chunk.file, chunk.offset, end as int, i as nat),
        decreases chunks@.len() - i,
    {
        let other = chunks[i];
        if other.file == chunk.file && is_physical_boundary(other) && chunk.offset < other.offset
            && (other.offset as u64) < place {
            place = other.offset as u64;
        }
        i += 1;
    }
    place
}

/// The real length of a chunk on a volume of the given size.
fn real_length(chunks: &Vec<Chunk>, chunk: Chunk, size: u64) -> (length: u32)
    ensures
        length == physical_length(chunks@, chunk, size as int),
{
    if !has_placeholder_length(chunk) || !is_physical_boundary(chunk) {
        return chunk.compressed_length;
    }
    let end: u64 = find_boundary(chunks, chunk, size);
    if end < chunk.offset as u64 {
        0
    } else if end - chunk.offset as u64 > u32::MAX as u64 {
        u32::MAX
    } else {
        (end - chunk.offset as u64) as u32
    }
}

/// Puts in the real lengths of the chunks on one volume.
fn resolve_volume_chunk_layout(
    chunks: &Vec<Chunk>,
    volume: u16,
    length: u64,
    resolved: &mut Vec<ResolvedChunk>,
)
    requires
        old(resolved)@.len() == chunks@.len(),
    ensures
        final(resolved)@ == with_volume(chunks@, old(resolved)@, volume, length as int),
{
    let ghost wanted = with_volume(chunks@, resolved@, volume, length as int);
    let mut i: usize = 0;
    while i < chunks.len()
        invariant
            i <= chunks@.len(),
            resolved@.len() == chunks@.len(),
            old(resolved)@.len() == chunks@.len(),
            wanted == with_volume(chunks@, old(resolved)@, volume, length as int),
            forall|k: int| 0 <= k < i ==> #[trigger] resolved@[k] == wanted[k],
            forall|k: int| i <= k < chunks@.len() ==> #[trigger] resolved@[k] == old(resolved)@[k],
        decreases chunks@.len() - i,
    {
        let chunk = chunks[i];
        if chunk.file == volume {
            resolved.set(
                i,
                ResolvedChunk {
                    stored: chunk,
                    physical_length: real_length(chunks, chunk, length),
                },
            );
        }
        i += 1;
    }
    assert(resolved@ =~= wanted);
}

/// The real lengths of all chunks.
pub fn resolve_chunk_layout(chunks: &Vec<Chunk>, volumes: &Vec<Option<Vec<u8>>>) -> (resolved: Vec<
    ResolvedChunk,
>)
    ensures
        resolved@ == resolved_chunks(chunks@, volumes_of(volumes@)),
{
    let ghost sizes = volumes_of(volumes@);
    let mut resolved: Vec<ResolvedChunk> = Vec::with_capacity(chunks.len());
    let mut i: usize = 0;
    while i < chunks.len()
        invariant
            i <= chunks@.len(),
            sizes == volumes_of(volumes@),
            resolved@ == resolved_chunks(chunks@, sizes).take(i as int),
        decreases chunks@.len() - i,
    {
        let chunk = chunks[i];
        let mut physical_length: u32 = chunk.compressed_length;
        if (chunk.file as usize) < volumes.len() {
            assert(sizes[chunk.file as int] == (match volumes@[chunk.file as int] {
                Some(bytes) => Some(bytes@),
                None => None,
            }));
            if let Some(bytes) = &volumes[chunk.file as usize] {
                physical_length = real_length(chunks, chunk, bytes.len() as u64);
            }
        }
        resolved.push(ResolvedChunk { stored: chunk, physical_length });
        i += 1;
        assert(resolved@ =~= resolved_chunks(chunks@, sizes).take(i as int));
    }
    assert(resolved@ =~= resolved_chunks(chunks@, sizes));
    resolved
}

} // verus!
