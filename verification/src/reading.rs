//! Archives whose volumes are in memory.

use vstd::prelude::*;
use vstd::string::*;
use vstd::utf8::{decode_utf8, valid_utf8};

use crate::archive::{
    build_index, entries_from, resolve_chunk_layout, resolved_chunks, views_of, volume_size,
    volumes_of, with_volume, ArchiveIndex, Entry, EntryId, EntryView, ResolvedChunk,
};
use crate::codec::dz::{context_trouble, retained, DzDecodeContext};
use crate::codec::flags::{meaning, ChunkEncoding, Compression};
use crate::codec::{decode, limited_content, CodecLimits, DecodeContext, DzSetup};
use crate::codecs::dz::common::contents;
use crate::codecs::dz::stream::Common;
use crate::codecs::text::{append_decimal, append_wide, decimal};
use crate::compat::{
    dedicated_combuf, is_dedicated_combuf, payload_read_length, read_length,
    semantic_reader_supports_flags, SEMANTIC_READER_FLAGS,
};
use crate::error::{check_limit, ended, invalid_archive, told, unexpected_end, DzipError, Trouble};
use crate::format::{names_of, Chunk, Metadata, RawArchive};
use crate::metadata::{over, parse, parse_metadata};
use crate::options::{ReadLimits, ReadOptions};
use crate::path::{ensure_utf8, lossy_text, path_key, same_path, text_of, utf8_detail};

verus! {

/// A volume ends within a chunk.
pub open spec fn cut_volume() -> Trouble {
    ended()
}

/// `length` bytes of a volume.
pub open spec fn volume_part(
    volumes: Seq<Option<Seq<u8>>>,
    volume: u16,
    offset: u32,
    length: u32,
) -> Result<Seq<u8>, Trouble> {
    if volume >= volumes.len() || volumes[volume as int] is None {
        Err(Trouble::VolumeNotFound(volume))
    } else if offset + length > volumes[volume as int]->Some_0.len() {
        Err(cut_volume())
    } else {
        Ok(volumes[volume as int]->Some_0.subrange(offset as int, offset + length))
    }
}

/// The stored bytes of a chunk. Zeros are not stored.
pub open spec fn stored_bytes(
    volumes: Seq<Option<Seq<u8>>>,
    chunk: Chunk,
    compression: Compression,
) -> Result<Seq<u8>, Trouble> {
    if compression == Compression::Zero {
        Ok(seq![])
    } else {
        volume_part(volumes, chunk.file, chunk.offset, read_length(chunk, compression))
    }
}

/// The parts of the common buffer from chunk number `i` on, behind those that are known.
pub open spec fn common_parts(
    chunks: Seq<ResolvedChunk>,
    volumes: Seq<Option<Seq<u8>>>,
    i: int,
    parts: Seq<Seq<u8>>,
) -> Result<Seq<Seq<u8>>, Trouble>
    decreases chunks.len() - i,
{
    if i >= chunks.len() {
        Ok(parts)
    } else {
        let chunk = chunks[i].actual();
        if !dedicated_combuf(chunk.flags) {
            common_parts(chunks, volumes, i + 1, parts)
        } else {
            match volume_part(volumes, chunk.file, chunk.offset, chunk.compressed_length) {
                Err(trouble) => Err(trouble),
                Ok(part) => common_parts(chunks, volumes, i + 1, parts.push(part)),
            }
        }
    }
}

/// What the DZ chunks of an archive are decoded with, and how many bytes that keeps.
pub open spec fn archive_setup(
    m: Metadata,
    chunks: Seq<ResolvedChunk>,
    volumes: Seq<Option<Seq<u8>>>,
) -> Result<(DzSetup, int), Trouble> {
    match m.range {
        None => Err(Trouble::InvalidArchive("DZ chunks require archive-wide settings"@)),
        Some(settings) => match common_parts(chunks, volumes, 0, seq![]) {
            Err(trouble) => Err(trouble),
            Ok(parts) => match context_trouble(settings, parts) {
                Some(trouble) => Err(trouble),
                None => Ok(
                    (
                        DzSetup {
                            settings,
                            common: if parts.len() == 0 {
                                None
                            } else {
                                Some(Common { settings, chunks: parts })
                            },
                        },
                        retained(parts, parts.len()),
                    ),
                ),
            },
        },
    }
}

/// What changes while an archive is read: the lengths of chunks and the volumes that are
/// resolved, the limits that are left, and what the DZ chunks are decoded with once it is
/// loaded.
#[verifier::ext_equal]
pub struct Progress {
    pub chunks: Seq<ResolvedChunk>,
    pub resolved: Set<u16>,
    pub limits: CodecLimits,
    pub setup: Option<DzSetup>,
}

/// The limits of the codecs under the limits of a reader.
pub open spec fn codec_limits(limits: ReadLimits) -> CodecLimits {
    CodecLimits {
        max_input_size: limits.max_chunk_input_size,
        max_output_size: limits.max_chunk_output_size,
        max_workspace_size: limits.max_codec_workspace,
    }
}

/// An archive that was just opened: only its first volume is resolved.
pub open spec fn first_progress(m: Metadata, main: Seq<u8>, limits: ReadLimits) -> Progress {
    Progress {
        chunks: resolved_chunks(m.chunks, seq![Some(main)]),
        resolved: set![0u16],
        limits: codec_limits(limits),
        setup: None,
    }
}

/// A volume is resolved, given its length: a resolved one stays as it is, one without a length
/// is not found, and one with a chunk that passes a limit is not resolved, though the lengths of
/// its chunks are known from then on.
pub open spec fn volume_resolved(m: Metadata, p: Progress, id: u16, length: Option<int>) -> (
    Option<Trouble>,
    Progress,
) {
    if p.resolved.contains(id) {
        (None, p)
    } else {
        match length {
            None => (Some(Trouble::VolumeNotFound(id)), p),
            Some(length) => {
                let chunks = with_volume(m.chunks, p.chunks, id, length);
                match size_trouble(chunks, Some(id), 0, p.limits) {
                    Some(trouble) => (Some(trouble), Progress { chunks, ..p }),
                    None => (
                        None,
                        Progress { chunks, resolved: p.resolved.insert(id), ..p },
                    ),
                }
            },
        }
    }
}

/// The volumes that hold parts of the common buffer are resolved, from chunk number `i` on.
pub open spec fn commons_resolved(
    m: Metadata,
    volumes: Seq<Option<Seq<u8>>>,
    p: Progress,
    i: int,
) -> (Option<Trouble>, Progress)
    decreases m.chunks.len() - i,
{
    if i >= m.chunks.len() {
        (None, p)
    } else if !dedicated_combuf(m.chunks[i].flags) {
        commons_resolved(m, volumes, p, i + 1)
    } else {
        let file = m.chunks[i].file;
        let (trouble, after) = volume_resolved(m, p, file, volume_size(volumes, file));
        if trouble is Some {
            (trouble, after)
        } else {
            commons_resolved(m, volumes, after, i + 1)
        }
    }
}

/// What the DZ chunks are decoded with is loaded, once; it takes its share of the limits.
pub open spec fn context_loaded(m: Metadata, volumes: Seq<Option<Seq<u8>>>, p: Progress) -> (
    Option<Trouble>,
    Progress,
) {
    if p.setup is Some {
        (None, p)
    } else if m.range is None {
        (Some(Trouble::InvalidArchive("DZ chunks require archive-wide settings"@)), p)
    } else {
        let (trouble, after) = commons_resolved(m, volumes, p, 0);
        if trouble is Some {
            (trouble, after)
        } else {
            match archive_setup(m, after.chunks, volumes) {
                Err(trouble) => (Some(trouble), after),
                Ok((setup, held)) => (
                    None,
                    Progress {
                        limits: CodecLimits {
                            max_workspace_size: if held > after.limits.max_workspace_size {
                                0
                            } else {
                                (after.limits.max_workspace_size - held) as usize
                            },
                            ..after.limits
                        },
                        setup: Some(setup),
                        ..after
                    },
                ),
            }
        }
    }
}

/// A chunk whose volume is resolved decodes to this.
pub open spec fn chunk_read(
    m: Metadata,
    volumes: Seq<Option<Seq<u8>>>,
    chunk: Chunk,
    p: Progress,
) -> (Result<Seq<u8>, Trouble>, Progress) {
    match meaning(chunk.flags) {
        None => (Err(Trouble::UnsupportedCompression(chunk.flags)), p),
        Some(encoding) => {
            let (trouble, after) = if encoding.compression == Compression::Dz {
                context_loaded(m, volumes, p)
            } else {
                (None, p)
            };
            match trouble {
                Some(trouble) => (Err(trouble), after),
                None => match stored_bytes(volumes, chunk, encoding.compression) {
                    Err(trouble) => (Err(trouble), after),
                    Ok(bytes) => (
                        limited_content(
                            encoding.compression,
                            bytes,
                            chunk.decompressed_length as usize,
                            after.setup,
                            after.limits,
                        ),
                        after,
                    ),
                },
            }
        },
    }
}

/// A chunk of an entry decodes to this; its volume is resolved first.
#[verifier::opaque]
pub open spec fn piece_read(
    m: Metadata,
    volumes: Seq<Option<Seq<u8>>>,
    id: u16,
    p: Progress,
) -> (Result<Seq<u8>, Trouble>, Progress) {
    if id >= m.chunks.len() {
        (Err(Trouble::InvalidArchive("invalid chunk index "@ + decimal(id as nat))), p)
    } else {
        let file = m.chunks[id as int].file;
        let (trouble, after) = volume_resolved(m, p, file, volume_size(volumes, file));
        match trouble {
            Some(trouble) => (Err(trouble), after),
            None => chunk_read(m, volumes, after.chunks[id as int].actual(), after),
        }
    }
}

/// What reading leaves: the output, the state of the archive, and what went wrong.
#[verifier::ext_equal]
pub struct Reading {
    pub out: Seq<u8>,
    pub progress: Progress,
    pub trouble: Option<Trouble>,
}

/// The chunks of an entry are read, from number `k` on, behind what the output holds. What was
/// read before something goes wrong stays in the output.
pub open spec fn pieces_read(
    m: Metadata,
    volumes: Seq<Option<Seq<u8>>>,
    ids: Seq<u16>,
    k: int,
    out: Seq<u8>,
    p: Progress,
) -> Reading
    decreases ids.len() - k,
{
    if k >= ids.len() {
        Reading { out, progress: p, trouble: None }
    } else {
        let (content, after) = piece_read(m, volumes, ids[k], p);
        match content {
            Err(trouble) => Reading { out, progress: after, trouble: Some(trouble) },
            Ok(content) => if out.len() + content.len() > usize::MAX {
                Reading {
                    out,
                    progress: after,
                    trouble: Some(Trouble::InvalidArchive("entry output size overflow"@)),
                }
            } else {
                pieces_read(m, volumes, ids, k + 1, out + content, after)
            },
        }
    }
}

/// An entry is read behind what the output holds.
pub open spec fn entry_read(
    m: Metadata,
    volumes: Seq<Option<Seq<u8>>>,
    entry: EntryView,
    out: Seq<u8>,
    p: Progress,
) -> Reading {
    let reading = pieces_read(m, volumes, entry.chunk_ids, 0, out, p);
    let size = reading.out.len() - out.len();
    if reading.trouble is None && size != entry.decompressed_size {
        Reading {
            trouble: Some(
                Trouble::InvalidArchive(
                    entry.compression.label() + " entry length mismatch: expected "@ + decimal(
                        entry.decompressed_size as nat,
                    ) + ", got "@ + decimal(size as nat),
                ),
            ),
            ..reading
        }
    } else {
        reading
    }
}

/// The smallest volume number from `from` on among the first `n` chunks.
pub open spec fn next_volume(chunks: Seq<Chunk>, from: int, n: nat) -> Option<int>
    decreases n,
{
    if n == 0 {
        None
    } else {
        let file = chunks[n - 1].file as int;
        match next_volume(chunks, from, (n - 1) as nat) {
            Some(best) if best <= file || file < from => Some(best),
            None if file < from => None,
            _ => Some(file),
        }
    }
}

/// All volumes with chunks are resolved, those from number `from` on in their order.
pub open spec fn volumes_resolved(
    m: Metadata,
    volumes: Seq<Option<Seq<u8>>>,
    p: Progress,
    from: int,
) -> (Option<Trouble>, Progress)
    decreases 0x1_0000 - from,
{
    match next_volume(m.chunks, from, m.chunks.len()) {
        Some(id) if from <= id < 0x1_0000 => {
            let (trouble, after) = volume_resolved(
                m,
                p,
                id as u16,
                volume_size(volumes, id as u16),
            );
            if trouble is Some {
                (trouble, after)
            } else {
                volumes_resolved(m, volumes, after, id + 1)
            }
        },
        _ => (None, p),
    }
}

/// The first trouble with the flags of the chunks from number `i` on.
pub open spec fn flags_trouble(chunks: Seq<Chunk>, i: int) -> Option<Trouble>
    decreases chunks.len() - i,
{
    if i >= chunks.len() {
        None
    } else if chunks[i].flags & !SEMANTIC_READER_FLAGS != 0 {
        Some(Trouble::UnsupportedCompression(chunks[i].flags))
    } else {
        flags_trouble(chunks, i + 1)
    }
}

/// The first chunk from number `i` on that passes a limit; of all chunks, or of those on one
/// volume.
pub open spec fn size_trouble(
    chunks: Seq<ResolvedChunk>,
    only: Option<u16>,
    i: int,
    limits: CodecLimits,
) -> Option<Trouble>
    decreases chunks.len() - i,
{
    if i >= chunks.len() {
        None
    } else if only is Some && chunks[i].stored.file != only->Some_0 {
        size_trouble(chunks, only, i + 1, limits)
    } else if chunks[i].physical_length > limits.max_input_size {
        Some(
            over(
                "compressed chunk size"@,
                limits.max_input_size as int,
                chunks[i].physical_length as int,
            ),
        )
    } else if chunks[i].stored.decompressed_length > limits.max_output_size {
        Some(
            over(
                "decompressed chunk size"@,
                limits.max_output_size as int,
                chunks[i].stored.decompressed_length as int,
            ),
        )
    } else {
        size_trouble(chunks, only, i + 1, limits)
    }
}

/// All names are UTF-8.
pub open spec fn all_utf8(names: Seq<Seq<u8>>) -> bool {
    forall|i: int| 0 <= i < names.len() ==> valid_utf8(#[trigger] names[i])
}

/// The first trouble with the names from number `i` on that are not UTF-8.
pub open spec fn utf8_trouble(names: Seq<Seq<u8>>, i: int) -> Option<Trouble>
    decreases names.len() - i,
{
    if i >= names.len() {
        None
    } else if !valid_utf8(names[i]) {
        Some(Trouble::Utf8(utf8_detail(names[i])))
    } else {
        utf8_trouble(names, i + 1)
    }
}

/// Names that are UTF-8 are no trouble.
pub proof fn lemma_all_utf8(names: Seq<Seq<u8>>, i: int)
    requires
        all_utf8(names),
        0 <= i,
    ensures
        utf8_trouble(names, i) is None,
    decreases names.len() - i,
{
    if i < names.len() {
        lemma_all_utf8(names, i + 1);
    }
}

/// The entries of an archive, or why it is not opened.
pub open spec fn opened(m: Metadata, main: Seq<u8>, limits: ReadLimits) -> Result<
    Seq<EntryView>,
    Trouble,
> {
    let chunks = first_progress(m, main, limits).chunks;
    if flags_trouble(m.chunks, 0) is Some {
        Err(flags_trouble(m.chunks, 0)->Some_0)
    } else if m.range is Some && !m.range->Some_0.valid() {
        Err(
            Trouble::Codec(
                crate::codec::dz::dz_trouble(crate::codecs::dz::fault::DzFault::InvalidSettings),
            ),
        )
    } else if size_trouble(chunks, None, 0, codec_limits(limits)) is Some {
        Err(size_trouble(chunks, None, 0, codec_limits(limits))->Some_0)
    } else if utf8_trouble(m.volumes, 0) is Some {
        Err(utf8_trouble(m.volumes, 0)->Some_0)
    } else {
        entries_from(m, 0, seq![], 0, limits)
    }
}

/// An archive whose metadata are read, and whose further volumes are not known yet.
pub struct ArchivePreparation {
    main: Vec<u8>,
    metadata: RawArchive,
    options: ReadOptions,
}

impl ArchivePreparation {
    pub closed spec fn first(&self) -> Seq<u8> {
        self.main@
    }

    pub closed spec fn parsed(&self) -> Metadata {
        self.metadata@
    }

    pub closed spec fn limits(&self) -> ReadLimits {
        self.options.limits
    }

    /// Reads the metadata of the main volume.
    pub fn read(main: Vec<u8>, options: ReadOptions) -> (result: Result<
        ArchivePreparation,
        DzipError,
    >)
        ensures
            match parse(main@, options.limits) {
                Ok(metadata) => result matches Ok(preparation) && {
                    &&& preparation.first() == main@
                    &&& preparation.parsed() == metadata
                    &&& preparation.limits() == options.limits
                },
                Err(trouble) => result matches Err(error) && error@ == trouble,
            },
    {
        let metadata = match parse_metadata(main.as_slice(), &options) {
            Ok(metadata) => metadata,
            Err(error) => return Err(error),
        };
        Ok(ArchivePreparation { main, metadata, options })
    }

    pub fn metadata(&self) -> (metadata: &RawArchive)
        ensures
            metadata@ == self.parsed(),
    {
        &self.metadata
    }

    /// Opens the archive with a source of the volumes behind the main one, which is not looked
    /// at before a volume is needed.
    pub fn open(self, further: Vec<Option<Vec<u8>>>) -> (result: Result<Archive, DzipError>)
        ensures
            match opened(self.parsed(), self.first(), self.limits()) {
                Ok(entries) => result matches Ok(archive) && {
                    &&& archive.sound()
                    &&& archive.primary() == self.first()
                    &&& archive.source() == volumes_of(further@)
                    &&& archive.metadata() == self.parsed()
                    &&& archive.list() == entries
                    &&& archive.progress() == first_progress(
                        self.parsed(),
                        self.first(),
                        self.limits(),
                    )
                },
                Err(trouble) => result matches Err(error) && error@ == trouble,
            },
    {
        let ArchivePreparation { main, metadata, options } = self;
        let limits = CodecLimits {
            max_input_size: options.limits.max_chunk_input_size,
            max_output_size: options.limits.max_chunk_output_size,
            max_workspace_size: options.limits.max_codec_workspace,
        };
        match check_flags(&metadata.chunks) {
            Ok(()) => {},
            Err(error) => return Err(error),
        }
        if let Some(settings) = metadata.range_settings {
            match settings.validate() {
                Ok(_) => {},
                Err(error) => return Err(
                    DzipError::Codec(
                        crate::codec::CodecError::invalid(
                            crate::codec::Codec::Dz,
                            error.message(),
                        ),
                    ),
                ),
            }
        }
        let ghost bytes = main@;
        let mut known: Vec<Option<Vec<u8>>> = Vec::with_capacity(1);
        known.push(Some(main));
        assert(volumes_of(known@) =~= seq![Some(bytes)]);
        let chunks = resolve_chunk_layout(&metadata.chunks, &known);
        let main = match known.pop() {
            Some(Some(main)) => main,
            _ => Vec::new(),
        };
        match validate_chunk_limits(chunks.as_slice(), None, limits) {
            Ok(()) => {},
            Err(error) => return Err(error),
        }
        match check_names(&metadata.volume_files) {
            Ok(()) => {},
            Err(error) => return Err(error),
        }
        let index = match build_index(metadata, chunks, &options) {
            Ok(index) => index,
            Err(error) => return Err(error),
        };
        let mut resolved: Vec<u16> = Vec::with_capacity(1);
        resolved.push(0);
        let archive = Archive {
            main,
            volumes: further,
            index,
            resolved,
            dz_context: None,
            codec_limits: limits,
        };
        assert(archive.resolved@.to_set() =~= set![0u16]) by {
            assert(archive.resolved@ =~= seq![0u16]);
            assert forall|v: u16| #[trigger] archive.resolved@.to_set().contains(v) == set![
                0u16,
            ].contains(v) by {
                if v == 0 {
                    assert(archive.resolved@[0] == v);
                }
            }
        }
        assert(archive.progress() =~= first_progress(
            self.parsed(),
            self.first(),
            self.limits(),
        ));
        Ok(archive)
    }
}

/// Refuses names that are not UTF-8.
fn check_names(names: &Vec<Vec<u8>>) -> (result: Result<(), DzipError>)
    ensures
        told(result, utf8_trouble(names_of(names@), 0)),
{
    let ghost all = names_of(names@);
    let mut i: usize = 0;
    while i < names.len()
        invariant
            i <= names@.len(),
            all == names_of(names@),
            utf8_trouble(all, 0) == utf8_trouble(all, i as int),
        decreases names@.len() - i,
    {
        assert(all[i as int] == names@[i as int]@);
        match ensure_utf8(names[i].as_slice()) {
            Ok(()) => {},
            Err(error) => return Err(error),
        }
        i += 1;
    }
    Ok(())
}

/// Refuses chunks with flags that mean nothing.
fn check_flags(chunks: &Vec<Chunk>) -> (result: Result<(), DzipError>)
    ensures
        match flags_trouble(chunks@, 0) {
            None => result is Ok,
            Some(trouble) => result matches Err(error) && error@ == trouble,
        },
{
    let mut i: usize = 0;
    while i < chunks.len()
        invariant
            i <= chunks@.len(),
            flags_trouble(chunks@, 0) == flags_trouble(chunks@, i as int),
        decreases chunks@.len() - i,
    {
        if !semantic_reader_supports_flags(chunks[i].flags) {
            return Err(DzipError::UnsupportedCompression(chunks[i].flags));
        }
        i += 1;
    }
    Ok(())
}

/// Refuses chunks that pass a limit; all chunks, or those on one volume.
fn validate_chunk_limits(chunks: &[ResolvedChunk], only: Option<u16>, limits: CodecLimits) -> (
    result: Result<(), DzipError>)
    ensures
        match size_trouble(chunks@, only, 0, limits) {
            None => result is Ok,
            Some(trouble) => result matches Err(error) && error@ == trouble,
        },
{
    let mut i: usize = 0;
    while i < chunks.len()
        invariant
            i <= chunks@.len(),
            size_trouble(chunks@, only, 0, limits) == size_trouble(
                chunks@,
                only,
                i as int,
                limits,
            ),
        decreases chunks@.len() - i,
    {
        let chunk = chunks[i];
        let looked_at: bool = match only {
            Some(volume) => chunk.stored.file == volume,
            None => true,
        };
        if looked_at {
            match check_limit(
                "compressed chunk size",
                limits.max_input_size as u64,
                chunk.physical_length as u64,
            ) {
                Ok(()) => {},
                Err(error) => return Err(error),
            }
            match check_limit(
                "decompressed chunk size",
                limits.max_output_size as u64,
                chunk.stored.decompressed_length as u64,
            ) {
                Ok(()) => {},
                Err(error) => return Err(error),
            }
        }
        i += 1;
    }
    Ok(())
}

/// The volumes of an archive: the main one, and those of a source.
pub open spec fn with_main(main: Seq<u8>, source: Seq<Option<Seq<u8>>>) -> Seq<Option<Seq<u8>>> {
    seq![Some(main)] + source
}

/// An archive whose volumes are in memory. Volumes are resolved when they are needed.
pub struct Archive {
    main: Vec<u8>,
    volumes: Vec<Option<Vec<u8>>>,
    index: ArchiveIndex,
    resolved: Vec<u16>,
    dz_context: Option<DzDecodeContext>,
    codec_limits: CodecLimits,
}

impl Archive {
    /// The main volume.
    pub closed spec fn primary(&self) -> Seq<u8> {
        self.main@
    }

    /// The volumes behind the main one, as far as the source has them.
    pub closed spec fn source(&self) -> Seq<Option<Seq<u8>>> {
        volumes_of(self.volumes@)
    }

    /// All volumes.
    pub open spec fn volumes(&self) -> Seq<Option<Seq<u8>>> {
        with_main(self.primary(), self.source())
    }

    pub closed spec fn index_view(&self) -> ArchiveIndex {
        self.index
    }

    pub open spec fn metadata(&self) -> Metadata {
        self.index_view().metadata()
    }

    /// The entries.
    pub open spec fn list(&self) -> Seq<EntryView> {
        self.index_view().list()
    }

    /// The state of the archive.
    pub closed spec fn progress(&self) -> Progress {
        Progress {
            chunks: self.index.resolution(),
            resolved: self.resolved@.to_set(),
            limits: self.codec_limits,
            setup: match self.dz_context {
                Some(context) => Some(
                    DzSetup { settings: context.models(), common: context.common() },
                ),
                None => None,
            },
        }
    }

    /// Every chunk has a length.
    pub open spec fn sound(&self) -> bool {
        self.progress().chunks.len() == self.metadata().chunks.len()
    }

    /// The same archive, whatever its state.
    pub open spec fn same_archive(&self, other: &Archive) -> bool {
        &&& self.primary() == other.primary()
        &&& self.source() == other.source()
        &&& self.metadata() == other.metadata()
        &&& self.list() == other.list()
    }

    /// Opens an archive under the default limits.
    pub fn open_with_volumes(main: Vec<u8>, further: Vec<Option<Vec<u8>>>) -> (result: Result<
        Archive,
        DzipError,
    >)
        ensures
            match parse(main@, ReadLimits::usual()) {
                Err(trouble) => result matches Err(error) && error@ == trouble,
                Ok(m) => match opened(m, main@, ReadLimits::usual()) {
                    Err(trouble) => result matches Err(error) && error@ == trouble,
                    Ok(entries) => result matches Ok(archive) && {
                        &&& archive.sound()
                        &&& archive.primary() == main@
                        &&& archive.source() == volumes_of(further@)
                        &&& archive.metadata() == m
                        &&& archive.list() == entries
                        &&& archive.progress() == first_progress(m, main@, ReadLimits::usual())
                    },
                },
            },
    {
        Archive::open_with_options(main, further, ReadOptions::default())
    }

    /// Opens an archive.
    pub fn open_with_options(
        main: Vec<u8>,
        further: Vec<Option<Vec<u8>>>,
        options: ReadOptions,
    ) -> (result: Result<Archive, DzipError>)
        ensures
            match parse(main@, options.limits) {
                Err(trouble) => result matches Err(error) && error@ == trouble,
                Ok(m) => match opened(m, main@, options.limits) {
                    Err(trouble) => result matches Err(error) && error@ == trouble,
                    Ok(entries) => result matches Ok(archive) && {
                        &&& archive.sound()
                        &&& archive.primary() == main@
                        &&& archive.source() == volumes_of(further@)
                        &&& archive.metadata() == m
                        &&& archive.list() == entries
                        &&& archive.progress() == first_progress(m, main@, options.limits)
                    },
                },
            },
    {
        let preparation = match ArchivePreparation::read(main, options) {
            Ok(preparation) => preparation,
            Err(error) => return Err(error),
        };
        preparation.open(further)
    }

    /// The source of the volumes behind the main one.
    pub fn volume_source(&self) -> (source: &Vec<Option<Vec<u8>>>)
        ensures
            volumes_of(source@) == self.source(),
    {
        &self.volumes
    }

    /// The source of the volumes behind the main one, to be changed.
    pub fn volume_source_mut(&mut self) -> (source: &mut Vec<Option<Vec<u8>>>)
        ensures
            volumes_of(source@) == old(self).source(),
            final(self).source() == volumes_of(final(source)@),
            final(self).primary() == old(self).primary(),
            final(self).index_view() == old(self).index_view(),
            final(self).progress() == old(self).progress(),
    {
        &mut self.volumes
    }

    pub fn index(&self) -> (index: &ArchiveIndex)
        ensures
            *index == self.index_view(),
    {
        &self.index
    }

    pub fn entries(&self) -> (entries: &[Entry])
        ensures
            views_of(entries@) == self.list(),
    {
        self.index.entries()
    }

    /// Tells whether a volume is resolved.
    pub fn is_volume_resolved(&self, id: u16) -> (resolved: bool)
        ensures
            resolved == self.progress().resolved.contains(id),
    {
        let mut i: usize = 0;
        while i < self.resolved.len()
            invariant
                i <= self.resolved@.len(),
                forall|k: int| 0 <= k < i ==> #[trigger] self.resolved@[k] != id,
            decreases self.resolved@.len() - i,
        {
            if self.resolved[i] == id {
                assert(self.resolved@.contains(id));
                return true;
            }
            i += 1;
        }
        assert(!self.resolved@.contains(id));
        false
    }

    pub fn entry(&self, id: EntryId) -> (entry: Option<&Entry>)
        ensures
            match entry {
                Some(entry) => id.0 < self.list().len() && entry@
                    == self.list()[id.0 as int],
                None => id.0 >= self.list().len(),
            },
    {
        self.index.entry(id)
    }

    pub fn find_entry(&self, path: &[u8]) -> (entry: Option<&Entry>)
        ensures
            match entry {
                Some(entry) => exists|i: int|
                    0 <= i < self.list().len() && entry@
                        == #[trigger] self.list()[i] && path_key(entry@.path)
                        == path_key(path@) && forall|k: int|
                        0 <= k < i ==> path_key((#[trigger] self.list()[k]).path)
                            != path_key(path@),
                None => forall|k: int|
                    0 <= k < self.list().len() ==> path_key(
                        (#[trigger] self.list()[k]).path,
                    ) != path_key(path@),
            },
    {
        self.index.find(path)
    }

    pub fn find_entry_raw(&self, path: &[u8]) -> (entry: Option<&Entry>)
        ensures
            match entry {
                Some(entry) => exists|i: int|
                    0 <= i < self.list().len() && entry@
                        == #[trigger] self.list()[i] && path_key(entry@.raw_path)
                        == path_key(path@) && forall|k: int|
                        0 <= k < i ==> path_key((#[trigger] self.list()[k]).raw_path)
                            != path_key(path@),
                None => forall|k: int|
                    0 <= k < self.list().len() ==> path_key(
                        (#[trigger] self.list()[k]).raw_path,
                    ) != path_key(path@),
            },
    {
        self.index.find_raw(path)
    }

    /// The size of a volume, if it is there.
    fn volume_len(&self, id: u16) -> (length: Option<u64>)
        ensures
            match length {
                Some(size) => volume_size(self.volumes(), id) == Some(size as int),
                None => volume_size(self.volumes(), id) is None,
            },
    {
        if id == 0 {
            return Some(self.main.len() as u64);
        }
        let place: usize = id as usize - 1;
        if place >= self.volumes.len() {
            return None;
        }
        assert(self.volumes()[id as int] == self.source()[place as int]);
        match &self.volumes[place] {
            Some(bytes) => Some(bytes.len() as u64),
            None => None,
        }
    }

    /// Bytes of a volume.
    fn read_part(&self, volume: u16, offset: u32, length: u32) -> (result: Result<
        Vec<u8>,
        DzipError,
    >)
        ensures
            match volume_part(self.volumes(), volume, offset, length) {
                Ok(part) => result matches Ok(bytes) && bytes@ == part,
                Err(trouble) => result matches Err(error) && error@ == trouble,
            },
    {
        let bytes: &Vec<u8> = if volume == 0 {
            &self.main
        } else {
            let place: usize = volume as usize - 1;
            if place >= self.volumes.len() {
                return Err(DzipError::VolumeNotFound(volume));
            }
            assert(self.volumes()[volume as int] == self.source()[place as int]);
            match &self.volumes[place] {
                None => return Err(DzipError::VolumeNotFound(volume)),
                Some(bytes) => bytes,
            }
        };
        let size: usize = bytes.len();
        if offset as u64 + length as u64 > size as u64 {
            return Err(unexpected_end());
        }
        let start: usize = offset as usize;
        let end: usize = (offset as u64 + length as u64) as usize;
        let mut part: Vec<u8> = Vec::with_capacity(length as usize);
        part.extend_from_slice(vstd::slice::slice_subrange(bytes.as_slice(), start, end));
        assert(part@ =~= bytes@.subrange(start as int, end as int));
        Ok(part)
    }

    /// Resolves a volume, given its length; without one, it is not found.
    pub fn resolve_volume_layout(&mut self, id: u16, length: Option<u64>) -> (result: Result<
        (),
        DzipError,
    >)
        requires
            old(self).sound(),
        ensures
            final(self).sound(),
            final(self).same_archive(old(self)),
            ({
                let (trouble, after) = volume_resolved(
                    old(self).metadata(),
                    old(self).progress(),
                    id,
                    match length {
                        Some(length) => Some(length as int),
                        None => None,
                    },
                );
                &&& final(self).progress() == after
                &&& told(result, trouble)
            }),
    {
        if self.is_volume_resolved(id) {
            return Ok(());
        }
        let length: u64 = match length {
            Some(length) => length,
            None => return Err(DzipError::VolumeNotFound(id)),
        };
        self.index.resolve_volume(id, length);
        match validate_chunk_limits(self.index.resolved_chunks(), Some(id), self.codec_limits) {
            Ok(()) => {},
            Err(error) => return Err(error),
        }
        let ghost before = self.resolved@;
        self.resolved.push(id);
        proof {
            assert forall|v: u16| #[trigger] self.resolved@.to_set().contains(v)
                == before.to_set().insert(id).contains(v) by {
                if before.contains(v) {
                    let k = choose|k: int| 0 <= k < before.len() && before[k] == v;
                    assert(self.resolved@[k] == v);
                }
                if v == id {
                    assert(self.resolved@[before.len() as int] == v);
                }
            }
            assert(self.resolved@.to_set() =~= before.to_set().insert(id));
        }
        Ok(())
    }

    /// Resolves a volume of the source without decoding anything.
    pub fn resolve_volume(&mut self, id: u16) -> (result: Result<(), DzipError>)
        requires
            old(self).sound(),
        ensures
            final(self).sound(),
            final(self).same_archive(old(self)),
            ({
                let (trouble, after) = volume_resolved(
                    old(self).metadata(),
                    old(self).progress(),
                    id,
                    volume_size(old(self).volumes(), id),
                );
                &&& final(self).progress() == after
                &&& told(result, trouble)
            }),
    {
        let length = self.volume_len(id);
        self.resolve_volume_layout(id, length)
    }

    /// Resolves all volumes with chunks, in the order of their numbers, up to the first that
    /// fails.
    pub fn resolve_all_volumes(&mut self) -> (result: Result<(), DzipError>)
        requires
            old(self).sound(),
        ensures
            final(self).sound(),
            final(self).same_archive(old(self)),
            ({
                let (trouble, after) = volumes_resolved(
                    old(self).metadata(),
                    old(self).volumes(),
                    old(self).progress(),
                    0,
                );
                &&& final(self).progress() == after
                &&& told(result, trouble)
            }),
    {
        let ghost m = self.metadata();
        let ghost volumes = self.volumes();
        let ghost whole = volumes_resolved(m, volumes, self.progress(), 0);
        let mut from: u32 = 0;
        loop
            invariant
                from <= 0x1_0000,
                self.sound(),
                self.same_archive(old(self)),
                m == self.metadata(),
                volumes == self.volumes(),
                whole == volumes_resolved(m, volumes, old(self).progress(), 0),
                whole == volumes_resolved(m, volumes, self.progress(), from as int),
            decreases 0x1_0000 - from,
        {
            let id: u16 = match find_next_volume(self.index.stored_chunks(), from) {
                Some(id) => id,
                None => return Ok(()),
            };
            match self.resolve_volume(id) {
                Ok(()) => {},
                Err(error) => return Err(error),
            }
            from = id as u32 + 1;
        }
    }

    /// Loads what the DZ chunks are decoded with.
    fn ensure_dz_context(&mut self) -> (result: Result<(), DzipError>)
        requires
            old(self).sound(),
        ensures
            final(self).sound(),
            final(self).same_archive(old(self)),
            ({
                let (trouble, after) = context_loaded(
                    old(self).metadata(),
                    old(self).volumes(),
                    old(self).progress(),
                );
                &&& final(self).progress() == after
                &&& told(result, trouble)
            }),
    {
        if self.dz_context.is_some() {
            return Ok(());
        }
        let settings = match self.index.range_settings() {
            Some(settings) => settings,
            None => return Err(invalid_archive("DZ chunks require archive-wide settings")),
        };
        match self.resolve_common_volumes() {
            Ok(()) => {},
            Err(error) => return Err(error),
        }
        let parts = match self.read_common_parts() {
            Ok(parts) => parts,
            Err(error) => return Err(error),
        };
        let ghost all = contents(parts@);
        assert(all.len() == parts@.len());
        let context = match DzDecodeContext::from_encoded_chunks(settings, parts) {
            Ok(context) => context,
            Err(error) => return Err(error),
        };
        let held: usize = context.retained_bytes();
        self.codec_limits.max_workspace_size = if held > self.codec_limits.max_workspace_size {
            0
        } else {
            self.codec_limits.max_workspace_size - held
        };
        self.dz_context = Some(context);
        Ok(())
    }

    /// Resolves the volumes that hold parts of the common buffer.
    fn resolve_common_volumes(&mut self) -> (result: Result<(), DzipError>)
        requires
            old(self).sound(),
        ensures
            final(self).sound(),
            final(self).same_archive(old(self)),
            ({
                let (trouble, after) = commons_resolved(
                    old(self).metadata(),
                    old(self).volumes(),
                    old(self).progress(),
                    0,
                );
                &&& final(self).progress() == after
                &&& told(result, trouble)
            }),
    {
        let ghost m = self.metadata();
        let ghost volumes = self.volumes();
        let ghost whole = commons_resolved(m, volumes, self.progress(), 0);
        let mut i: usize = 0;
        let count: usize = self.index.stored_chunks().len();
        while i < count
            invariant
                i <= count == m.chunks.len(),
                self.sound(),
                self.same_archive(old(self)),
                m == self.metadata(),
                volumes == self.volumes(),
                whole == commons_resolved(m, volumes, old(self).progress(), 0),
                whole == commons_resolved(m, volumes, self.progress(), i as int),
            decreases count - i,
        {
            let chunk = self.index.stored_chunks()[i];
            if is_dedicated_combuf(chunk.flags) {
                match self.resolve_volume(chunk.file) {
                    Ok(()) => {},
                    Err(error) => return Err(error),
                }
            }
            i += 1;
        }
        Ok(())
    }

    /// The parts of the common buffer.
    fn read_common_parts(&self) -> (result: Result<Vec<Vec<u8>>, DzipError>)
        ensures
            match common_parts(self.progress().chunks, self.volumes(), 0, seq![]) {
                Ok(parts) => result matches Ok(list) && contents(list@) == parts,
                Err(trouble) => result matches Err(error) && error@ == trouble,
            },
    {
        let ghost chunks = self.index.resolution();
        let ghost volumes = self.volumes();
        let count: usize = self.index.resolved_chunks().len();
        let mut parts: Vec<Vec<u8>> = Vec::new();
        let mut i: usize = 0;
        assert(contents(parts@) =~= seq![]);
        while i < count
            invariant
                i <= count == chunks.len(),
                chunks == self.index.resolution(),
                volumes == self.volumes(),
                common_parts(chunks, volumes, 0, seq![]) == common_parts(
                    chunks,
                    volumes,
                    i as int,
                    contents(parts@),
                ),
            decreases count - i,
        {
            let chunk = self.index.resolved_chunks()[i].decoder_chunk();
            if is_dedicated_combuf(chunk.flags) {
                let part = match self.read_part(
                    chunk.file,
                    chunk.offset,
                    chunk.compressed_length,
                ) {
                    Ok(part) => part,
                    Err(error) => return Err(error),
                };
                let ghost before = parts@;
                parts.push(part);
                assert(contents(parts@) =~= contents(before).push(part@));
            }
            i += 1;
        }
        Ok(parts)
    }

    /// Decodes a chunk whose volume is resolved.
    fn read_chunk(&mut self, chunk: Chunk) -> (result: Result<Vec<u8>, DzipError>)
        requires
            old(self).sound(),
        ensures
            final(self).sound(),
            final(self).same_archive(old(self)),
            ({
                let (content, after) = chunk_read(
                    old(self).metadata(),
                    old(self).volumes(),
                    chunk,
                    old(self).progress(),
                );
                &&& final(self).progress() == after
                &&& match content {
                    Ok(content) => result matches Ok(bytes) && bytes@ == content,
                    Err(trouble) => result matches Err(error) && error@ == trouble,
                }
            }),
    {
        let encoding = match ChunkEncoding::from_flags(chunk.flags) {
            Ok(encoding) => encoding,
            Err(error) => return Err(error),
        };
        if encoding.compression == Compression::Dz {
            match self.ensure_dz_context() {
                Ok(()) => {},
                Err(error) => return Err(error),
            }
        }
        let bytes = if encoding.compression == Compression::Zero {
            let none: Vec<u8> = Vec::new();
            assert(none@ =~= seq![]);
            none
        } else {
            match self.read_part(
                chunk.file,
                chunk.offset,
                payload_read_length(chunk, encoding.compression),
            ) {
                Ok(bytes) => bytes,
                Err(error) => return Err(error),
            }
        };
        decode(
            encoding,
            bytes.as_slice(),
            DecodeContext {
                expected_len: chunk.decompressed_length as usize,
                dz: self.dz_context.as_ref(),
                limits: self.codec_limits,
            },
        )
    }

    /// Decodes a chunk; its volume is resolved first.
    fn read_piece(&mut self, chunk_id: u16) -> (result: Result<Vec<u8>, DzipError>)
        requires
            old(self).sound(),
        ensures
            final(self).sound(),
            final(self).same_archive(old(self)),
            ({
                let (content, after) = piece_read(
                    old(self).metadata(),
                    old(self).volumes(),
                    chunk_id,
                    old(self).progress(),
                );
                &&& final(self).progress() == after
                &&& match content {
                    Ok(content) => result matches Ok(bytes) && bytes@ == content,
                    Err(trouble) => result matches Err(error) && error@ == trouble,
                }
            }),
    {
        reveal(piece_read);
        if chunk_id as usize >= self.index.stored_chunks().len() {
            let mut text = "invalid chunk index ".to_owned();
            append_decimal(&mut text, chunk_id as usize);
            return Err(DzipError::InvalidArchive(text));
        }
        let volume: u16 = self.index.stored_chunks()[chunk_id as usize].file;
        match self.resolve_volume(volume) {
            Ok(()) => {},
            Err(error) => return Err(error),
        }
        let chunk = self.index.resolved_chunks()[chunk_id as usize].decoder_chunk();
        self.read_chunk(chunk)
    }

    /// Decodes chunks one after another behind what the output holds, up to the first that
    /// fails.
    fn read_pieces(&mut self, ids: &[u16], output: &mut Vec<u8>) -> (result: Result<(), DzipError>)
        requires
            old(self).sound(),
        ensures
            final(self).sound(),
            final(self).same_archive(old(self)),
            ({
                let reading = pieces_read(
                    old(self).metadata(),
                    old(self).volumes(),
                    ids@,
                    0,
                    old(output)@,
                    old(self).progress(),
                );
                &&& final(output)@ == reading.out
                &&& final(output)@.len() >= old(output)@.len()
                &&& final(self).progress() == reading.progress
                &&& told(result, reading.trouble)
            }),
    {
        let ghost m = self.metadata();
        let ghost volumes = self.volumes();
        let ghost whole = pieces_read(m, volumes, ids@, 0, output@, self.progress());
        let mut k: usize = 0;
        while k < ids.len()
            invariant
                k <= ids@.len(),
                self.sound(),
                self.same_archive(old(self)),
                m == self.metadata(),
                volumes == self.volumes(),
                m == old(self).metadata(),
                volumes == old(self).volumes(),
                old(output)@.len() <= output@.len(),
                whole == pieces_read(m, volumes, ids@, 0, old(output)@, old(self).progress()),
                whole == pieces_read(m, volumes, ids@, k as int, output@, self.progress()),
            decreases ids@.len() - k,
        {
            let mut bytes = match self.read_piece(ids[k]) {
                Ok(bytes) => bytes,
                Err(error) => return Err(error),
            };
            if bytes.len() > usize::MAX - output.len() {
                return Err(invalid_archive("entry output size overflow"));
            }
            output.append(&mut bytes);
            k += 1;
        }
        Ok(())
    }

    /// Decodes an entry behind what the output holds, and tells how many bytes that were. What
    /// was decoded before something goes wrong stays in the output.
    #[verifier::rlimit(40)]
    pub fn read_entry_to(&mut self, id: EntryId, output: &mut Vec<u8>) -> (result: Result<
        u64,
        DzipError,
    >)
        requires
            old(self).sound(),
        ensures
            final(self).sound(),
            final(self).same_archive(old(self)),
            if id.0 >= old(self).list().len() {
                &&& result matches Err(error) && error@ == Trouble::EntryNotFound(
                    decimal(id.0 as nat),
                )
                &&& final(output)@ == old(output)@
                &&& final(self).progress() == old(self).progress()
            } else {
                let reading = entry_read(
                    old(self).metadata(),
                    old(self).volumes(),
                    old(self).list()[id.0 as int],
                    old(output)@,
                    old(self).progress(),
                );
                &&& final(output)@ == reading.out
                &&& final(self).progress() == reading.progress
                &&& match reading.trouble {
                    None => result matches Ok(count) && count
                        == old(self).list()[id.0 as int].decompressed_size,
                    Some(trouble) => result matches Err(error) && error@ == trouble,
                }
            },
    {
        let mut ids: Vec<u16> = Vec::new();
        let expected: u64;
        let compression: Compression;
        match self.index.entry(id) {
            Some(entry) => {
                ids.extend_from_slice(entry.chunk_ids());
                assert(ids@ =~= entry@.chunk_ids);
                expected = entry.decompressed_size();
                compression = entry.compression();
            },
            None => return Err(missing_entry(id)),
        }
        let held: usize = output.len();
        match self.read_pieces(ids.as_slice(), output) {
            Ok(()) => {},
            Err(error) => return Err(error),
        }
        let written: usize = output.len() - held;
        if written as u64 != expected {
            let mut text = compression.name().to_owned();
            text.append(" entry length mismatch: expected ");
            append_wide(&mut text, expected);
            text.append(", got ");
            append_decimal(&mut text, written);
            return Err(DzipError::InvalidArchive(text));
        }
        Ok(expected)
    }

    /// Decodes an entry.
    pub fn read_entry(&mut self, id: EntryId) -> (result: Result<Vec<u8>, DzipError>)
        requires
            old(self).sound(),
        ensures
            final(self).sound(),
            final(self).same_archive(old(self)),
            read_as(
                result,
                final(self).progress(),
                old(self).metadata(),
                old(self).volumes(),
                old(self).list(),
                id.0 as int,
                old(self).progress(),
            ),
    {
        let expected: u64 = match self.index.entry(id) {
            Some(entry) => entry.decompressed_size(),
            None => return Err(missing_entry(id)),
        };
        if expected > usize::MAX as u64 {
            return Err(
                DzipError::LimitExceeded {
                    resource: "entry size",
                    limit: usize::MAX as u64,
                    actual: expected,
                },
            );
        }
        let mut output: Vec<u8> = Vec::with_capacity(expected as usize);
        assert(output@ =~= seq![]);
        match self.read_entry_to(id, &mut output) {
            Ok(_) => Ok(output),
            Err(error) => Err(error),
        }
    }

    /// Decodes the first entry with the given path.
    pub fn read_entry_by_path(&mut self, path: &[u8]) -> (result: Result<Vec<u8>, DzipError>)
        requires
            old(self).sound(),
        ensures
            final(self).sound(),
            final(self).same_archive(old(self)),
            match first_with(old(self).list(), path@, 0) {
                None => {
                    &&& result matches Err(error) && error@ == Trouble::EntryNotFound(
                        lossy_text(path@),
                    )
                    &&& result matches Err(error) && (valid_utf8(path@) ==> error@
                        == Trouble::EntryNotFound(decode_utf8(path@)))
                    &&& final(self).progress() == old(self).progress()
                },
                Some(i) => read_as(
                    result,
                    final(self).progress(),
                    old(self).metadata(),
                    old(self).volumes(),
                    old(self).list(),
                    i,
                    old(self).progress(),
                ),
            },
    {
        let ghost list = self.index.list();
        let mut i: usize = 0;
        let count: usize = self.index.entries().len();
        assert(count == list.len());
        while i < count
            invariant
                i <= count == list.len(),
                self.sound(),
                *self == *old(self),
                list == self.index.list(),
                first_with(list, path@, 0) == first_with(list, path@, i as int),
            decreases count - i,
        {
            let entries = self.index.entries();
            assert(views_of(entries@)[i as int] == list[i as int]);
            if same_path(entries[i].path(), path) {
                return self.read_entry(EntryId(i));
            }
            i += 1;
        }
        Err(DzipError::EntryNotFound(text_of(path)))
    }

    /// The volumes that reading an entry asks for: those of its chunks, and, where one of them
    /// needs it and it is not loaded yet, those of the common buffer.
    pub fn volumes_needed(&self, id: EntryId) -> (volumes: Vec<u16>)
        ensures
            id.0 >= self.list().len() ==> volumes@ == Seq::<u16>::empty(),
            id.0 < self.list().len() ==> forall|v: u16| #[trigger]
                volumes@.contains(v) <==> needs_volume(
                    self.metadata(),
                    self.progress(),
                    self.list()[id.0 as int],
                    v,
                ),
    {
        let mut volumes: Vec<u16> = Vec::new();
        assert(volumes@ =~= Seq::<u16>::empty());
        let entry = match self.index.entry(id) {
            Some(entry) => entry,
            None => return volumes,
        };
        let ghost segments = entry@.segments;
        let mut loads: bool = false;
        let mut k: usize = 0;
        while k < entry.segments().len()
            invariant
                k <= segments.len(),
                segments == entry@.segments,
                forall|v: u16| #[trigger]
                    volumes@.contains(v) <==> exists|j: int|
                        0 <= j < k && (#[trigger] segments[j]).volume == v,
                loads == exists|j: int|
                    0 <= j < k && (#[trigger] segments[j]).encoding.compression
                        == Compression::Dz,
            decreases segments.len() - k,
        {
            let segment = entry.segments()[k];
            let ghost before = volumes@;
            volumes.push(segment.volume());
            proof {
                lemma_pushed(before, segment.volume);
                assert(segments[k as int] == segment);
            }
            if segment.encoding().compression == Compression::Dz {
                loads = true;
                assert(segments[k as int].encoding.compression == Compression::Dz);
            }
            k += 1;
        }
        if !loads || self.dz_context.is_some() {
            return volumes;
        }
        let ghost own = volumes@;
        let ghost chunks = self.metadata().chunks;
        let mut i: usize = 0;
        while i < self.index.stored_chunks().len()
            invariant
                i <= chunks.len(),
                chunks == self.metadata().chunks,
                forall|v: u16| #[trigger]
                    volumes@.contains(v) <==> own.contains(v) || exists|j: int|
                        0 <= j < i && dedicated_combuf((#[trigger] chunks[j]).flags)
                            && chunks[j].file == v,
            decreases chunks.len() - i,
        {
            let chunk = self.index.stored_chunks()[i];
            assert(chunks[i as int] == chunk);
            if is_dedicated_combuf(chunk.flags) {
                let ghost before = volumes@;
                volumes.push(chunk.file);
                proof {
                    lemma_pushed(before, chunk.file);
                }
            }
            i += 1;
        }
        volumes
    }
}

/// A list with one more value.
proof fn lemma_pushed(list: Seq<u16>, value: u16)
    ensures
        forall|v: u16| #[trigger]
            list.push(value).contains(v) <==> list.contains(v) || v == value,
{
    assert forall|v: u16| #[trigger] list.push(value).contains(v) <==> list.contains(v) || v
        == value by {
        if list.contains(v) {
            let k = choose|k: int| 0 <= k < list.len() && list[k] == v;
            assert(list.push(value)[k] == v);
        }
        if v == value {
            assert(list.push(value)[list.len() as int] == v);
        }
    }
}

/// Reading the entry asks for the volume.
pub open spec fn needs_volume(m: Metadata, p: Progress, entry: EntryView, volume: u16) -> bool {
    ||| exists|j: int| 0 <= j < entry.segments.len() && (#[trigger] entry.segments[j]).volume == volume
    ||| {
        &&& p.setup is None
        &&& exists|j: int|
            0 <= j < entry.segments.len() && (#[trigger] entry.segments[j]).encoding.compression
                == Compression::Dz
        &&& exists|j: int|
            0 <= j < m.chunks.len() && dedicated_combuf((#[trigger] m.chunks[j]).flags)
                && m.chunks[j].file == volume
    }
}

/// The first entry from number `i` on with the path.
pub open spec fn first_with(list: Seq<EntryView>, path: Seq<u8>, i: int) -> Option<int>
    decreases list.len() - i,
{
    if !(0 <= i < list.len()) {
        None
    } else if path_key(list[i].path) == path_key(path) {
        Some(i)
    } else {
        first_with(list, path, i + 1)
    }
}

/// The result of reading the entry with the given number, and the state of the archive after.
pub open spec fn read_as(
    result: Result<Vec<u8>, DzipError>,
    after: Progress,
    m: Metadata,
    volumes: Seq<Option<Seq<u8>>>,
    list: Seq<EntryView>,
    id: int,
    p: Progress,
) -> bool {
    if id >= list.len() {
        &&& result matches Err(error) && error@ == Trouble::EntryNotFound(decimal(id as nat))
        &&& after == p
    } else if list[id].decompressed_size > usize::MAX {
        &&& result matches Err(error) && error@ == over(
            "entry size"@,
            usize::MAX as int,
            list[id].decompressed_size as int,
        )
        &&& after == p
    } else {
        let reading = entry_read(m, volumes, list[id], Seq::empty(), p);
        &&& after == reading.progress
        &&& match reading.trouble {
            None => result matches Ok(bytes) && bytes@ == reading.out,
            Some(trouble) => result matches Err(error) && error@ == trouble,
        }
    }
}

/// The error about an entry that is not there.
fn missing_entry(id: EntryId) -> (error: DzipError)
    ensures
        error@ == Trouble::EntryNotFound(decimal(id.0 as nat)),
{
    let mut text = "".to_owned();
    append_decimal(&mut text, id.0);
    proof {
        reveal_strlit("");
        assert(text@ =~= decimal(id.0 as nat));
    }
    DzipError::EntryNotFound(text)
}

/// The smallest volume number from `from` on among the chunks.
fn find_next_volume(chunks: &[Chunk], from: u32) -> (found: Option<u16>)
    ensures
        match next_volume(chunks@, from as int, chunks@.len()) {
            None => found is None,
            Some(id) => found matches Some(got) && got == id && from <= got,
        },
{
    let mut found: Option<u16> = None;
    let mut i: usize = 0;
    while i < chunks.len()
        invariant
            i <= chunks@.len(),
            match next_volume(chunks@, from as int, i as nat) {
                None => found is None,
                Some(id) => found matches Some(got) && got == id && from <= got,
            },
        decreases chunks@.len() - i,
    {
        let file: u16 = chunks[i].file;
        if file as u32 >= from {
            found = match found {
                Some(best) if best <= file => Some(best),
                _ => Some(file),
            };
        }
        i += 1;
    }
    found
}

} // verus!
