//! Reading and writing of the metadata at the start of an archive.

use vstd::prelude::*;

use crate::codecs::dz::RangeSettings;
use crate::compat::flags_require_range_settings;
use crate::error::{check_limit, ended, invalid_archive, unexpected_end, DzipError, Trouble};
use crate::format::{
    names_of, records_of, ArchiveSettings, Chunk, ChunkSettings, FileRecord, Metadata, RawArchive,
    RawFileRecord, ARCHIVE_MAGIC, CHUNK_DZ, LIST_END,
};
use crate::options::{ReadLimits, ReadOptions};

verus! {

/// The archive ends within its metadata.
pub open spec fn cut_short() -> Trouble {
    ended()
}

pub open spec fn over(resource: Seq<char>, limit: int, actual: int) -> Trouble {
    Trouble::LimitExceeded { resource, limit: limit as u64, actual: actual as u64 }
}

/// A 16-bit number, the low byte first.
pub open spec fn short(value: u16) -> Seq<u8> {
    seq![(value % 0x100) as u8, (value / 0x100) as u8]
}

/// A 32-bit number, the low byte first.
pub open spec fn long(value: u32) -> Seq<u8> {
    seq![
        (value % 0x100) as u8,
        (value / 0x100 % 0x100) as u8,
        (value / 0x1_0000 % 0x100) as u8,
        (value / 0x100_0000) as u8,
    ]
}

pub open spec fn short_at(data: Seq<u8>, p: int) -> u16 {
    (data[p] + 0x100 * data[p + 1]) as u16
}

pub open spec fn long_at(data: Seq<u8>, p: int) -> u32 {
    (data[p] + 0x100 * data[p + 1] + 0x1_0000 * data[p + 2] + 0x100_0000 * data[p + 3]) as u32
}

/// The part of `data` from `p` on begins with `part`.
pub open spec fn holds(data: Seq<u8>, p: int, part: Seq<u8>) -> bool {
    &&& 0 <= p
    &&& p + part.len() <= data.len()
    &&& data.subrange(p, p + part.len()) == part
}

pub proof fn lemma_holds_parts(data: Seq<u8>, p: int, a: Seq<u8>, b: Seq<u8>)
    requires
        holds(data, p, a + b),
    ensures
        holds(data, p, a),
        holds(data, p + a.len(), b),
{
    let whole = data.subrange(p, p + (a + b).len());
    assert(data.subrange(p, p + a.len()) =~= a) by {
        assert forall|i: int| 0 <= i < a.len() implies data[p + i] == a[i] by {
            assert(whole[i] == (a + b)[i]);
        }
    }
    assert(data.subrange(p + a.len(), p + a.len() + b.len()) =~= b) by {
        assert forall|i: int| 0 <= i < b.len() implies data[p + a.len() + i] == b[i] by {
            assert(whole[a.len() + i] == (a + b)[a.len() + i]);
        }
    }
}

pub proof fn lemma_short(data: Seq<u8>, p: int, value: u16)
    requires
        holds(data, p, short(value)),
    ensures
        short_at(data, p) == value,
{
    let part = data.subrange(p, p + 2);
    assert(part[0] == short(value)[0] && part[1] == short(value)[1]);
}

pub proof fn lemma_long(data: Seq<u8>, p: int, value: u32)
    requires
        holds(data, p, long(value)),
    ensures
        long_at(data, p) == value,
{
    let part = data.subrange(p, p + 4);
    assert(part[0] == long(value)[0] && part[1] == long(value)[1] && part[2] == long(value)[2]
        && part[3] == long(value)[3]);
    let a = value / 0x100;
    let b = value / 0x1_0000;
    assert(b == a / 0x100);
    assert(value / 0x100_0000 == b / 0x100);
}

/// A name and its closing zero.
pub open spec fn name_bytes(name: Seq<u8>) -> Seq<u8> {
    name.push(0)
}

/// The names from number `i` on.
pub open spec fn names_bytes(names: Seq<Seq<u8>>, i: int) -> Seq<u8>
    decreases names.len() - i,
{
    if i >= names.len() {
        seq![]
    } else {
        name_bytes(names[i]) + names_bytes(names, i + 1)
    }
}

/// The chunk numbers of a file from number `i` on, and the end of the list.
pub open spec fn numbers_bytes(numbers: Seq<u16>, i: int) -> Seq<u8>
    decreases numbers.len() - i,
{
    if i >= numbers.len() {
        short(LIST_END)
    } else {
        short(numbers[i]) + numbers_bytes(numbers, i + 1)
    }
}

/// The records of the files from number `i` on.
pub open spec fn records_bytes(files: Seq<FileRecord>, i: int) -> Seq<u8>
    decreases files.len() - i,
{
    if i >= files.len() {
        seq![]
    } else {
        short(files[i].directory) + (numbers_bytes(files[i].chunks, 0) + records_bytes(
            files,
            i + 1,
        ))
    }
}

pub open spec fn chunk_bytes(chunk: Chunk) -> Seq<u8> {
    long(chunk.offset) + (long(chunk.compressed_length) + (long(chunk.decompressed_length) + (short(
        chunk.flags,
    ) + short(chunk.file))))
}

/// The records of the chunks from number `i` on.
pub open spec fn chunks_bytes(chunks: Seq<Chunk>, i: int) -> Seq<u8>
    decreases chunks.len() - i,
{
    if i >= chunks.len() {
        seq![]
    } else {
        chunk_bytes(chunks[i]) + chunks_bytes(chunks, i + 1)
    }
}

pub open spec fn settings_bytes(settings: ArchiveSettings) -> Seq<u8> {
    long(settings.header) + (short(settings.num_user_files) + (short(settings.num_directories)
        + seq![settings.version]))
}

pub open spec fn range_bytes(range: RangeSettings) -> Seq<u8> {
    seq![
        range.win_size,
        range.flags,
        range.offset_table_size,
        range.offset_tables,
        range.offset_contexts,
        range.ref_length_table_size,
        range.ref_length_tables,
        range.ref_offset_table_size,
        range.ref_offset_tables,
        range.big_min_match,
    ]
}

pub open spec fn optional_range_bytes(range: Option<RangeSettings>) -> Seq<u8> {
    match range {
        Some(range) => range_bytes(range),
        None => seq![],
    }
}

/// The metadata as they are stored.
#[verifier::opaque]
pub open spec fn metadata_bytes(m: Metadata) -> Seq<u8> {
    settings_bytes(m.settings) + (names_bytes(m.strings, 0) + (records_bytes(m.files, 0) + ((short(
        m.counts.num_archive_files,
    ) + short(m.counts.num_chunks)) + (chunks_bytes(m.chunks, 0) + (names_bytes(m.volumes, 0)
        + optional_range_bytes(m.range))))))
}

/// The first zero from `p` on, or the end.
pub open spec fn name_end(data: Seq<u8>, p: int) -> int
    decreases data.len() - p,
{
    if p >= data.len() || data[p] == 0 {
        p
    } else {
        name_end(data, p + 1)
    }
}

/// `count` further names from `p` on, of which `used` bytes of `budget` are taken.
pub open spec fn names_at(
    data: Seq<u8>,
    p: int,
    count: nat,
    names: Seq<Seq<u8>>,
    longest: usize,
    used: int,
    budget: usize,
) -> Result<(Seq<Seq<u8>>, int), Trouble>
    decreases count,
{
    if count == 0 {
        Ok((names, p))
    } else {
        let end = name_end(data, p);
        if end >= data.len() {
            Err(cut_short())
        } else if end - p > longest {
            Err(over("string length"@, longest as int, end - p))
        } else if used + (end - p + 1) > budget {
            Err(over("metadata bytes"@, budget as int, used + (end - p + 1)))
        } else {
            names_at(
                data,
                end + 1,
                (count - 1) as nat,
                names.push(data.subrange(p, end)),
                longest,
                used + (end - p + 1),
                budget,
            )
        }
    }
}

/// Further chunk numbers from `p` on, up to the end of the list.
pub open spec fn numbers_at(data: Seq<u8>, p: int, numbers: Seq<u16>, limits: ReadLimits, used: int) -> Result<
    (Seq<u16>, int),
    Trouble,
>
    decreases data.len() - p,
{
    if p + 2 > data.len() {
        Err(cut_short())
    } else if short_at(data, p) == LIST_END {
        Ok((numbers, p + 2))
    } else if numbers.len() + 1 > limits.max_chunks {
        Err(over("file chunk count"@, limits.max_chunks as int, (numbers.len() + 1) as int))
    } else if used + numbers.len() + 1 > limits.max_chunk_references {
        Err(
            over(
                "chunk references"@,
                limits.max_chunk_references as int,
                (used + numbers.len() + 1) as int,
            ),
        )
    } else {
        numbers_at(data, p + 2, numbers.push(short_at(data, p)), limits, used)
    }
}

/// `count` further file records from `p` on, after `used` chunk numbers.
pub open spec fn records_at(
    data: Seq<u8>,
    p: int,
    count: nat,
    files: Seq<FileRecord>,
    limits: ReadLimits,
    used: int,
) -> Result<(Seq<FileRecord>, int), Trouble>
    decreases count,
{
    if count == 0 {
        Ok((files, p))
    } else if p + 2 > data.len() {
        Err(cut_short())
    } else {
        match numbers_at(data, p + 2, seq![], limits, used) {
            Err(trouble) => Err(trouble),
            Ok((chunks, next)) => records_at(
                data,
                next,
                (count - 1) as nat,
                files.push(FileRecord { directory: short_at(data, p), chunks }),
                limits,
                used + chunks.len(),
            ),
        }
    }
}

pub open spec fn chunk_at(data: Seq<u8>, p: int) -> Chunk {
    Chunk {
        offset: long_at(data, p),
        compressed_length: long_at(data, p + 4),
        decompressed_length: long_at(data, p + 8),
        flags: short_at(data, p + 12),
        file: short_at(data, p + 14),
    }
}

/// `count` further chunk records from `p` on.
pub open spec fn chunks_at(data: Seq<u8>, p: int, count: nat, chunks: Seq<Chunk>) -> Result<
    (Seq<Chunk>, int),
    Trouble,
>
    decreases count,
{
    if count == 0 {
        Ok((chunks, p))
    } else if p + 16 > data.len() {
        Err(cut_short())
    } else {
        chunks_at(data, p + 16, (count - 1) as nat, chunks.push(chunk_at(data, p)))
    }
}

pub open spec fn settings_at(data: Seq<u8>) -> Result<ArchiveSettings, Trouble> {
    if data.len() < 9 {
        Err(cut_short())
    } else if long_at(data, 0) != ARCHIVE_MAGIC {
        Err(Trouble::InvalidHeader)
    } else if data[8] != 0 {
        Err(Trouble::UnsupportedVersion(data[8]))
    } else {
        Ok(
            ArchiveSettings {
                header: ARCHIVE_MAGIC,
                num_user_files: short_at(data, 4),
                num_directories: short_at(data, 6),
                version: data[8],
            },
        )
    }
}

/// Some chunk carries the DZ flag.
pub open spec fn wants_range(chunks: Seq<Chunk>) -> bool {
    exists|i: int| 0 <= i < chunks.len() && (#[trigger] chunks[i]).flags & CHUNK_DZ != 0
}

pub open spec fn range_at(data: Seq<u8>, p: int) -> RangeSettings {
    RangeSettings {
        win_size: data[p],
        flags: data[p + 1],
        offset_table_size: data[p + 2],
        offset_tables: data[p + 3],
        offset_contexts: data[p + 4],
        ref_length_table_size: data[p + 5],
        ref_length_tables: data[p + 6],
        ref_offset_table_size: data[p + 7],
        ref_offset_tables: data[p + 8],
        big_min_match: data[p + 9],
    }
}

/// The end of the metadata: the names of further volumes and the range settings.
pub open spec fn tail_at(
    data: Seq<u8>,
    p: int,
    limits: ReadLimits,
    settings: ArchiveSettings,
    strings: Seq<Seq<u8>>,
    files: Seq<FileRecord>,
    counts: ChunkSettings,
    chunks: Seq<Chunk>,
) -> Result<Metadata, Trouble> {
    if p > limits.max_metadata_bytes {
        Err(over("metadata bytes"@, limits.max_metadata_bytes as int, p))
    } else {
        match names_at(
            data,
            p,
            (counts.num_archive_files - 1) as nat,
            seq![],
            limits.max_string_length,
            0,
            (limits.max_metadata_bytes - p) as usize,
        ) {
            Err(trouble) => Err(trouble),
            Ok((volumes, p)) => if !wants_range(chunks) {
                Ok(Metadata { settings, strings, files, counts, chunks, volumes, range: None })
            } else if p + 10 > data.len() {
                Err(cut_short())
            } else if p + 10 > limits.max_metadata_bytes {
                Err(over("metadata bytes"@, limits.max_metadata_bytes as int, p + 10))
            } else {
                Ok(
                    Metadata {
                        settings,
                        strings,
                        files,
                        counts,
                        chunks,
                        volumes,
                        range: Some(range_at(data, p)),
                    },
                )
            },
        }
    }
}

/// The chunk records and what follows them.
pub open spec fn body_at(
    data: Seq<u8>,
    p: int,
    limits: ReadLimits,
    settings: ArchiveSettings,
    strings: Seq<Seq<u8>>,
    files: Seq<FileRecord>,
) -> Result<Metadata, Trouble> {
    if p + 4 > data.len() {
        Err(cut_short())
    } else {
        let counts = ChunkSettings {
            num_archive_files: short_at(data, p),
            num_chunks: short_at(data, p + 2),
        };
        if counts.num_chunks > limits.max_chunks {
            Err(over("chunk count"@, limits.max_chunks as int, counts.num_chunks as int))
        } else if counts.num_archive_files == 0 {
            Err(Trouble::InvalidArchive("archive declares zero volumes"@))
        } else {
            match chunks_at(data, p + 4, counts.num_chunks as nat, seq![]) {
                Err(trouble) => Err(trouble),
                Ok((chunks, p)) => tail_at(
                    data,
                    p,
                    limits,
                    settings,
                    strings,
                    files,
                    counts,
                    chunks,
                ),
            }
        }
    }
}

/// The metadata that an archive begins with.
pub open spec fn parse(data: Seq<u8>, limits: ReadLimits) -> Result<Metadata, Trouble> {
    match settings_at(data) {
        Err(trouble) => Err(trouble),
        Ok(settings) => if settings.num_user_files > limits.max_entries {
            Err(over("entry count"@, limits.max_entries as int, settings.num_user_files as int))
        } else if settings.num_user_files + settings.num_directories == 0 {
            Err(Trouble::InvalidArchive("invalid metadata string count"@))
        } else {
            match names_at(
                data,
                9,
                (settings.num_user_files + settings.num_directories - 1) as nat,
                seq![],
                limits.max_string_length,
                0,
                limits.max_metadata_bytes,
            ) {
                Err(trouble) => Err(trouble),
                Ok((strings, p)) => match records_at(
                    data,
                    p,
                    settings.num_user_files as nat,
                    seq![],
                    limits,
                    0,
                ) {
                    Err(trouble) => Err(trouble),
                    Ok((files, p)) => body_at(data, p, limits, settings, strings, files),
                },
            }
        },
    }
}

/// Metadata that a reader takes as they were meant.
pub open spec fn writable(m: Metadata) -> bool {
    &&& m.settings.header == ARCHIVE_MAGIC
    &&& m.settings.version == 0
    &&& m.settings.num_user_files == m.files.len()
    &&& m.settings.num_user_files + m.settings.num_directories >= 1
    &&& m.strings.len() == m.settings.num_user_files + m.settings.num_directories - 1
    &&& m.counts.num_chunks == m.chunks.len()
    &&& m.counts.num_archive_files == m.volumes.len() + 1
    &&& all_names(m.strings)
    &&& all_names(m.volumes)
    &&& forall|i: int| 0 <= i < m.files.len() ==> plain_numbers((#[trigger] m.files[i]).chunks)
    &&& (m.range is Some) == wants_range(m.chunks)
}

/// Names hold no zeros.
pub open spec fn all_names(names: Seq<Seq<u8>>) -> bool {
    forall|i: int| 0 <= i < names.len() ==> plain_name(#[trigger] names[i])
}

pub open spec fn plain_name(name: Seq<u8>) -> bool {
    forall|i: int| 0 <= i < name.len() ==> #[trigger] name[i] != 0
}

/// Chunk numbers differ from the end of a list.
pub open spec fn plain_numbers(numbers: Seq<u16>) -> bool {
    forall|i: int| 0 <= i < numbers.len() ==> #[trigger] numbers[i] != LIST_END
}

proof fn lemma_name_end(data: Seq<u8>, p: int, name: Seq<u8>, i: int)
    requires
        holds(data, p, name_bytes(name)),
        plain_name(name),
        0 <= i <= name.len(),
    ensures
        name_end(data, p + i) == p + name.len(),
    decreases name.len() - i,
{
    let part = data.subrange(p, p + name.len() + 1);
    assert(part[i] == name_bytes(name)[i]);
    if i < name.len() {
        lemma_name_end(data, p, name, i + 1);
    }
}

proof fn lemma_names_at(data: Seq<u8>, p: int, names: Seq<Seq<u8>>, i: int, used: int, budget: usize)
    requires
        0 <= i <= names.len(),
        all_names(names),
        holds(data, p, names_bytes(names, i)),
        0 <= used,
        data.len() <= usize::MAX,
        used + names_bytes(names, i).len() <= budget,
    ensures
        names_at(
            data,
            p,
            (names.len() - i) as nat,
            names.take(i),
            usize::MAX,
            used,
            budget,
        ) == Ok::<(Seq<Seq<u8>>, int), Trouble>((names, p + names_bytes(names, i).len())),
    decreases names.len() - i,
{
    if i < names.len() {
        let name = names[i];
        lemma_holds_parts(data, p, name_bytes(name), names_bytes(names, i + 1));
        lemma_name_end(data, p, name, 0);
        let part = data.subrange(p, p + name.len() + 1);
        assert(data.subrange(p, p + name.len()) =~= name) by {
            assert forall|k: int| 0 <= k < name.len() implies data[p + k] == name[k] by {
                assert(part[k] == name_bytes(name)[k]);
            }
        }
        assert(names.take(i).push(name) =~= names.take(i + 1));
        lemma_names_at(
            data,
            p + name.len() + 1,
            names,
            i + 1,
            used + (name.len() + 1),
            budget,
        );
    } else {
        assert(names.take(i) =~= names);
    }
}

proof fn lemma_numbers_at(data: Seq<u8>, p: int, numbers: Seq<u16>, i: int, used: int)
    requires
        0 <= i <= numbers.len(),
        plain_numbers(numbers),
        holds(data, p, numbers_bytes(numbers, i)),
        0 <= used,
        used + numbers.len() <= usize::MAX,
    ensures
        numbers_at(data, p, numbers.take(i), ReadLimits::no_limits(), used) == Ok::<
            (Seq<u16>, int),
            Trouble,
        >((numbers, p + numbers_bytes(numbers, i).len())),
    decreases numbers.len() - i,
{
    if i < numbers.len() {
        lemma_holds_parts(data, p, short(numbers[i]), numbers_bytes(numbers, i + 1));
        lemma_short(data, p, numbers[i]);
        assert(numbers.take(i).push(numbers[i]) =~= numbers.take(i + 1));
        lemma_numbers_at(data, p + 2, numbers, i + 1, used);
    } else {
        lemma_short(data, p, LIST_END);
        assert(numbers.take(i) =~= numbers);
    }
}

proof fn lemma_numbers_length(numbers: Seq<u16>, i: int)
    requires
        0 <= i <= numbers.len(),
    ensures
        numbers_bytes(numbers, i).len() == 2 * (numbers.len() - i) + 2,
    decreases numbers.len() - i,
{
    if i < numbers.len() {
        lemma_numbers_length(numbers, i + 1);
    }
}

proof fn lemma_records_at(data: Seq<u8>, p: int, files: Seq<FileRecord>, i: int, used: int)
    requires
        0 <= i <= files.len(),
        forall|k: int| 0 <= k < files.len() ==> plain_numbers((#[trigger] files[k]).chunks),
        holds(data, p, records_bytes(files, i)),
        0 <= used <= p,
        data.len() <= usize::MAX,
    ensures
        records_at(
            data,
            p,
            (files.len() - i) as nat,
            files.take(i),
            ReadLimits::no_limits(),
            used,
        ) == Ok::<(Seq<FileRecord>, int), Trouble>((files, p + records_bytes(files, i).len())),
    decreases files.len() - i,
{
    if i < files.len() {
        let file = files[i];
        let numbers = numbers_bytes(file.chunks, 0);
        let rest = records_bytes(files, i + 1);
        lemma_holds_parts(data, p, short(file.directory), numbers + rest);
        lemma_holds_parts(data, p + 2, numbers, rest);
        lemma_short(data, p, file.directory);
        lemma_numbers_length(file.chunks, 0);
        assert(file.chunks.take(0) =~= seq![]);
        lemma_numbers_at(data, p + 2, file.chunks, 0, used);
        assert(files.take(i).push(file) =~= files.take(i + 1));
        lemma_records_at(data, p + 2 + numbers.len(), files, i + 1, used + file.chunks.len());
    } else {
        assert(files.take(i) =~= files);
    }
}

proof fn lemma_chunk_at(data: Seq<u8>, p: int, chunk: Chunk)
    requires
        holds(data, p, chunk_bytes(chunk)),
    ensures
        chunk_at(data, p) == chunk,
        chunk_bytes(chunk).len() == 16,
{
    let e = short(chunk.file);
    let d = short(chunk.flags) + e;
    let c = long(chunk.decompressed_length) + d;
    let b = long(chunk.compressed_length) + c;
    lemma_holds_parts(data, p, long(chunk.offset), b);
    lemma_holds_parts(data, p + 4, long(chunk.compressed_length), c);
    lemma_holds_parts(data, p + 8, long(chunk.decompressed_length), d);
    lemma_holds_parts(data, p + 12, short(chunk.flags), e);
    lemma_long(data, p, chunk.offset);
    lemma_long(data, p + 4, chunk.compressed_length);
    lemma_long(data, p + 8, chunk.decompressed_length);
    lemma_short(data, p + 12, chunk.flags);
    lemma_short(data, p + 14, chunk.file);
}

proof fn lemma_chunks_at(data: Seq<u8>, p: int, chunks: Seq<Chunk>, i: int)
    requires
        0 <= i <= chunks.len(),
        holds(data, p, chunks_bytes(chunks, i)),
    ensures
        chunks_at(data, p, (chunks.len() - i) as nat, chunks.take(i)) == Ok::<
            (Seq<Chunk>, int),
            Trouble,
        >((chunks, p + chunks_bytes(chunks, i).len())),
    decreases chunks.len() - i,
{
    if i < chunks.len() {
        lemma_holds_parts(data, p, chunk_bytes(chunks[i]), chunks_bytes(chunks, i + 1));
        lemma_chunk_at(data, p, chunks[i]);
        assert(chunks.take(i).push(chunks[i]) =~= chunks.take(i + 1));
        lemma_chunks_at(data, p + 16, chunks, i + 1);
    } else {
        assert(chunks.take(i) =~= chunks);
    }
}

proof fn lemma_settings_at(data: Seq<u8>, settings: ArchiveSettings)
    requires
        holds(data, 0, settings_bytes(settings)),
        settings.header == ARCHIVE_MAGIC,
        settings.version == 0,
    ensures
        settings_at(data) == Ok::<ArchiveSettings, Trouble>(settings),
        settings_bytes(settings).len() == 9,
{
    let c = short(settings.num_directories) + seq![settings.version];
    let b = short(settings.num_user_files) + c;
    lemma_holds_parts(data, 0, long(settings.header), b);
    lemma_holds_parts(data, 4, short(settings.num_user_files), c);
    lemma_holds_parts(data, 6, short(settings.num_directories), seq![settings.version]);
    lemma_long(data, 0, settings.header);
    lemma_short(data, 4, settings.num_user_files);
    lemma_short(data, 6, settings.num_directories);
    let part = data.subrange(8, 9);
    assert(part[0] == seq![settings.version][0]);
}

proof fn lemma_range_at(data: Seq<u8>, p: int, range: RangeSettings)
    requires
        holds(data, p, range_bytes(range)),
    ensures
        range_at(data, p) == range,
        range_bytes(range).len() == 10,
{
    let part = data.subrange(p, p + 10);
    let bytes = range_bytes(range);
    assert(part[0] == bytes[0] && part[1] == bytes[1] && part[2] == bytes[2] && part[3] == bytes[3]
        && part[4] == bytes[4] && part[5] == bytes[5] && part[6] == bytes[6] && part[7] == bytes[7]
        && part[8] == bytes[8] && part[9] == bytes[9]);
}

proof fn lemma_tail_at(data: Seq<u8>, p: int, m: Metadata)
    requires
        writable(m),
        data.len() <= usize::MAX,
        holds(data, p, names_bytes(m.volumes, 0) + optional_range_bytes(m.range)),
    ensures
        tail_at(
            data,
            p,
            ReadLimits::no_limits(),
            m.settings,
            m.strings,
            m.files,
            m.counts,
            m.chunks,
        ) == Ok::<Metadata, Trouble>(m),
{
    lemma_holds_parts(data, p, names_bytes(m.volumes, 0), optional_range_bytes(m.range));
    assert(m.volumes.take(0) =~= seq![]);
    lemma_names_at(data, p, m.volumes, 0, 0, (usize::MAX - p) as usize);
    if let Some(range) = m.range {
        lemma_range_at(data, p + names_bytes(m.volumes, 0).len(), range);
    }
}

proof fn lemma_body_at(data: Seq<u8>, p: int, m: Metadata)
    requires
        writable(m),
        data.len() <= usize::MAX,
        holds(
            data,
            p,
            (short(m.counts.num_archive_files) + short(m.counts.num_chunks)) + (chunks_bytes(
                m.chunks,
                0,
            ) + (names_bytes(m.volumes, 0) + optional_range_bytes(m.range))),
        ),
    ensures
        body_at(data, p, ReadLimits::no_limits(), m.settings, m.strings, m.files) == Ok::<
            Metadata,
            Trouble,
        >(m),
{
    let tail = names_bytes(m.volumes, 0) + optional_range_bytes(m.range);
    let counts = short(m.counts.num_archive_files) + short(m.counts.num_chunks);
    lemma_holds_parts(data, p, counts, chunks_bytes(m.chunks, 0) + tail);
    lemma_holds_parts(
        data,
        p,
        short(m.counts.num_archive_files),
        short(m.counts.num_chunks),
    );
    lemma_short(data, p, m.counts.num_archive_files);
    lemma_short(data, p + 2, m.counts.num_chunks);
    lemma_holds_parts(data, p + 4, chunks_bytes(m.chunks, 0), tail);
    assert(m.chunks.take(0) =~= seq![]);
    lemma_chunks_at(data, p + 4, m.chunks, 0);
    lemma_tail_at(data, p + 4 + chunks_bytes(m.chunks, 0).len(), m);
}

/// Stored metadata are read as they were written, whatever follows them.
pub proof fn lemma_metadata_round_trip(m: Metadata, data: Seq<u8>)
    requires
        writable(m),
        data.len() <= usize::MAX,
        holds(data, 0, metadata_bytes(m)),
    ensures
        parse(data, ReadLimits::no_limits()) == Ok::<Metadata, Trouble>(m),
{
    reveal(metadata_bytes);
    let body = (short(m.counts.num_archive_files) + short(m.counts.num_chunks)) + (chunks_bytes(
        m.chunks,
        0,
    ) + (names_bytes(m.volumes, 0) + optional_range_bytes(m.range)));
    let records = records_bytes(m.files, 0);
    let names = names_bytes(m.strings, 0);
    lemma_holds_parts(data, 0, settings_bytes(m.settings), names + (records + body));
    lemma_settings_at(data, m.settings);
    lemma_holds_parts(data, 9, names, records + body);
    lemma_holds_parts(data, (9 + names.len()) as int, records, body);
    assert(m.strings.take(0) =~= seq![]);
    assert(m.files.take(0) =~= seq![]);
    lemma_names_at(data, 9, m.strings, 0, 0, usize::MAX);
    lemma_records_at(data, (9 + names.len()) as int, m.files, 0, 0);
    lemma_body_at(data, (9 + names.len() + records.len()) as int, m);
}

fn cut() -> (error: DzipError)
    ensures
        error@ == cut_short(),
{
    unexpected_end()
}

fn read_short(data: &[u8], p: usize) -> (value: u16)
    requires
        p + 2 <= data@.len(),
    ensures
        value == short_at(data@, p as int),
{
    let size: usize = data.len();
    assert(p + 2 <= size);
    data[p] as u16 + 0x100 * data[p + 1] as u16
}

fn read_long(data: &[u8], p: usize) -> (value: u32)
    requires
        p + 4 <= data@.len(),
    ensures
        value == long_at(data@, p as int),
{
    let size: usize = data.len();
    assert(p + 4 <= size);
    data[p] as u32 + 0x100 * data[p + 1] as u32 + 0x1_0000 * data[p + 2] as u32 + 0x100_0000
        * data[p + 3] as u32
}

/// Reads names that end in zeros.
fn read_names(data: &[u8], start: usize, count: usize, longest: usize, budget: usize) -> (result:
    Result<(Vec<Vec<u8>>, usize), DzipError>)
    requires
        start <= data@.len(),
    ensures
        match names_at(data@, start as int, count as nat, seq![], longest, 0, budget) {
            Ok((names, next)) => result matches Ok((list, end)) && names_of(list@) == names && end
                == next && next <= data@.len(),
            Err(trouble) => result matches Err(error) && error@ == trouble,
        },
{
    let size: usize = data.len();
    let mut list: Vec<Vec<u8>> = Vec::new();
    let mut p: usize = start;
    let mut left: usize = count;
    let mut used: usize = 0;
    assert(names_of(list@) =~= seq![]);
    while left > 0
        invariant
            start <= p <= size,
            size == data@.len(),
            used <= p - start,
            names_at(data@, start as int, count as nat, seq![], longest, 0, budget) == names_at(
                data@,
                p as int,
                left as nat,
                names_of(list@),
                longest,
                used as int,
                budget,
            ),
        decreases left,
    {
        let mut end: usize = p;
        while end < size && data[end] != 0
            invariant
                p <= end <= size,
                size == data@.len(),
                name_end(data@, p as int) == name_end(data@, end as int),
            decreases size - end,
        {
            end += 1;
        }
        if end >= size {
            return Err(cut());
        }
        let length: usize = end - p;
        match check_limit("string length", longest as u64, length as u64) {
            Ok(()) => {},
            Err(error) => return Err(error),
        }
        match check_limit("metadata bytes", budget as u64, (used + (length + 1)) as u64) {
            Ok(()) => {},
            Err(error) => return Err(error),
        }
        let mut name: Vec<u8> = Vec::with_capacity(length);
        name.extend_from_slice(vstd::slice::slice_subrange(data, p, end));
        let ghost before = list@;
        assert(name@ =~= data@.subrange(p as int, end as int));
        list.push(name);
        assert(names_of(list@) =~= names_of(before).push(name@));
        used = used + (length + 1);
        p = end + 1;
        left -= 1;
    }
    Ok((list, p))
}

/// Reads the chunk numbers of a file.
fn read_numbers(data: &[u8], start: usize, limits: &ReadLimits, used: usize) -> (result: Result<
    (Vec<u16>, usize),
    DzipError,
>)
    requires
        start <= data@.len(),
        used <= start,
    ensures
        match numbers_at(data@, start as int, seq![], *limits, used as int) {
            Ok((numbers, next)) => result matches Ok((list, end)) && list@ == numbers && end
                == next && start <= next <= data@.len() && used + numbers.len() <= next,
            Err(trouble) => result matches Err(error) && error@ == trouble,
        },
{
    let size: usize = data.len();
    let mut list: Vec<u16> = Vec::new();
    let mut p: usize = start;
    assert(list@ =~= seq![]);
    loop
        invariant
            start <= p <= size,
            size == data@.len(),
            used <= start,
            list@.len() <= p - start,
            numbers_at(data@, start as int, seq![], *limits, used as int) == numbers_at(
                data@,
                p as int,
                list@,
                *limits,
                used as int,
            ),
        decreases size - p,
    {
        if size - p < 2 {
            return Err(cut());
        }
        let number: u16 = read_short(data, p);
        if number == LIST_END {
            return Ok((list, p + 2));
        }
        let count: usize = list.len() + 1;
        match check_limit("file chunk count", limits.max_chunks as u64, count as u64) {
            Ok(()) => {},
            Err(error) => return Err(error),
        }
        match check_limit(
            "chunk references",
            limits.max_chunk_references as u64,
            (used + count) as u64,
        ) {
            Ok(()) => {},
            Err(error) => return Err(error),
        }
        list.push(number);
        p = p + 2;
    }
}

/// Reads the records of the files.
fn read_records(data: &[u8], start: usize, count: usize, limits: &ReadLimits) -> (result: Result<
    (Vec<RawFileRecord>, usize),
    DzipError,
>)
    requires
        start <= data@.len(),
    ensures
        match records_at(data@, start as int, count as nat, seq![], *limits, 0) {
            Ok((files, next)) => result matches Ok((list, end)) && records_of(list@) == files
                && end == next && next <= data@.len(),
            Err(trouble) => result matches Err(error) && error@ == trouble,
        },
{
    let size: usize = data.len();
    let mut list: Vec<RawFileRecord> = Vec::new();
    let mut p: usize = start;
    let mut left: usize = count;
    let mut used: usize = 0;
    assert(records_of(list@) =~= seq![]);
    while left > 0
        invariant
            start <= p <= size,
            size == data@.len(),
            used <= p,
            records_at(data@, start as int, count as nat, seq![], *limits, 0) == records_at(
                data@,
                p as int,
                left as nat,
                records_of(list@),
                *limits,
                used as int,
            ),
        decreases left,
    {
        if size - p < 2 {
            return Err(cut());
        }
        let directory_id: u16 = read_short(data, p);
        let (chunk_ids, next) = match read_numbers(data, p + 2, limits, used) {
            Ok(found) => found,
            Err(error) => return Err(error),
        };
        used = used + chunk_ids.len();
        let ghost before = list@;
        let record = RawFileRecord { directory_id, chunk_ids };
        list.push(record);
        assert(records_of(list@) =~= records_of(before).push(record@));
        p = next;
        left -= 1;
    }
    Ok((list, p))
}

/// Reads the records of the chunks.
fn read_chunks(data: &[u8], start: usize, count: usize) -> (result: Result<
    (Vec<Chunk>, usize),
    DzipError,
>)
    requires
        start <= data@.len(),
    ensures
        match chunks_at(data@, start as int, count as nat, seq![]) {
            Ok((chunks, next)) => result matches Ok((list, end)) && list@ == chunks && end == next
                && next <= data@.len(),
            Err(trouble) => result matches Err(error) && error@ == trouble,
        },
{
    let size: usize = data.len();
    let mut list: Vec<Chunk> = Vec::new();
    let mut p: usize = start;
    let mut left: usize = count;
    assert(list@ =~= seq![]);
    while left > 0
        invariant
            start <= p <= size,
            size == data@.len(),
            chunks_at(data@, start as int, count as nat, seq![]) == chunks_at(
                data@,
                p as int,
                left as nat,
                list@,
            ),
        decreases left,
    {
        if size - p < 16 {
            return Err(cut());
        }
        list.push(
            Chunk {
                offset: read_long(data, p),
                compressed_length: read_long(data, p + 4),
                decompressed_length: read_long(data, p + 8),
                flags: read_short(data, p + 12),
                file: read_short(data, p + 14),
            },
        );
        p = p + 16;
        left -= 1;
    }
    Ok((list, p))
}

fn any_wants_range(chunks: &Vec<Chunk>) -> (wants: bool)
    ensures
        wants == wants_range(chunks@),
{
    let mut i: usize = 0;
    while i < chunks.len()
        invariant
            i <= chunks@.len(),
            forall|k: int| 0 <= k < i ==> (#[trigger] chunks@[k]).flags & CHUNK_DZ == 0,
        decreases chunks@.len() - i,
    {
        if flags_require_range_settings(chunks[i].flags) {
            return true;
        }
        i += 1;
    }
    false
}

fn read_settings(data: &[u8]) -> (result: Result<ArchiveSettings, DzipError>)
    ensures
        match settings_at(data@) {
            Ok(settings) => result matches Ok(got) && got == settings,
            Err(trouble) => result matches Err(error) && error@ == trouble,
        },
        result is Ok ==> data@.len() >= 9,
{
    if data.len() < 9 {
        return Err(cut());
    }
    let header: u32 = read_long(data, 0);
    if header != ARCHIVE_MAGIC {
        return Err(DzipError::InvalidHeader);
    }
    let version: u8 = data[8];
    if version != 0 {
        return Err(DzipError::UnsupportedVersion(version));
    }
    Ok(
        ArchiveSettings {
            header,
            num_user_files: read_short(data, 4),
            num_directories: read_short(data, 6),
            version,
        },
    )
}

/// Reads the metadata that an archive begins with.
pub fn parse_metadata(data: &[u8], options: &ReadOptions) -> (result: Result<RawArchive, DzipError>)
    ensures
        match parse(data@, options.limits) {
            Ok(metadata) => result matches Ok(archive) && archive@ == metadata,
            Err(trouble) => result matches Err(error) && error@ == trouble,
        },
{
    let limits = options.limits;
    let size: usize = data.len();
    let settings = match read_settings(data) {
        Ok(settings) => settings,
        Err(error) => return Err(error),
    };
    match check_limit("entry count", limits.max_entries as u64, settings.num_user_files as u64) {
        Ok(()) => {},
        Err(error) => return Err(error),
    }
    let names: usize = settings.num_user_files as usize + settings.num_directories as usize;
    if names == 0 {
        return Err(invalid_archive("invalid metadata string count"));
    }
    let (strings, p) = match read_names(
        data,
        9,
        names - 1,
        limits.max_string_length,
        limits.max_metadata_bytes,
    ) {
        Ok(found) => found,
        Err(error) => return Err(error),
    };
    let (files, p) = match read_records(data, p, settings.num_user_files as usize, &limits) {
        Ok(found) => found,
        Err(error) => return Err(error),
    };
    if size - p < 4 {
        return Err(cut());
    }
    let chunk_settings = ChunkSettings {
        num_archive_files: read_short(data, p),
        num_chunks: read_short(data, p + 2),
    };
    match check_limit("chunk count", limits.max_chunks as u64, chunk_settings.num_chunks as u64) {
        Ok(()) => {},
        Err(error) => return Err(error),
    }
    if chunk_settings.num_archive_files == 0 {
        return Err(invalid_archive("archive declares zero volumes"));
    }
    let (chunks, p) = match read_chunks(data, p + 4, chunk_settings.num_chunks as usize) {
        Ok(found) => found,
        Err(error) => return Err(error),
    };
    match check_limit("metadata bytes", limits.max_metadata_bytes as u64, p as u64) {
        Ok(()) => {},
        Err(error) => return Err(error),
    }
    let (volume_files, p) = match read_names(
        data,
        p,
        chunk_settings.num_archive_files as usize - 1,
        limits.max_string_length,
        limits.max_metadata_bytes - p,
    ) {
        Ok(found) => found,
        Err(error) => return Err(error),
    };
    let range_settings = if any_wants_range(&chunks) {
        if size - p < 10 {
            return Err(cut());
        }
        match check_limit("metadata bytes", limits.max_metadata_bytes as u64, (p + 10) as u64) {
            Ok(()) => {},
            Err(error) => return Err(error),
        }
        Some(
            RangeSettings {
                win_size: data[p],
                flags: data[p + 1],
                offset_table_size: data[p + 2],
                offset_tables: data[p + 3],
                offset_contexts: data[p + 4],
                ref_length_table_size: data[p + 5],
                ref_length_tables: data[p + 6],
                ref_offset_table_size: data[p + 7],
                ref_offset_tables: data[p + 8],
                big_min_match: data[p + 9],
            },
        )
    } else {
        None
    };
    Ok(
        RawArchive {
            settings,
            strings,
            files,
            chunk_settings,
            chunks,
            volume_files,
            range_settings,
        },
    )
}

fn write_short(output: &mut Vec<u8>, value: u16)
    ensures
        final(output)@ == old(output)@ + short(value),
{
    output.push((value % 0x100) as u8);
    output.push((value / 0x100) as u8);
    assert(output@ =~= old(output)@ + short(value));
}

fn write_long(output: &mut Vec<u8>, value: u32)
    ensures
        final(output)@ == old(output)@ + long(value),
{
    output.push((value % 0x100) as u8);
    output.push((value / 0x100 % 0x100) as u8);
    output.push((value / 0x1_0000 % 0x100) as u8);
    output.push((value / 0x100_0000) as u8);
    assert(output@ =~= old(output)@ + long(value));
}

fn write_names(output: &mut Vec<u8>, names: &Vec<Vec<u8>>)
    ensures
        final(output)@ == old(output)@ + names_bytes(names_of(names@), 0),
{
    let ghost all = names_of(names@);
    let mut i: usize = 0;
    while i < names.len()
        invariant
            i <= names@.len(),
            all == names_of(names@),
            output@ + names_bytes(all, i as int) == old(output)@ + names_bytes(all, 0),
        decreases names@.len() - i,
    {
        let ghost before = output@;
        let ghost rest = names_bytes(all, i + 1);
        output.extend_from_slice(names[i].as_slice());
        output.push(0);
        proof {
            assert(all[i as int] == names@[i as int]@);
            assert(output@ =~= before + name_bytes(all[i as int]));
            assert(output@ + rest =~= before + (name_bytes(all[i as int]) + rest));
        }
        i += 1;
    }
    assert(output@ + Seq::<u8>::empty() =~= output@);
}

fn write_numbers(output: &mut Vec<u8>, numbers: &Vec<u16>)
    ensures
        final(output)@ == old(output)@ + numbers_bytes(numbers@, 0),
{
    let mut i: usize = 0;
    while i < numbers.len()
        invariant
            i <= numbers@.len(),
            output@ + numbers_bytes(numbers@, i as int) == old(output)@ + numbers_bytes(
                numbers@,
                0,
            ),
        decreases numbers@.len() - i,
    {
        let ghost before = output@;
        let ghost rest = numbers_bytes(numbers@, i + 1);
        write_short(output, numbers[i]);
        assert(output@ + rest =~= before + (short(numbers@[i as int]) + rest));
        i += 1;
    }
    write_short(output, LIST_END);
}

fn write_records(output: &mut Vec<u8>, files: &Vec<RawFileRecord>)
    ensures
        final(output)@ == old(output)@ + records_bytes(records_of(files@), 0),
{
    let ghost all = records_of(files@);
    let mut i: usize = 0;
    while i < files.len()
        invariant
            i <= files@.len(),
            all == records_of(files@),
            output@ + records_bytes(all, i as int) == old(output)@ + records_bytes(all, 0),
        decreases files@.len() - i,
    {
        let ghost before = output@;
        let ghost rest = records_bytes(all, i + 1);
        write_short(output, files[i].directory_id);
        write_numbers(output, &files[i].chunk_ids);
        proof {
            assert(all[i as int] == files@[i as int]@);
            let head = short(all[i as int].directory);
            let list = numbers_bytes(all[i as int].chunks, 0);
            assert(output@ + rest =~= before + (head + (list + rest)));
        }
        i += 1;
    }
    assert(output@ + Seq::<u8>::empty() =~= output@);
}

fn write_chunk(output: &mut Vec<u8>, chunk: Chunk)
    ensures
        final(output)@ == old(output)@ + chunk_bytes(chunk),
{
    write_long(output, chunk.offset);
    write_long(output, chunk.compressed_length);
    write_long(output, chunk.decompressed_length);
    write_short(output, chunk.flags);
    write_short(output, chunk.file);
    assert(output@ =~= old(output)@ + chunk_bytes(chunk));
}

fn write_chunks(output: &mut Vec<u8>, chunks: &Vec<Chunk>)
    ensures
        final(output)@ == old(output)@ + chunks_bytes(chunks@, 0),
{
    let mut i: usize = 0;
    while i < chunks.len()
        invariant
            i <= chunks@.len(),
            output@ + chunks_bytes(chunks@, i as int) == old(output)@ + chunks_bytes(chunks@, 0),
        decreases chunks@.len() - i,
    {
        let ghost before = output@;
        let ghost rest = chunks_bytes(chunks@, i + 1);
        write_chunk(output, chunks[i]);
        assert(output@ + rest =~= before + (chunk_bytes(chunks@[i as int]) + rest));
        i += 1;
    }
    assert(output@ + Seq::<u8>::empty() =~= output@);
}

fn write_range(output: &mut Vec<u8>, range: Option<RangeSettings>)
    ensures
        final(output)@ == old(output)@ + optional_range_bytes(range),
{
    if let Some(range) = range {
        output.push(range.win_size);
        output.push(range.flags);
        output.push(range.offset_table_size);
        output.push(range.offset_tables);
        output.push(range.offset_contexts);
        output.push(range.ref_length_table_size);
        output.push(range.ref_length_tables);
        output.push(range.ref_offset_table_size);
        output.push(range.ref_offset_tables);
        output.push(range.big_min_match);
    }
    assert(output@ =~= old(output)@ + optional_range_bytes(range));
}

/// Writes the metadata that an archive begins with.
pub fn write_metadata(archive: &RawArchive) -> (output: Vec<u8>)
    ensures
        output@ == metadata_bytes(archive@),
{
    let mut output: Vec<u8> = Vec::new();
    write_long(&mut output, archive.settings.header);
    write_short(&mut output, archive.settings.num_user_files);
    write_short(&mut output, archive.settings.num_directories);
    output.push(archive.settings.version);
    let ghost head = output@;
    assert(head =~= settings_bytes(archive.settings));
    write_names(&mut output, &archive.strings);
    write_records(&mut output, &archive.files);
    write_short(&mut output, archive.chunk_settings.num_archive_files);
    write_short(&mut output, archive.chunk_settings.num_chunks);
    write_chunks(&mut output, &archive.chunks);
    write_names(&mut output, &archive.volume_files);
    write_range(&mut output, archive.range_settings);
    proof {
        reveal(metadata_bytes);
        let m = archive@;
        let a = names_bytes(m.strings, 0);
        let b = records_bytes(m.files, 0);
        let c = short(m.counts.num_archive_files) + short(m.counts.num_chunks);
        let d = chunks_bytes(m.chunks, 0);
        let e = names_bytes(m.volumes, 0);
        let f = optional_range_bytes(m.range);
        assert(output@ =~= head + (a + (b + (c + (d + (e + f))))));
    }
    output
}

impl RawArchive {
    /// Reads the metadata under the default limits.
    pub fn read_from(data: &[u8]) -> (result: Result<RawArchive, DzipError>)
        ensures
            match parse(data@, ReadLimits::usual()) {
                Ok(metadata) => result matches Ok(archive) && archive@ == metadata,
                Err(trouble) => result matches Err(error) && error@ == trouble,
            },
    {
        let options = ReadOptions::default();
        RawArchive::read_from_with_options(data, options)
    }

    /// Reads the metadata.
    pub fn read_from_with_options(data: &[u8], options: ReadOptions) -> (result: Result<
        RawArchive,
        DzipError,
    >)
        ensures
            match parse(data@, options.limits) {
                Ok(metadata) => result matches Ok(archive) && archive@ == metadata,
                Err(trouble) => result matches Err(error) && error@ == trouble,
            },
    {
        parse_metadata(data, &options)
    }
}

} // verus!
