//! Limits only refuse: what is read under limits is what is read without them.

use vstd::prelude::*;

use crate::archive::{entries_from, entry_of, volume_size, with_volume, EntryView, ResolvedChunk};
use crate::builder::plan::BuilderEntry;
use crate::builder::roundtrip::{all_there, file_content, found, in_step, reads_back};
use crate::codec::dz::{lemma_retained_grows, retained};
use crate::codec::flags::{meaning, Compression};
use crate::codec::{limited_content, CodecLimits, DzSetup};
use crate::codecs::bzip::engine::{blocks_at, lemma_blocks_position, streams_at};
use crate::compat::dedicated_combuf;
use crate::format::{Chunk, FileRecord, Metadata, LIST_END};
use crate::metadata::{
    chunk_at, chunks_at, name_end, names_at, numbers_at, parse, records_at, short_at,
};
use crate::options::ReadLimits;
use crate::reading::{
    archive_setup, chunk_read, codec_limits, common_parts, commons_resolved, context_loaded,
    entry_read, first_progress, opened, piece_read, pieces_read, size_trouble, stored_bytes,
    volume_resolved, Progress,
};

verus! {

/// No limit is above that of the others.
pub open spec fn within(limits: CodecLimits, wider: CodecLimits) -> bool {
    &&& limits.max_input_size <= wider.max_input_size
    &&& limits.max_output_size <= wider.max_output_size
    &&& limits.max_workspace_size <= wider.max_workspace_size
}

/// No limit is above that of the others.
pub open spec fn reads_within(limits: ReadLimits, wider: ReadLimits) -> bool {
    &&& limits.max_entries <= wider.max_entries
    &&& limits.max_chunks <= wider.max_chunks
    &&& limits.max_chunk_references <= wider.max_chunk_references
    &&& limits.max_string_length <= wider.max_string_length
    &&& limits.max_metadata_bytes <= wider.max_metadata_bytes
    &&& limits.max_entry_size <= wider.max_entry_size
    &&& limits.max_total_output <= wider.max_total_output
    &&& within(codec_limits(limits), codec_limits(wider))
}

proof fn lemma_streams_workspace(
    data: Seq<u8>,
    offset: int,
    out: Seq<u8>,
    expected: int,
    workspace: int,
    wider: int,
)
    requires
        workspace <= wider,
        streams_at(data, offset, out, expected, workspace) is Ok,
    ensures
        streams_at(data, offset, out, expected, wider) == streams_at(
            data,
            offset,
            out,
            expected,
            workspace,
        ),
    decreases data.len() - offset,
{
    if 0 <= offset < data.len() {
        let stream = data.skip(offset);
        let capacity = (stream[3] - 0x30) * 100_000;
        lemma_blocks_position(stream.skip(4), 0, capacity, out, expected, 0);
        let (q, longer) = blocks_at(stream.skip(4), 0, capacity, out, expected, 0)->Ok_0;
        lemma_streams_workspace(
            data,
            offset + 4 + (q + 7) / 8,
            longer,
            expected,
            workspace,
            wider,
        );
    }
}

/// A chunk that decodes under limits decodes to the same under wider ones.
pub proof fn lemma_content_limits(
    compression: Compression,
    data: Seq<u8>,
    expected: usize,
    setup: Option<DzSetup>,
    limits: CodecLimits,
    wider: CodecLimits,
)
    requires
        within(limits, wider),
        limited_content(compression, data, expected, setup, limits) is Ok,
    ensures
        limited_content(compression, data, expected, setup, wider) == limited_content(
            compression,
            data,
            expected,
            setup,
            limits,
        ),
{
    if compression == Compression::Bzip && !(data.len() == 0 && expected == 0) {
        lemma_streams_workspace(
            data,
            0,
            Seq::empty(),
            expected as int,
            limits.max_workspace_size as int,
            wider.max_workspace_size as int,
        );
    }
}

/// A name ends behind its beginning.
proof fn lemma_name_end(data: Seq<u8>, p: int)
    ensures
        name_end(data, p) >= p,
    decreases data.len() - p,
{
    if p < data.len() && data[p] != 0 {
        lemma_name_end(data, p + 1);
    }
}

/// Chunk records take some bytes.
proof fn lemma_chunks_forward(data: Seq<u8>, p: int, count: nat, chunks: Seq<Chunk>)
    ensures
        chunks_at(data, p, count, chunks) matches Ok((_, q)) ==> q >= p,
    decreases count,
{
    if count > 0 {
        lemma_chunks_forward(data, p + 16, (count - 1) as nat, chunks.push(chunk_at(data, p)));
    }
}

proof fn lemma_names_limits(
    data: Seq<u8>,
    p: int,
    count: nat,
    names: Seq<Seq<u8>>,
    longest: usize,
    used: int,
    budget: usize,
    longer: usize,
    more: usize,
)
    requires
        longest <= longer,
        budget <= more,
        names_at(data, p, count, names, longest, used, budget) is Ok,
    ensures
        names_at(data, p, count, names, longer, used, more) == names_at(
            data,
            p,
            count,
            names,
            longest,
            used,
            budget,
        ),
        names_at(data, p, count, names, longest, used, budget)->Ok_0.1 >= p,
    decreases count,
{
    if count > 0 {
        let end = name_end(data, p);
        lemma_name_end(data, p);
        lemma_names_limits(
            data,
            end + 1,
            (count - 1) as nat,
            names.push(data.subrange(p, end)),
            longest,
            used + (end - p + 1),
            budget,
            longer,
            more,
        );
    }
}

proof fn lemma_numbers_limits(
    data: Seq<u8>,
    p: int,
    numbers: Seq<u16>,
    limits: ReadLimits,
    wider: ReadLimits,
    used: int,
)
    requires
        reads_within(limits, wider),
        numbers_at(data, p, numbers, limits, used) is Ok,
    ensures
        numbers_at(data, p, numbers, wider, used) == numbers_at(data, p, numbers, limits, used),
        numbers_at(data, p, numbers, limits, used)->Ok_0.1 >= p,
    decreases data.len() - p,
{
    if short_at(data, p) != LIST_END {
        lemma_numbers_limits(
            data,
            p + 2,
            numbers.push(short_at(data, p)),
            limits,
            wider,
            used,
        );
    }
}

proof fn lemma_records_limits(
    data: Seq<u8>,
    p: int,
    count: nat,
    files: Seq<FileRecord>,
    limits: ReadLimits,
    wider: ReadLimits,
    used: int,
)
    requires
        reads_within(limits, wider),
        records_at(data, p, count, files, limits, used) is Ok,
    ensures
        records_at(data, p, count, files, wider, used) == records_at(
            data,
            p,
            count,
            files,
            limits,
            used,
        ),
        records_at(data, p, count, files, limits, used)->Ok_0.1 >= p,
    decreases count,
{
    if count > 0 {
        lemma_numbers_limits(data, p + 2, seq![], limits, wider, used);
        let (chunks, next) = numbers_at(data, p + 2, seq![], limits, used)->Ok_0;
        lemma_records_limits(
            data,
            next,
            (count - 1) as nat,
            files.push(FileRecord { directory: short_at(data, p), chunks }),
            limits,
            wider,
            used + chunks.len(),
        );
    }
}

/// Metadata that are read under limits are the same under wider ones.
pub proof fn lemma_parse_limits(data: Seq<u8>, limits: ReadLimits, wider: ReadLimits)
    requires
        reads_within(limits, wider),
        parse(data, limits) is Ok,
    ensures
        parse(data, wider) == parse(data, limits),
{
    let settings = crate::metadata::settings_at(data)->Ok_0;
    let count = (settings.num_user_files + settings.num_directories - 1) as nat;
    lemma_names_limits(
        data,
        9,
        count,
        seq![],
        limits.max_string_length,
        0,
        limits.max_metadata_bytes,
        wider.max_string_length,
        wider.max_metadata_bytes,
    );
    let (strings, p) = names_at(
        data,
        9,
        count,
        seq![],
        limits.max_string_length,
        0,
        limits.max_metadata_bytes,
    )->Ok_0;
    lemma_records_limits(
        data,
        p,
        settings.num_user_files as nat,
        seq![],
        limits,
        wider,
        0,
    );
    let (files, q) = records_at(
        data,
        p,
        settings.num_user_files as nat,
        seq![],
        limits,
        0,
    )->Ok_0;
    let number = short_at(data, q);
    let total = short_at(data, q + 2) as nat;
    lemma_chunks_forward(data, q + 4, total, seq![]);
    let (_, r) = chunks_at(data, q + 4, total, seq![])->Ok_0;
    lemma_names_limits(
        data,
        r,
        (number - 1) as nat,
        seq![],
        limits.max_string_length,
        0,
        (limits.max_metadata_bytes - r) as usize,
        wider.max_string_length,
        (wider.max_metadata_bytes - r) as usize,
    );
}

proof fn lemma_sizes_limits(
    chunks: Seq<ResolvedChunk>,
    only: Option<u16>,
    i: int,
    limits: CodecLimits,
    wider: CodecLimits,
)
    requires
        within(limits, wider),
        size_trouble(chunks, only, i, limits) is None,
    ensures
        size_trouble(chunks, only, i, wider) is None,
    decreases chunks.len() - i,
{
    if i < chunks.len() {
        lemma_sizes_limits(chunks, only, i + 1, limits, wider);
    }
}

proof fn lemma_entries_limits(
    m: Metadata,
    index: int,
    entries: Seq<EntryView>,
    total: int,
    limits: ReadLimits,
    wider: ReadLimits,
)
    requires
        reads_within(limits, wider),
        entries_from(m, index, entries, total, limits) is Ok,
    ensures
        entries_from(m, index, entries, total, wider) == entries_from(
            m,
            index,
            entries,
            total,
            limits,
        ),
    decreases m.files.len() - index,
{
    if index < m.files.len() {
        let entry = entry_of(m, index, limits)->Ok_0;
        assert(entry_of(m, index, wider) == entry_of(m, index, limits));
        lemma_entries_limits(
            m,
            index + 1,
            entries.push(entry),
            total + entry.decompressed_size,
            limits,
            wider,
        );
    }
}

/// An archive that opens under limits opens under wider ones, with the same entries.
pub proof fn lemma_opened_limits(
    m: Metadata,
    main: Seq<u8>,
    limits: ReadLimits,
    wider: ReadLimits,
)
    requires
        reads_within(limits, wider),
        opened(m, main, limits) is Ok,
    ensures
        opened(m, main, wider) == opened(m, main, limits),
{
    lemma_sizes_limits(
        first_progress(m, main, limits).chunks,
        None,
        0,
        codec_limits(limits),
        codec_limits(wider),
    );
    lemma_entries_limits(m, 0, seq![], 0, limits, wider);
}

/// The same state, but for the limits.
pub open spec fn alongside(p: Progress, q: Progress) -> bool {
    &&& p.chunks == q.chunks
    &&& p.resolved == q.resolved
    &&& p.setup == q.setup
    &&& within(p.limits, q.limits)
}

proof fn lemma_volume_limits(m: Metadata, p: Progress, q: Progress, id: u16, length: Option<int>)
    requires
        alongside(p, q),
        volume_resolved(m, p, id, length).0 is None,
    ensures
        volume_resolved(m, q, id, length).0 is None,
        alongside(volume_resolved(m, p, id, length).1, volume_resolved(m, q, id, length).1),
{
    if !p.resolved.contains(id) && length is Some {
        lemma_sizes_limits(
            with_volume(m.chunks, p.chunks, id, length->Some_0),
            Some(id),
            0,
            p.limits,
            q.limits,
        );
    }
}

proof fn lemma_commons_limits(
    m: Metadata,
    volumes: Seq<Option<Seq<u8>>>,
    p: Progress,
    q: Progress,
    i: int,
)
    requires
        alongside(p, q),
        commons_resolved(m, volumes, p, i).0 is None,
    ensures
        commons_resolved(m, volumes, q, i).0 is None,
        alongside(commons_resolved(m, volumes, p, i).1, commons_resolved(m, volumes, q, i).1),
    decreases m.chunks.len() - i,
{
    if i < m.chunks.len() {
        if dedicated_combuf(m.chunks[i].flags) {
            let file = m.chunks[i].file;
            lemma_volume_limits(m, p, q, file, volume_size(volumes, file));
            lemma_commons_limits(
                m,
                volumes,
                volume_resolved(m, p, file, volume_size(volumes, file)).1,
                volume_resolved(m, q, file, volume_size(volumes, file)).1,
                i + 1,
            );
        } else {
            lemma_commons_limits(m, volumes, p, q, i + 1);
        }
    }
}

proof fn lemma_context_limits(
    m: Metadata,
    volumes: Seq<Option<Seq<u8>>>,
    p: Progress,
    q: Progress,
)
    requires
        alongside(p, q),
        context_loaded(m, volumes, p).0 is None,
    ensures
        context_loaded(m, volumes, q).0 is None,
        alongside(context_loaded(m, volumes, p).1, context_loaded(m, volumes, q).1),
{
    if p.setup is None {
        lemma_commons_limits(m, volumes, p, q, 0);
        let list = commons_resolved(m, volumes, p, 0).1.chunks;
        let parts = common_parts(list, volumes, 0, seq![])->Ok_0;
        lemma_retained_grows(parts, 0, parts.len());
        assert(archive_setup(m, list, volumes)->Ok_0.1 == retained(parts, parts.len()));
    }
}

#[verifier::rlimit(60)]
proof fn lemma_chunk_limits(
    m: Metadata,
    volumes: Seq<Option<Seq<u8>>>,
    chunk: Chunk,
    p: Progress,
    q: Progress,
)
    requires
        alongside(p, q),
        chunk_read(m, volumes, chunk, p).0 is Ok,
    ensures
        chunk_read(m, volumes, chunk, q).0 == chunk_read(m, volumes, chunk, p).0,
        alongside(chunk_read(m, volumes, chunk, p).1, chunk_read(m, volumes, chunk, q).1),
{
    let compression = meaning(chunk.flags)->Some_0.compression;
    if compression == Compression::Dz {
        lemma_context_limits(m, volumes, p, q);
        let a = context_loaded(m, volumes, p).1;
        let b = context_loaded(m, volumes, q).1;
        lemma_content_limits(
            compression,
            stored_bytes(volumes, chunk, compression)->Ok_0,
            chunk.decompressed_length as usize,
            a.setup,
            a.limits,
            b.limits,
        );
    } else {
        lemma_content_limits(
            compression,
            stored_bytes(volumes, chunk, compression)->Ok_0,
            chunk.decompressed_length as usize,
            p.setup,
            p.limits,
            q.limits,
        );
    }
}

proof fn lemma_pieces_limits(
    m: Metadata,
    volumes: Seq<Option<Seq<u8>>>,
    ids: Seq<u16>,
    k: int,
    out: Seq<u8>,
    p: Progress,
    q: Progress,
)
    requires
        alongside(p, q),
        pieces_read(m, volumes, ids, k, out, p).trouble is None,
    ensures
        pieces_read(m, volumes, ids, k, out, q).trouble is None,
        pieces_read(m, volumes, ids, k, out, q).out == pieces_read(m, volumes, ids, k, out, p).out,
        alongside(
            pieces_read(m, volumes, ids, k, out, p).progress,
            pieces_read(m, volumes, ids, k, out, q).progress,
        ),
    decreases ids.len() - k,
{
    if k < ids.len() {
        reveal(piece_read);
        let file = m.chunks[ids[k] as int].file;
        let size = volume_size(volumes, file);
        lemma_volume_limits(m, p, q, file, size);
        let a = volume_resolved(m, p, file, size).1;
        let b = volume_resolved(m, q, file, size).1;
        lemma_chunk_limits(m, volumes, a.chunks[ids[k] as int].actual(), a, b);
        let (content, x) = piece_read(m, volumes, ids[k], p);
        let (_, y) = piece_read(m, volumes, ids[k], q);
        lemma_pieces_limits(m, volumes, ids, k + 1, out + content->Ok_0, x, y);
    }
}

/// An entry that is read under limits is read to the same under wider ones.
pub proof fn lemma_entry_limits(
    m: Metadata,
    volumes: Seq<Option<Seq<u8>>>,
    entry: EntryView,
    out: Seq<u8>,
    p: Progress,
    q: Progress,
)
    requires
        alongside(p, q),
        entry_read(m, volumes, entry, out, p).trouble is None,
    ensures
        entry_read(m, volumes, entry, out, q).trouble is None,
        entry_read(m, volumes, entry, out, q).out == entry_read(m, volumes, entry, out, p).out,
        alongside(
            entry_read(m, volumes, entry, out, p).progress,
            entry_read(m, volumes, entry, out, q).progress,
        ),
{
    lemma_pieces_limits(m, volumes, entry.chunk_ids, 0, out, p, q);
}

/// A state that reading under limits can lead to, as long as nothing is refused.
pub open spec fn in_limited_step(m: Metadata, volumes: Seq<Option<Seq<u8>>>, p: Progress) -> bool {
    exists|q: Progress| #[trigger] in_step(m, volumes, q) && alongside(p, q)
}

/// What a builder wrote reads back under any limits, as far as they refuse nothing: the archive
/// has the same entries, and an entry that is read is read as what was added.
pub proof fn lemma_reads_back_within_limits(
    entries: Seq<BuilderEntry>,
    volumes: Seq<Seq<u8>>,
    limits: ReadLimits,
    l: int,
    p: Progress,
)
    requires
        reads_back(entries, volumes),
        parse(volumes[0], limits) is Ok,
        opened(parse(volumes[0], limits)->Ok_0, volumes[0], limits) is Ok,
        0 <= l < opened(parse(volumes[0], limits)->Ok_0, volumes[0], limits)->Ok_0.len(),
        in_limited_step(parse(volumes[0], limits)->Ok_0, all_there(volumes), p),
    ensures
        ({
            let m = parse(volumes[0], limits)->Ok_0;
            let list = opened(m, volumes[0], limits)->Ok_0;
            let reading = entry_read(m, all_there(volumes), list[l], Seq::empty(), p);
            &&& in_limited_step(
                m,
                all_there(volumes),
                first_progress(m, volumes[0], limits),
            )
            &&& found(entries, l, list[l])
            &&& reading.trouble is None ==> {
                &&& reading.out == file_content(entries, l)
                &&& in_limited_step(m, all_there(volumes), reading.progress)
            }
        }),
{
    reveal(reads_back);
    let there = all_there(volumes);
    let wider = ReadLimits::no_limits();
    lemma_parse_limits(volumes[0], limits, wider);
    let m = parse(volumes[0], limits)->Ok_0;
    lemma_opened_limits(m, volumes[0], limits, wider);
    let list = opened(m, volumes[0], limits)->Ok_0;
    let start = first_progress(m, volumes[0], wider);
    assert(in_step(m, there, start) && alongside(first_progress(m, volumes[0], limits), start));
    let q = choose|q: Progress| #[trigger] in_step(m, there, q) && alongside(p, q);
    let whole = entry_read(m, there, list[l], Seq::empty(), q);
    if entry_read(m, there, list[l], Seq::empty(), p).trouble is None {
        lemma_entry_limits(m, there, list[l], Seq::empty(), p, q);
        assert(in_step(m, there, whole.progress));
    }
}

} // verus!
