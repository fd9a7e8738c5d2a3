//! What a reader finds in an archive that was written.

use vstd::prelude::*;
use vstd::utf8::valid_utf8;

use crate::archive::{
    entries_from, entry_of, piece_trouble, pieces_from, raw_path, resolved_chunk, resolved_chunks,
    volume_size, with_separator, with_volume, EntryId, EntrySegment, EntryView, ResolvedChunk,
};
use crate::builder::layout::{lemma_real_length, lies};
use crate::builder::names::{lemma_utf8_grouped, lemma_utf8_path, lemma_utf8_stored};
use crate::builder::pages::{
    all_put, answered, archive_outcome, blank_page, encoded_streams, planned_outcome,
};
use crate::builder::plan::{
    chosen, chosen_flags, directories, grouped, lemma_directories, lemma_directory_members,
    lemma_grouped_members, lemma_joined_components, lemma_place_from, members, paths_of, place,
    split_path, splittable, stored_path, BuilderEntry,
};
use crate::builder::writing::{
    buffer_of, dz_before, lemma_dz_before, lemma_stamps_differ, lemma_volumes_grow, lemma_wrote,
    payload_fits, payloads_fit, payloads_of, planned, recorded, sealed, stamp, stamps, storage,
    written_record, wrote, BuildReport,
};
use crate::builder::{
    entries_trouble, has_zero, names_trouble, proper_entries, volume_name_trouble,
};
use crate::codec::dz::{dz_refusal, retained, DzOptions};
use crate::codec::flags::{meaning, registered, Compression};
use crate::codec::{lemma_chunk_round_trip, limited_content, stored, CodecLimits, DzSetup};
use crate::codecs::dz::archive::update_of;
use crate::codecs::dz::fault::DzFault;
use crate::codecs::dz::options::model_workspace;
use crate::codecs::dz::stream::{
    chunk_at, first_desk, turn, unchunk, undz, Desk, ReferenceBaseUpdate, Turn,
};
use crate::codecs::dz::RangeSettings;
use crate::compat::{
    dedicated_combuf, physical, placeholder_length, COMPRESSED_FLAGS, SEMANTIC_READER_FLAGS,
};
use crate::error::{DzipError, Trouble};
use crate::format::{names_of, Chunk, Metadata, CHUNK_BZIP, CHUNK_COMBUF, CHUNK_DZ, CHUNK_ZERO};
use crate::metadata::{
    all_names, lemma_metadata_round_trip, metadata_bytes, parse, plain_name, plain_numbers,
    wants_range, writable,
};
use crate::options::{PackOptions, ReadLimits};
use crate::path::{
    all_proper, components, components_from, entered, joined, lemma_components_proper, plain_path,
    rooted, separator,
};
use crate::reading::{
    all_utf8, archive_setup, chunk_read, common_parts, commons_resolved, context_loaded, entry_read,
    first_progress, flags_trouble, lemma_all_utf8, opened, piece_read, pieces_read, size_trouble,
    stored_bytes,
    volume_part, volume_resolved, with_main, Progress,
};

verus! {

/// What the flags of an entry say, whose options name no flags of their own.
proof fn lemma_flags(entries: Seq<BuilderEntry>, k: int)
    requires
        entries[k].options.raw_flags is None,
    ensures
        ({
            let flags = chosen_flags(entries[k].options);
            let compression = entries[k].options.compression;
            &&& storage(entries, k) == compression
            &&& registered(flags) == Some(compression)
            &&& (flags & CHUNK_DZ != 0) == (compression == Compression::Dz)
            &&& flags & !SEMANTIC_READER_FLAGS == 0
            &&& flags & CHUNK_COMBUF == 0
            &&& (flags & CHUNK_ZERO != 0) == (compression == Compression::Zero)
            &&& (flags & CHUNK_BZIP != 0) == (compression == Compression::Bzip)
            &&& (flags & COMPRESSED_FLAGS != 0) == (compression is Bzip || compression is Zlib
                || compression is Lzma || compression is Dz)
            &&& !dedicated_combuf(flags)
        }),
{
    let options = entries[k].options;
    let a = options.compression.bit();
    let c: u16 = if options.random_access {
        0x400
    } else {
        0
    };
    let e: u16 = match options.content_hint {
        Some(hint) => hint.bits(),
        None => 0,
    };
    let f = a | c | e;
    assert(chosen_flags(options) == f);
    assert(f & 0x80 == a & 0x80 && f & 0x10 == a & 0x10 && f & 0x100 == a & 0x100 && f & 0x8 == a
        & 0x8 && f & 0x200 == a & 0x200 && f & 0x4 == a & 0x4 && f & !0x7fdu16 == 0 && f & 0x1
        == 0 && f & 0x21c == a & 0x21c) by (bit_vector)
        requires
            f == a | c | e,
            a == 0x100 || a == 0x80 || a == 0x10 || a == 0x8 || a == 0x200 || a == 0x4,
            c == 0x400 || c == 0,
            e == 0x20 || e == 0x40 || e == 0x60 || e == 0,
    ;
    assert(0x100u16 & 0x80 == 0 && 0x100u16 & 0x10 == 0 && 0x100u16 & 0x100 == 0x100 && 0x80u16
        & 0x80 == 0x80 && 0x80u16 & 0x10 == 0 && 0x80u16 & 0x4 == 0 && 0x10u16 & 0x80 == 0
        && 0x10u16 & 0x10 == 0x10 && 0x10u16 & 0x4 == 0 && 0x8u16 & 0x80 == 0 && 0x8u16 & 0x10 == 0
        && 0x8u16 & 0x100 == 0 && 0x8u16 & 0x8 == 0x8 && 0x8u16 & 0x4 == 0 && 0x200u16 & 0x80 == 0
        && 0x200u16 & 0x10 == 0 && 0x200u16 & 0x100 == 0 && 0x200u16 & 0x8 == 0 && 0x200u16 & 0x200
        == 0x200 && 0x200u16 & 0x4 == 0 && 0x4u16 & 0x80 == 0 && 0x4u16 & 0x10 == 0 && 0x4u16
        & 0x100 == 0 && 0x4u16 & 0x8 == 0 && 0x4u16 & 0x200 == 0 && 0x4u16 & 0x4 == 0x4 && 0x100u16
        & 0x4 == 0 && 0x100u16 & 0x21c == 0 && 0x80u16 & 0x21c == 0 && 0x10u16 & 0x21c == 0x10
        && 0x8u16 & 0x21c == 0x8 && 0x200u16 & 0x21c == 0x200 && 0x4u16 & 0x21c == 0x4)
        by (bit_vector);
}

proof fn lemma_combuf_flags()
    ensures
        dedicated_combuf(CHUNK_COMBUF),
        CHUNK_COMBUF & CHUNK_DZ == 0,
        CHUNK_COMBUF & !SEMANTIC_READER_FLAGS == 0,
        CHUNK_COMBUF & CHUNK_ZERO == 0,
        CHUNK_COMBUF & CHUNK_BZIP == 0,
        CHUNK_COMBUF & COMPRESSED_FLAGS == 0,
{
    assert(0x1u16 & 0x1 != 0 && 0x1u16 & 0x39c == 0 && 0x1u16 & 0x4 == 0 && 0x1u16 & !0x7fdu16 == 0
        && 0x1u16 & 0x80 == 0 && 0x1u16 & 0x10 == 0 && 0x1u16 & 0x21c == 0) by (bit_vector);
}

/// Without a common buffer the rule for recent ends does not matter.
proof fn lemma_no_references(
    data: Seq<u8>,
    desk: Desk,
    out: Seq<u8>,
    expected: int,
    settings: RangeSettings,
    a: ReferenceBaseUpdate,
    b: ReferenceBaseUpdate,
)
    ensures
        chunk_at(data, desk, out, expected, settings, None, a) == chunk_at(
            data,
            desk,
            out,
            expected,
            settings,
            None,
            b,
        ),
    decreases expected - out.len(),
{
    assert(turn(data, desk, out, expected, settings, None, a) == turn(
        data,
        desk,
        out,
        expected,
        settings,
        None,
        b,
    ));
    if let Ok(Turn::More(next, longer)) = turn(data, desk, out, expected, settings, None, a) {
        if out.len() < longer.len() <= expected {
            lemma_no_references(data, next, longer, expected, settings, a, b);
        }
    }
}

/// What is asked of the entries, so that a reader gives back just what went in: no flags of
/// their own, zeros where zeros are to be stored, names of UTF-8 without zeros.
pub open spec fn ordinary(entries: Seq<BuilderEntry>) -> bool {
    forall|k: int|
        0 <= k < entries.len() ==> {
            &&& (#[trigger] entries[k]).options.raw_flags is None
            &&& plain_form(entries[k].archive_path@)
            &&& plain_name(entries[k].archive_path@)
            &&& valid_utf8(entries[k].archive_path@)
            &&& entries[k].options.compression == Compression::Zero ==> forall|i: int|
                0 <= i < entries[k].bytes@.len() ==> #[trigger] entries[k].bytes@[i] == 0
        }
}

/// The payload and the record of an entry go together.
proof fn lemma_record(
    entries: Seq<BuilderEntry>,
    dz: DzOptions,
    common: Option<Seq<u8>>,
    payloads: Seq<Seq<u8>>,
    chunks: Seq<Chunk>,
    k: int,
)
    requires
        ordinary(entries),
        payloads_fit(entries, dz, common, payloads),
        recorded(entries, payloads, chunks),
        short(payloads),
        0 <= k < chunks.len(),
    ensures
        physical(chunks[k]) == (payloads[k].len() > 0),
        !placeholder_length(chunks[k]) || !physical(chunks[k]) ==> chunks[k].compressed_length
            == payloads[k].len(),
        k < entries.len() && storage(entries, k) == Compression::Copy ==> payloads[k].len()
            == chunks[k].decompressed_length,
        chunks[k].flags & !SEMANTIC_READER_FLAGS == 0,
        dedicated_combuf(chunks[k].flags) == (k >= entries.len()),
        k < entries.len() ==> {
            &&& chunks[k].decompressed_length == entries[k].bytes@.len()
            &&& chunks[k].flags == chosen_flags(entries[k].options)
            &&& chunks[k].file == entries[k].options.volume
            &&& registered(chunks[k].flags) == Some(entries[k].options.compression)
            &&& storage(entries, k) == entries[k].options.compression
            &&& (chunks[k].flags & CHUNK_DZ != 0) == (entries[k].options.compression
                == Compression::Dz)
            &&& chunks[k].flags & CHUNK_COMBUF == 0
        },
        k >= entries.len() ==> chunks[k].flags & CHUNK_DZ == 0 && chunks[k].file == 0
            && chunks[k].compressed_length == payloads[k].len() && !placeholder_length(chunks[k]),
{
    let chunk = chunks[k];
    assert((Chunk { offset: 0, ..chunk }) == written_record(
        entries,
        k,
        payloads[k].len() as int,
    ));
    assert(payloads[k].len() <= u32::MAX);
    if k < entries.len() {
        assert(entries[k].bytes@.len() <= u32::MAX);
        lemma_flags(entries, k);
        assert(payload_fits(entries, dz, common, k, payloads[k]));
        let input = entries[k].bytes@;
        match entries[k].options.compression {
            Compression::Copy => {},
            Compression::Zero => {},
            Compression::Bzip => {
                lemma_bzip_not_empty(input);
            },
            Compression::Zlib => {},
            Compression::Lzma => {},
            Compression::Dz => {},
        }
    } else {
        lemma_combuf_flags();
    }
}

proof fn lemma_bzip_not_empty(input: Seq<u8>)
    ensures
        crate::codec::bzip::bzip_chunk(input) matches Ok(data) ==> data.len() > 0,
{
}

/// All payloads have lengths that readers can find.
pub open spec fn short(payloads: Seq<Seq<u8>>) -> bool {
    forall|k: int| 0 <= k < payloads.len() ==> (#[trigger] payloads[k]).len() <= u32::MAX
}

/// The volumes, all of them there.
pub open spec fn all_there(volumes: Seq<Seq<u8>>) -> Seq<Option<Seq<u8>>> {
    Seq::new(volumes.len(), |v: int| Some(volumes[v]))
}

/// A reader that is given the first volume and a source of the others has all volumes.
pub proof fn lemma_all_there(volumes: Seq<Seq<u8>>)
    requires
        volumes.len() > 0,
    ensures
        with_main(volumes[0], all_there(volumes.skip(1))) == all_there(volumes),
{
    assert(with_main(volumes[0], all_there(volumes.skip(1))) =~= all_there(volumes));
}

/// The real length of every chunk is that of its payload.
proof fn lemma_resolved(
    entries: Seq<BuilderEntry>,
    volume_names: Seq<Seq<u8>>,
    dz: DzOptions,
    volumes: Seq<Seq<u8>>,
    chunks: Seq<Chunk>,
    payloads: Seq<Seq<u8>>,
    common: Option<Seq<u8>>,
    k: int,
)
    requires
        wrote(entries, volume_names, dz, volumes, chunks, payloads, common),
        short(payloads),
        ordinary(entries),
        0 <= k < chunks.len(),
    ensures
        chunks[k].file < volumes.len(),
        resolved_chunk(chunks, all_there(volumes), chunks[k]).physical_length == payloads[k].len(),
        volume_part(
            all_there(volumes),
            chunks[k].file,
            chunks[k].offset,
            payloads[k].len() as u32,
        ) == Ok::<Seq<u8>, Trouble>(payloads[k]),
{
    let turns = stamps(entries, chunks.len());
    let now = (6 * (entries.len() + 2)) as int;
    let m = planned(entries, volume_names, dz, chunks);
    let floor = metadata_bytes(m).len() as int;
    assert forall|a: int| 0 <= a < chunks.len() implies #[trigger] turns[a] < now by {
        let other = if a == 0 {
            1int
        } else {
            0
        };
        if entries.len() == 0 {
            assert(stamp(entries, 0) == 10);
        } else {
            lemma_stamps_differ(entries, a, other);
        }
    }
    assert forall|a: int, b: int|
        0 <= a < chunks.len() && 0 <= b < chunks.len() && a != b implies #[trigger] turns[a]
        != #[trigger] turns[b] by {
        lemma_stamps_differ(entries, a, b);
    }
    assert forall|a: int| 0 <= a < chunks.len() implies physical(#[trigger] chunks[a]) == (
    payloads[a].len() > 0) by {
        lemma_record(entries, dz, common, payloads, chunks, a);
    }
    lemma_record(entries, dz, common, payloads, chunks, k);
    lemma_real_length(volumes, chunks, payloads, turns, now, floor, k);
    assert(turns[k] < now);
    assert(lies(volumes, chunks, payloads, floor, k));
    assert(all_there(volumes)[chunks[k].file as int] == Some(volumes[chunks[k].file as int]));
    assert(payloads[k].len() <= u32::MAX);
}

/// The chunks of the list are those of the archive, and those of resolved volumes have their
/// real lengths.
pub open spec fn lengths_known(
    m: Metadata,
    volumes: Seq<Option<Seq<u8>>>,
    list: Seq<ResolvedChunk>,
    resolved: Set<u16>,
) -> bool {
    &&& list.len() == m.chunks.len()
    &&& forall|k: int| 0 <= k < list.len() ==> (#[trigger] list[k]).stored == m.chunks[k]
    &&& forall|k: int|
        0 <= k < list.len() && resolved.contains(m.chunks[k].file) ==> #[trigger] list[k]
            == resolved_chunk(m.chunks, volumes, m.chunks[k])
}

/// A state that reading can lead to, without limits.
pub open spec fn in_step(m: Metadata, volumes: Seq<Option<Seq<u8>>>, p: Progress) -> bool {
    &&& p.resolved.contains(0)
    &&& lengths_known(m, volumes, p.chunks, p.resolved)
    &&& match p.setup {
        None => p.limits == CodecLimits::no_limits(),
        Some(setup) => archive_setup(m, resolved_chunks(m.chunks, volumes), volumes) matches Ok(
            (whole, held),
        ) && setup == whole && 0 <= held <= usize::MAX && p.limits == (CodecLimits {
            max_input_size: usize::MAX,
            max_output_size: usize::MAX,
            max_workspace_size: (usize::MAX - held) as usize,
        }),
    }
}

/// The only part of the common buffer is the chunk behind those of the entries.
proof fn lemma_common_parts(
    entries: Seq<BuilderEntry>,
    volume_names: Seq<Seq<u8>>,
    dz: DzOptions,
    volumes: Seq<Seq<u8>>,
    chunks: Seq<Chunk>,
    payloads: Seq<Seq<u8>>,
    common: Option<Seq<u8>>,
    list: Seq<ResolvedChunk>,
    resolved: Set<u16>,
    i: int,
)
    requires
        wrote(entries, volume_names, dz, volumes, chunks, payloads, common),
        short(payloads),
        ordinary(entries),
        lengths_known(
            planned(entries, volume_names, dz, chunks),
            all_there(volumes),
            list,
            resolved,
        ),
        resolved.contains(0),
        0 <= i <= chunks.len(),
    ensures
        common_parts(
            list,
            all_there(volumes),
            i,
            if i > entries.len() {
                seq![payloads[entries.len() as int]]
            } else {
                seq![]
            },
        ) == Ok::<Seq<Seq<u8>>, Trouble>(
            match common {
                Some(bytes) => seq![bytes],
                None => seq![],
            },
        ),
    decreases chunks.len() - i,
{
    if i < chunks.len() {
        lemma_record(entries, dz, common, payloads, chunks, i);
        lemma_resolved(entries, volume_names, dz, volumes, chunks, payloads, common, i);
        assert(list[i].stored == chunks[i]);
        assert(list[i].actual().flags == chunks[i].flags);
        lemma_common_parts(
            entries,
            volume_names,
            dz,
            volumes,
            chunks,
            payloads,
            common,
            list,
            resolved,
            i + 1,
        );
        if i >= entries.len() {
            assert(i == entries.len());
            assert(list[i] == resolved_chunk(chunks, all_there(volumes), chunks[i]));
            assert(Seq::<Seq<u8>>::empty().push(payloads[i]) =~= seq![payloads[i]]);
        }
    }
}

/// What the DZ chunks are decoded with.
proof fn lemma_setup(
    entries: Seq<BuilderEntry>,
    volume_names: Seq<Seq<u8>>,
    dz: DzOptions,
    volumes: Seq<Seq<u8>>,
    chunks: Seq<Chunk>,
    payloads: Seq<Seq<u8>>,
    common: Option<Seq<u8>>,
    list: Seq<ResolvedChunk>,
    resolved: Set<u16>,
)
    requires
        wrote(entries, volume_names, dz, volumes, chunks, payloads, common),
        short(payloads),
        ordinary(entries),
        dz_before(entries, entries.len()) > 0,
        held_bytes(common) <= usize::MAX,
        lengths_known(
            planned(entries, volume_names, dz, chunks),
            all_there(volumes),
            list,
            resolved,
        ),
        resolved.contains(0),
    ensures
        archive_setup(planned(entries, volume_names, dz, chunks), list, all_there(volumes))
            == Ok::<(DzSetup, int), Trouble>(
            (
                DzSetup { settings: dz.settings, common: buffer_of(dz.settings, common) },
                held_bytes(common),
            ),
        ),
{
    lemma_common_parts(
        entries,
        volume_names,
        dz,
        volumes,
        chunks,
        payloads,
        common,
        list,
        resolved,
        0,
    );
    match common {
        Some(bytes) => {
            let parts = seq![bytes];
            assert(retained(parts, 0) == 0);
            assert(retained(parts, 1) == bytes.len());
        },
        None => {
            assert(retained(Seq::<Seq<u8>>::empty(), 0) == 0);
        },
    }
}

/// The size of the common buffer.
pub open spec fn held_bytes(common: Option<Seq<u8>>) -> int {
    match common {
        Some(bytes) => bytes.len() as int,
        None => 0,
    }
}

/// The machine has room for the common buffer and the models.
pub open spec fn roomy(dz: DzOptions, common: Option<Seq<u8>>) -> bool {
    &&& held_bytes(common) + 0x1000_0000 <= usize::MAX
    &&& held_bytes(common) + model_workspace(dz.settings, common is Some) <= usize::MAX
}

/// Read by the rule that readers try first, no DZ chunk turns into something else: it makes no
/// sense, or it is the input.
pub open spec fn unmistakable(
    entries: Seq<BuilderEntry>,
    dz: DzOptions,
    common: Option<Seq<u8>>,
    payloads: Seq<Seq<u8>>,
) -> bool {
    forall|k: int|
        0 <= k < entries.len() && storage(entries, k) == Compression::Dz ==> (unchunk(
            #[trigger] payloads[k],
            entries[k].bytes@.len() as int,
            dz.settings,
            buffer_of(dz.settings, common),
            ReferenceBaseUpdate::CompressedEndpoint,
        ) matches Ok(content) ==> content == entries[k].bytes@)
}

/// Chunks that were written by the rule that readers try first, or without a common buffer, are
/// not mistaken.
pub proof fn lemma_unmistakable(
    entries: Seq<BuilderEntry>,
    dz: DzOptions,
    common: Option<Seq<u8>>,
    payloads: Seq<Seq<u8>>,
)
    requires
        payloads_fit(entries, dz, common, payloads),
        common is None || dz.trim_reference_factor != 0,
    ensures
        unmistakable(entries, dz, common, payloads),
{
    let update = update_of(dz.engine());
    assert forall|k: int| 0 <= k < entries.len() && storage(entries, k) == Compression::Dz implies (
    unchunk(
        #[trigger] payloads[k],
        entries[k].bytes@.len() as int,
        dz.settings,
        buffer_of(dz.settings, common),
        ReferenceBaseUpdate::CompressedEndpoint,
    ) matches Ok(content) ==> content == entries[k].bytes@) by {
        assert(payload_fits(entries, dz, common, k, payloads[k]));
        if common is None {
            lemma_no_references(
                payloads[k],
                first_desk(dz.settings, false),
                seq![],
                entries[k].bytes@.len() as int,
                dz.settings,
                update,
                ReferenceBaseUpdate::CompressedEndpoint,
            );
        }
    }
}

/// Every volume is found.
proof fn lemma_volume_step(
    m: Metadata,
    volumes: Seq<Option<Seq<u8>>>,
    p: Progress,
    id: u16,
)
    requires
        in_step(m, volumes, p),
        volume_size(volumes, id) is Some,
    ensures
        ({
            let (trouble, after) = volume_resolved(m, p, id, volume_size(volumes, id));
            &&& trouble is None
            &&& in_step(m, volumes, after)
            &&& after.resolved.contains(id)
            &&& after.setup == p.setup
            &&& after.limits == p.limits
        }),
{
    if !p.resolved.contains(id) {
        let size = volume_size(volumes, id)->Some_0;
        let list = with_volume(m.chunks, p.chunks, id, size);
        lemma_no_size_trouble(list, Some(id), 0, p.limits);
        let resolved = p.resolved.insert(id);
        assert forall|k: int| 0 <= k < list.len() implies (#[trigger] list[k]).stored
            == m.chunks[k] by {
            assert(p.chunks[k].stored == m.chunks[k]);
        }
        assert forall|k: int|
            0 <= k < list.len() && resolved.contains(m.chunks[k].file) implies #[trigger] list[k]
            == resolved_chunk(m.chunks, volumes, m.chunks[k]) by {
            if m.chunks[k].file != id {
                assert(p.resolved.contains(m.chunks[k].file));
                assert(p.chunks[k] == resolved_chunk(m.chunks, volumes, m.chunks[k]));
            }
        }
    }
}

/// The common buffer lies on a volume that is resolved.
proof fn lemma_commons(
    entries: Seq<BuilderEntry>,
    volume_names: Seq<Seq<u8>>,
    dz: DzOptions,
    volumes: Seq<Seq<u8>>,
    chunks: Seq<Chunk>,
    payloads: Seq<Seq<u8>>,
    common: Option<Seq<u8>>,
    p: Progress,
    i: int,
)
    requires
        wrote(entries, volume_names, dz, volumes, chunks, payloads, common),
        short(payloads),
        ordinary(entries),
        p.resolved.contains(0),
        0 <= i <= chunks.len(),
    ensures
        commons_resolved(
            planned(entries, volume_names, dz, chunks),
            all_there(volumes),
            p,
            i,
        ) == (None::<Trouble>, p),
    decreases chunks.len() - i,
{
    if i < chunks.len() {
        lemma_record(entries, dz, common, payloads, chunks, i);
        lemma_commons(entries, volume_names, dz, volumes, chunks, payloads, common, p, i + 1);
    }
}

/// What the DZ chunks are decoded with is loaded.
proof fn lemma_context(
    entries: Seq<BuilderEntry>,
    volume_names: Seq<Seq<u8>>,
    dz: DzOptions,
    volumes: Seq<Seq<u8>>,
    chunks: Seq<Chunk>,
    payloads: Seq<Seq<u8>>,
    common: Option<Seq<u8>>,
    p: Progress,
)
    requires
        wrote(entries, volume_names, dz, volumes, chunks, payloads, common),
        short(payloads),
        ordinary(entries),
        roomy(dz, common),
        dz_before(entries, entries.len()) > 0,
        in_step(planned(entries, volume_names, dz, chunks), all_there(volumes), p),
    ensures
        ({
            let m = planned(entries, volume_names, dz, chunks);
            let (trouble, after) = context_loaded(m, all_there(volumes), p);
            &&& trouble is None
            &&& in_step(m, all_there(volumes), after)
            &&& after.setup == Some(
                DzSetup { settings: dz.settings, common: buffer_of(dz.settings, common) },
            )
            &&& after.limits == later_limits(common)
            &&& after.chunks == p.chunks
        }),
{
    let m = planned(entries, volume_names, dz, chunks);
    let there = all_there(volumes);
    let list = resolved_chunks(chunks, there);
    let everything = Set::<u16>::full();
    assert(lengths_known(m, there, list, everything));
    lemma_setup(
        entries,
        volume_names,
        dz,
        volumes,
        chunks,
        payloads,
        common,
        list,
        everything,
    );
    if p.setup is None {
        lemma_commons(entries, volume_names, dz, volumes, chunks, payloads, common, p, 0);
        lemma_setup(
            entries,
            volume_names,
            dz,
            volumes,
            chunks,
            payloads,
            common,
            p.chunks,
            p.resolved,
        );
    }
}

/// The limits once the common buffer is loaded.
pub open spec fn later_limits(common: Option<Seq<u8>>) -> CodecLimits {
    CodecLimits {
        max_input_size: usize::MAX,
        max_output_size: usize::MAX,
        max_workspace_size: (usize::MAX - held_bytes(common)) as usize,
    }
}

/// The limits of a state that reading can lead to leave room for every codec.
proof fn lemma_ample(
    entries: Seq<BuilderEntry>,
    volume_names: Seq<Seq<u8>>,
    dz: DzOptions,
    volumes: Seq<Seq<u8>>,
    chunks: Seq<Chunk>,
    payloads: Seq<Seq<u8>>,
    common: Option<Seq<u8>>,
    p: Progress,
)
    requires
        wrote(entries, volume_names, dz, volumes, chunks, payloads, common),
        short(payloads),
        ordinary(entries),
        roomy(dz, common),
        in_step(planned(entries, volume_names, dz, chunks), all_there(volumes), p),
    ensures
        p.limits.ample(),
{
    let m = planned(entries, volume_names, dz, chunks);
    if p.setup is Some {
        assert(m.range is Some);
        lemma_context(entries, volume_names, dz, volumes, chunks, payloads, common, p);
    }
}

/// A chunk of an entry decodes to the input, once its volume is resolved.
#[verifier::rlimit(40)]
proof fn lemma_chunk(
    entries: Seq<BuilderEntry>,
    volume_names: Seq<Seq<u8>>,
    dz: DzOptions,
    volumes: Seq<Seq<u8>>,
    chunks: Seq<Chunk>,
    payloads: Seq<Seq<u8>>,
    common: Option<Seq<u8>>,
    k: int,
    p: Progress,
)
    requires
        wrote(entries, volume_names, dz, volumes, chunks, payloads, common),
        short(payloads),
        ordinary(entries),
        roomy(dz, common),
        unmistakable(entries, dz, common, payloads),
        0 <= k < entries.len(),
        in_step(planned(entries, volume_names, dz, chunks), all_there(volumes), p),
    ensures
        ({
            let m = planned(entries, volume_names, dz, chunks);
            let chunk = Chunk { compressed_length: payloads[k].len() as u32, ..chunks[k] };
            let (content, after) = chunk_read(m, all_there(volumes), chunk, p);
            &&& content == Ok::<Seq<u8>, Trouble>(entries[k].bytes@)
            &&& in_step(m, all_there(volumes), after)
        }),
{
    let there = all_there(volumes);
    let compression = entries[k].options.compression;
    let input = entries[k].bytes@;
    let chunk = Chunk { compressed_length: payloads[k].len() as u32, ..chunks[k] };
    lemma_record(entries, dz, common, payloads, chunks, k);
    lemma_resolved(entries, volume_names, dz, volumes, chunks, payloads, common, k);
    assert(payload_fits(entries, dz, common, k, payloads[k]));
    assert(payloads[k].len() <= u32::MAX);
    assert(input.len() <= u32::MAX);
    let encoding = meaning(chunk.flags)->Some_0;
    assert(encoding.compression == compression);
    if compression == Compression::Dz {
        assert(stored_bytes(there, chunk, compression) == Ok::<Seq<u8>, Trouble>(payloads[k]));
        lemma_dz_before(entries, k as nat, entries.len());
        lemma_context(entries, volume_names, dz, volumes, chunks, payloads, common, p);
        lemma_dz_piece(entries, dz, common, k, payloads[k]);
    } else {
        if compression == Compression::Zero {
            lemma_piece_zero(input);
        } else {
            assert(stored_bytes(there, chunk, compression) == Ok::<Seq<u8>, Trouble>(
                payloads[k],
            ));
        }
        lemma_ample(entries, volume_names, dz, volumes, chunks, payloads, common, p);
        lemma_chunk_round_trip(compression, input, p.setup, p.limits);
    }
}

/// A chunk of an entry decodes to the input.
proof fn lemma_piece(
    entries: Seq<BuilderEntry>,
    volume_names: Seq<Seq<u8>>,
    dz: DzOptions,
    volumes: Seq<Seq<u8>>,
    chunks: Seq<Chunk>,
    payloads: Seq<Seq<u8>>,
    common: Option<Seq<u8>>,
    k: int,
    p: Progress,
)
    requires
        wrote(entries, volume_names, dz, volumes, chunks, payloads, common),
        short(payloads),
        ordinary(entries),
        roomy(dz, common),
        unmistakable(entries, dz, common, payloads),
        0 <= k < entries.len(),
        in_step(planned(entries, volume_names, dz, chunks), all_there(volumes), p),
    ensures
        ({
            let m = planned(entries, volume_names, dz, chunks);
            let (content, after) = piece_read(m, all_there(volumes), k as u16, p);
            &&& content == Ok::<Seq<u8>, Trouble>(entries[k].bytes@)
            &&& in_step(m, all_there(volumes), after)
        }),
{
    let m = planned(entries, volume_names, dz, chunks);
    let there = all_there(volumes);
    reveal(piece_read);
    lemma_resolved(entries, volume_names, dz, volumes, chunks, payloads, common, k);
    lemma_volume_step(m, there, p, chunks[k].file);
    let step = volume_resolved(m, p, chunks[k].file, volume_size(there, chunks[k].file)).1;
    assert(step.chunks[k] == resolved_chunk(chunks, there, chunks[k]));
    assert(step.chunks[k].actual() == (Chunk {
        compressed_length: payloads[k].len() as u32,
        ..chunks[k]
    })) by {
        assert(payloads[k].len() <= u32::MAX);
    }
    lemma_chunk(entries, volume_names, dz, volumes, chunks, payloads, common, k, step);
}

/// A DZ chunk decodes to the input, once the common buffer is loaded.
proof fn lemma_dz_piece(
    entries: Seq<BuilderEntry>,
    dz: DzOptions,
    common: Option<Seq<u8>>,
    k: int,
    payload: Seq<u8>,
)
    requires
        0 <= k < entries.len(),
        entries[k].bytes@.len() <= u32::MAX,
        storage(entries, k) == Compression::Dz,
        payload_fits(entries, dz, common, k, payload),
        unchunk(
            payload,
            entries[k].bytes@.len() as int,
            dz.settings,
            buffer_of(dz.settings, common),
            ReferenceBaseUpdate::CompressedEndpoint,
        ) matches Ok(content) ==> content == entries[k].bytes@,
        roomy(dz, common),
        (common is Some) == dz.use_combuf,
        dz.settings.valid(),
        payload.len() <= u32::MAX,
    ensures
        limited_content(
            Compression::Dz,
            payload,
            entries[k].bytes@.len() as usize,
            Some(DzSetup { settings: dz.settings, common: buffer_of(dz.settings, common) }),
            later_limits(common),
        ) == Ok::<Seq<u8>, Trouble>(entries[k].bytes@),
{
    let input = entries[k].bytes@;
    let update = update_of(dz.engine());
    if common is None {
        lemma_no_references(
            payload,
            first_desk(dz.settings, false),
            seq![],
            input.len() as int,
            dz.settings,
            update,
            ReferenceBaseUpdate::CompressedEndpoint,
        );
    }
    assert(undz(payload, input.len() as int, dz.settings, buffer_of(dz.settings, common)) == Ok::<
        Seq<u8>,
        DzFault,
    >(input));
    assert(dz_refusal(
        dz.settings,
        common is Some,
        input.len() as usize,
        later_limits(common),
    ) is None);
}

proof fn lemma_piece_zero(input: Seq<u8>)
    ensures
        stored(Compression::Zero, input) == Some(
            Ok::<Seq<u8>, crate::codec::error::CodecTrouble>(seq![]),
        ),
{
}

/// The inputs of the first `n` of the given entries, one behind the other.
pub open spec fn gathered(entries: Seq<BuilderEntry>, ids: Seq<u16>, n: nat) -> Seq<u8>
    decreases n,
{
    if n == 0 {
        seq![]
    } else {
        gathered(entries, ids, (n - 1) as nat) + entries[ids[n - 1] as int].bytes@
    }
}

/// All numbers are those of entries.
pub open spec fn known(entries: Seq<BuilderEntry>, ids: Seq<u16>) -> bool {
    forall|j: int| 0 <= j < ids.len() ==> #[trigger] ids[j] < entries.len()
}

proof fn lemma_gathered_grows(entries: Seq<BuilderEntry>, ids: Seq<u16>, a: nat, b: nat)
    requires
        a <= b,
    ensures
        gathered(entries, ids, a).len() <= gathered(entries, ids, b).len(),
    decreases b,
{
    if a < b {
        lemma_gathered_grows(entries, ids, a, (b - 1) as nat);
    }
}

/// The chunks of a file decode to its inputs.
proof fn lemma_pieces(
    entries: Seq<BuilderEntry>,
    volume_names: Seq<Seq<u8>>,
    dz: DzOptions,
    volumes: Seq<Seq<u8>>,
    chunks: Seq<Chunk>,
    payloads: Seq<Seq<u8>>,
    common: Option<Seq<u8>>,
    ids: Seq<u16>,
    j: int,
    p: Progress,
)
    requires
        wrote(entries, volume_names, dz, volumes, chunks, payloads, common),
        short(payloads),
        ordinary(entries),
        roomy(dz, common),
        unmistakable(entries, dz, common, payloads),
        known(entries, ids),
        0 <= j <= ids.len(),
        gathered(entries, ids, ids.len()).len() <= usize::MAX,
        in_step(planned(entries, volume_names, dz, chunks), all_there(volumes), p),
    ensures
        ({
            let m = planned(entries, volume_names, dz, chunks);
            let reading = pieces_read(
                m,
                all_there(volumes),
                ids,
                j,
                gathered(entries, ids, j as nat),
                p,
            );
            &&& reading.trouble is None
            &&& reading.out == gathered(entries, ids, ids.len())
            &&& in_step(m, all_there(volumes), reading.progress)
        }),
    decreases ids.len() - j,
{
    if j < ids.len() {
        let m = planned(entries, volume_names, dz, chunks);
        let k = ids[j] as int;
        lemma_piece(entries, volume_names, dz, volumes, chunks, payloads, common, k, p);
        lemma_gathered_grows(entries, ids, (j + 1) as nat, ids.len());
        let after = piece_read(m, all_there(volumes), ids[j], p).1;
        lemma_pieces(
            entries,
            volume_names,
            dz,
            volumes,
            chunks,
            payloads,
            common,
            ids,
            j + 1,
            after,
        );
    }
}

proof fn lemma_plain_components(path: Seq<u8>, start: int, i: int, stack: Seq<Seq<u8>>)
    requires
        plain_name(path),
        0 <= start <= i <= path.len(),
        all_names(stack),
    ensures
        components_from(path, start, i, stack) matches Some(list) ==> all_names(list),
    decreases path.len() - i,
{
    let component = path.subrange(start, i);
    assert(plain_name(component)) by {
        assert forall|k: int| 0 <= k < component.len() implies #[trigger] component[k] != 0 by {
            assert(path[start + k] != 0);
        }
    }
    assert(entered(stack, component) matches Some(after) ==> all_names(after));
    if i < path.len() {
        if separator(path[i]) {
            if let Some(after) = entered(stack, component) {
                lemma_plain_components(path, i + 1, i + 1, after);
            }
        } else {
            lemma_plain_components(path, start, i + 1, stack);
        }
    }
}

proof fn lemma_plain_joined(list: Seq<Seq<u8>>, between: u8, n: nat)
    requires
        all_names(list),
        between != 0,
        n <= list.len(),
    ensures
        plain_name(joined(list, between, n)),
    decreases n,
{
    if n > 1 {
        lemma_plain_joined(list, between, (n - 1) as nat);
        assert(plain_name(list[n - 1]));
    } else if n == 1 {
        assert(plain_name(list[0]));
    }
}

/// The parts of a name without zeros have none.
proof fn lemma_plain_split(path: Seq<u8>)
    requires
        plain_name(path),
        split_path(path) is Some,
    ensures
        plain_name(split_path(path)->Some_0.0),
        plain_name(split_path(path)->Some_0.1),
{
    lemma_plain_components(path, 0, 0, seq![]);
    let list = components(path)->Some_0;
    lemma_plain_joined(list, 0x5c, (list.len() - 1) as nat);
    assert(plain_name(list[list.len() - 1]));
}

/// The grouped paths are paths of entries.
proof fn lemma_files(entries: Seq<BuilderEntry>, l: int)
    requires
        ordinary(entries),
        0 <= l < grouped(paths_of(entries), entries.len()).len(),
    ensures
        plain_name(grouped(paths_of(entries), entries.len())[l]),
        plain_form(grouped(paths_of(entries), entries.len())[l]),
        split_path(grouped(paths_of(entries), entries.len())[l]) is Some,
{
    let paths = paths_of(entries);
    lemma_grouped_members(paths, entries.len());
    let k = choose|k: int|
        0 <= k < entries.len() && paths[k] == grouped(paths, entries.len())[l];
    assert(plain_name(entries[k].archive_path@));
}

/// The chunk numbers of a file are those of entries.
proof fn lemma_members(paths: Seq<Seq<u8>>, list: Seq<Seq<u8>>, l: int, n: nat)
    requires
        n <= 0xffff,
    ensures
        plain_numbers(members(paths, list, l, n)),
        members(paths, list, l, n).len() <= n,
        forall|j: int|
            0 <= j < members(paths, list, l, n).len() ==> #[trigger] members(paths, list, l, n)[j]
                < n,
    decreases n,
{
    if n > 0 {
        lemma_members(paths, list, l, (n - 1) as nat);
    }
}

/// The metadata of a new archive are read as they were meant.
proof fn lemma_writable(
    entries: Seq<BuilderEntry>,
    volume_names: Seq<Seq<u8>>,
    dz: DzOptions,
    volumes: Seq<Seq<u8>>,
    chunks: Seq<Chunk>,
    payloads: Seq<Seq<u8>>,
    common: Option<Seq<u8>>,
)
    requires
        wrote(entries, volume_names, dz, volumes, chunks, payloads, common),
        short(payloads),
        ordinary(entries),
        all_names(volume_names),
    ensures
        writable(planned(entries, volume_names, dz, chunks)),
{
    let m = planned(entries, volume_names, dz, chunks);
    let n = entries.len();
    let paths = paths_of(entries);
    let list = grouped(paths, n);
    let folders = directories(list, list.len());
    lemma_directory_members(list, list.len());
    assert forall|i: int| 0 <= i < m.strings.len() implies plain_name(#[trigger] m.strings[i]) by {
        if i < list.len() {
            lemma_files(entries, i);
            lemma_plain_split(list[i]);
        } else {
            let d = i - list.len();
            assert(m.strings[i] == folders[d]);
            let k = choose|k: int|
                0 <= k < list.len() && split_path(list[k])->Some_0.0 == folders[d];
            lemma_files(entries, k);
            lemma_plain_split(list[k]);
        }
    }
    assert forall|i: int| 0 <= i < m.volumes.len() implies plain_name(#[trigger] m.volumes[i]) by {
        assert(m.volumes[i] == volume_names[i + 1]);
    }
    assert forall|l: int| 0 <= l < m.files.len() implies plain_numbers(
        (#[trigger] m.files[l]).chunks,
    ) by {
        lemma_members(paths, list, l, n);
    }
    assert((m.range is Some) == wants_range(chunks)) by {
        if dz_before(entries, n) > 0 {
            lemma_some_dz(entries, n);
            let k = choose|k: int|
                0 <= k < n && #[trigger] storage(entries, k) == Compression::Dz;
            lemma_record(entries, dz, common, payloads, chunks, k);
            assert(chunks[k].flags & CHUNK_DZ != 0);
        }
        if wants_range(chunks) {
            let k = choose|k: int|
                0 <= k < chunks.len() && (#[trigger] chunks[k]).flags & CHUNK_DZ != 0;
            lemma_record(entries, dz, common, payloads, chunks, k);
            lemma_dz_before(entries, k as nat, n);
        }
    }
}

proof fn lemma_some_dz(entries: Seq<BuilderEntry>, n: nat)
    requires
        dz_before(entries, n) > 0,
    ensures
        exists|k: int| 0 <= k < n && #[trigger] storage(entries, k) == Compression::Dz,
    decreases n,
{
    if n > 0 {
        if storage(entries, n - 1) != Compression::Dz {
            lemma_some_dz(entries, (n - 1) as nat);
            let k = choose|k: int|
                0 <= k < n - 1 && #[trigger] storage(entries, k) == Compression::Dz;
            assert(storage(entries, k) == Compression::Dz && 0 <= k < n);
        } else {
            assert(storage(entries, n - 1) == Compression::Dz);
        }
    }
}

/// The path that a reader puts together is a proper one.
proof fn lemma_stored_path(list: Seq<Seq<u8>>, l: int)
    requires
        0 <= l < list.len(),
        splittable(list),
        forall|i: int| 0 <= i < list.len() ==> plain_form(#[trigger] list[i]),
    ensures
        components(stored_path(directories(list, list.len()), list[l])) is Some,
{
    let folders = directories(list, list.len());
    let path = list[l];
    let (directory, name) = split_path(path)->Some_0;
    let parts = components(path)->Some_0;
    lemma_components_proper(path);
    assert(split_path(list[l]) is Some);
    if directory.len() == 0 {
        if parts.len() > 1 {
            lemma_joined_not_empty(parts, 0x5c, (parts.len() - 1) as nat);
        }
        assert(parts.len() == 1);
        let single = seq![name];
        assert(joined(single, 0x5c, 1) == name);
        assert(parts =~= single);
        lemma_head_not_rooted(parts, path, single);
        lemma_joined_components(single, 0x5c);
    } else {
        lemma_directories(list, l, list.len());
        lemma_place_from(folders, directory, 0);
        lemma_directory_members(list, list.len());
        let p = place(folders, directory);
        let k = choose|k: int|
            0 <= k < list.len() && split_path(list[k])->Some_0.0 == folders[p];
        assert(split_path(list[k]) is Some);
        lemma_components_proper(list[k]);
        let other = components(list[k])->Some_0;
        let head = other.take(other.len() - 1);
        lemma_joined_take(other, 0x5c, (other.len() - 1) as nat);
        assert(folders[p] == joined(head, 0x5c, head.len()));
        assert(crate::path::path_key(folders[p]).len() == crate::path::path_key(directory).len());
        let whole = head.push(name);
        if head.len() == 0 {
            assert(folders[p].len() == 0);
        }
        lemma_joined_take(whole, 0x5c, head.len());
        assert(whole.take(head.len() as int) =~= head);
        assert(all_proper(whole)) by {
            assert forall|i: int| 0 <= i < whole.len() implies (#[trigger] whole[i]).len() > 0
                && whole[i] != crate::path::dot() && whole[i] != crate::path::dot_dot()
                && forall|j: int| 0 <= j < whole[i].len() ==> !separator(#[trigger] whole[i][j]) by {
                if i < head.len() {
                    assert(whole[i] == other[i]);
                } else {
                    assert(whole[i] == parts[parts.len() - 1]);
                }
            }
        }
        lemma_joined_last(head, 0x5c, head.len());
        assert(with_separator(folders[p]) == folders[p].push(0x5c));
        assert(joined(whole, 0x5c, whole.len()) == joined(head, 0x5c, head.len()).push(0x5c) + name);
        assert(plain_form(list[k]));
        lemma_head_not_rooted(other, list[k], whole);
        lemma_joined_components(whole, 0x5c);
    }
}

proof fn lemma_joined_not_empty(list: Seq<Seq<u8>>, between: u8, n: nat)
    requires
        all_proper(list),
        1 <= n <= list.len(),
    ensures
        joined(list, between, n).len() > 0,
{
    assert(list[n - 1].len() > 0);
}

/// Joining looks at the first components only.
proof fn lemma_joined_take(list: Seq<Seq<u8>>, between: u8, n: nat)
    requires
        n <= list.len(),
    ensures
        joined(list.take(n as int), between, n) == joined(list, between, n),
    decreases n,
{
    if n > 1 {
        let shorter = list.take(n as int);
        lemma_joined_take(list, between, (n - 1) as nat);
        lemma_joined_take(shorter, between, (n - 1) as nat);
        assert(shorter.take(n - 1) =~= list.take(n - 1));
    }
}

/// A joined path does not end in a separator.
proof fn lemma_joined_last(list: Seq<Seq<u8>>, between: u8, n: nat)
    requires
        all_proper(list),
        1 <= n <= list.len(),
    ensures
        joined(list, between, n).len() > 0,
        !separator(joined(list, between, n).last()),
{
    let last = list[n - 1];
    assert(last.len() > 0);
    assert(!separator(last[last.len() - 1]));
    assert(joined(list, between, n).last() == last[last.len() - 1]);
}

/// A joined path begins with its first component.
proof fn lemma_joined_head(list: Seq<Seq<u8>>, between: u8, n: nat)
    requires
        1 <= n <= list.len(),
    ensures
        joined(list, between, n).len() >= list[0].len(),
        forall|i: int| 0 <= i < list[0].len() ==> #[trigger] joined(list, between, n)[i] == list[0][i],
        n > 1 ==> joined(list, between, n).len() > list[0].len() && joined(list, between, n)[
            list[0].len() as int
        ] == between,
    decreases n,
{
    if n > 1 {
        lemma_joined_head(list, between, (n - 1) as nat);
        let rest = joined(list, between, (n - 1) as nat);
        let whole = joined(list, between, n);
        assert(whole == rest.push(between) + list[n - 1]);
        assert forall|i: int| 0 <= i < list[0].len() implies #[trigger] whole[i] == list[0][i] by {
            assert(whole[i] == rest[i]);
        }
        if n > 2 {
            assert(whole[list[0].len() as int] == rest[list[0].len() as int]);
        } else {
            assert(rest == list[0]);
        }
    }
}

/// What is put together of proper components is not rooted, if their first one does not begin
/// a rooted path.
proof fn lemma_head_not_rooted(
    other: Seq<Seq<u8>>,
    path: Seq<u8>,
    whole: Seq<Seq<u8>>,
)
    requires
        all_proper(other),
        all_proper(whole),
        other.len() > 0,
        whole.len() > 0,
        path == joined(other, 0x2f, other.len()),
        !rooted(path),
        whole[0] == other[0],
        whole.len() == 1 ==> other.len() == 1,
    ensures
        !rooted(joined(whole, 0x5c, whole.len())),
{
    lemma_joined_head(other, 0x2f, other.len());
    lemma_joined_head(whole, 0x5c, whole.len());
    let first = whole[0];
    assert(first.len() > 0);
    assert(!separator(first[0]));
    if first.len() >= 2 {
        assert(path[1] == first[1]);
    }
}

/// The path is in its plain form.
pub open spec fn plain_form(path: Seq<u8>) -> bool {
    components(path) matches Some(list) && list.len() > 0 && path == joined(
        list,
        0x2f,
        list.len(),
    )
}

/// The pieces of a file are found.
proof fn lemma_found_pieces(
    entries: Seq<BuilderEntry>,
    volume_names: Seq<Seq<u8>>,
    dz: DzOptions,
    volumes: Seq<Seq<u8>>,
    chunks: Seq<Chunk>,
    payloads: Seq<Seq<u8>>,
    common: Option<Seq<u8>>,
    path: Seq<u8>,
    ids: Seq<u16>,
    j: int,
    segments: Seq<EntrySegment>,
)
    requires
        wrote(entries, volume_names, dz, volumes, chunks, payloads, common),
        short(payloads),
        ordinary(entries),
        known(entries, ids),
        ids.len() <= 0xffff,
        0 <= j <= ids.len(),
        gathered(entries, ids, j as nat).len() <= j * 0x1_0000_0000,
    ensures
        pieces_from(
            planned(entries, volume_names, dz, chunks),
            path,
            ids,
            j,
            segments,
            gathered(entries, ids, j as nat).len() as int,
        ) matches Ok((list, size)) && size == gathered(entries, ids, ids.len()).len(),
        gathered(entries, ids, ids.len()).len() <= 0xffff_0000_0000,
    decreases ids.len() - j,
{
    let m = planned(entries, volume_names, dz, chunks);
    if j < ids.len() {
        let k = ids[j] as int;
        lemma_record(entries, dz, common, payloads, chunks, k);
        lemma_resolved(entries, volume_names, dz, volumes, chunks, payloads, common, k);
        let chunk = chunks[k];
        let size = gathered(entries, ids, j as nat).len() as int;
        assert(piece_trouble(m, path, ids[j]) is None);
        let next = segments.push(
            EntrySegment {
                chunk_id: ids[j],
                start: size as u64,
                end: (size + chunk.decompressed_length) as u64,
                encoding: meaning(chunk.flags)->Some_0,
                volume: chunk.file,
            },
        );
        lemma_found_pieces(
            entries,
            volume_names,
            dz,
            volumes,
            chunks,
            payloads,
            common,
            path,
            ids,
            j + 1,
            next,
        );
    }
}

/// What a reader finds for a file.
pub open spec fn found(
    entries: Seq<BuilderEntry>,
    l: int,
    entry: EntryView,
) -> bool {
    let paths = paths_of(entries);
    let list = grouped(paths, entries.len());
    let ids = members(paths, list, l, entries.len());
    &&& entry.id == EntryId(l as usize)
    &&& entry.raw_path == stored_path(directories(list, list.len()), list[l])
    &&& entry.chunk_ids == ids
    &&& entry.decompressed_size == gathered(entries, ids, ids.len()).len()
}

/// A file is found in the index.
proof fn lemma_found_entry(
    entries: Seq<BuilderEntry>,
    volume_names: Seq<Seq<u8>>,
    dz: DzOptions,
    volumes: Seq<Seq<u8>>,
    chunks: Seq<Chunk>,
    payloads: Seq<Seq<u8>>,
    common: Option<Seq<u8>>,
    l: int,
)
    requires
        wrote(entries, volume_names, dz, volumes, chunks, payloads, common),
        short(payloads),
        ordinary(entries),
        0 <= l < grouped(paths_of(entries), entries.len()).len(),
    ensures
        entry_of(planned(entries, volume_names, dz, chunks), l, ReadLimits::no_limits()) matches Ok(
            entry,
        ) && found(entries, l, entry) && entry.decompressed_size <= 0xffff_0000_0000,
{
    let m = planned(entries, volume_names, dz, chunks);
    let n = entries.len();
    let paths = paths_of(entries);
    let list = grouped(paths, n);
    let folders = directories(list, list.len());
    let ids = members(paths, list, l, n);
    lemma_members(paths, list, l, n);
    assert forall|i: int| 0 <= i < list.len() implies plain_form(#[trigger] list[i]) by {
        lemma_files(entries, i);
    }
    assert forall|i: int| 0 <= i < list.len() implies split_path(#[trigger] list[i]) is Some by {
        lemma_files(entries, i);
    }
    lemma_stored_path(list, l);
    let (directory, name) = split_path(list[l])->Some_0;
    assert(m.strings[l] == name);
    if directory.len() > 0 {
        lemma_directories(list, l, list.len());
        lemma_place_from(folders, directory, 0);
        let p = place(folders, directory);
        assert(m.strings[list.len() + p] == folders[p]);
    }
    assert(raw_path(m, l) == Ok::<Seq<u8>, Trouble>(stored_path(folders, list[l])));
    assert(all_utf8(paths)) by {
        assert forall|k: int| 0 <= k < paths.len() implies valid_utf8(#[trigger] paths[k]) by {
            assert(plain_form(entries[k].archive_path@));
        }
    }
    lemma_utf8_grouped(entries);
    lemma_utf8_stored(list, l);
    lemma_found_pieces(
        entries,
        volume_names,
        dz,
        volumes,
        chunks,
        payloads,
        common,
        plain_path(stored_path(folders, list[l]))->Some_0,
        ids,
        0,
        seq![],
    );
}

/// All files are found in the index.
proof fn lemma_found_entries(
    entries: Seq<BuilderEntry>,
    volume_names: Seq<Seq<u8>>,
    dz: DzOptions,
    volumes: Seq<Seq<u8>>,
    chunks: Seq<Chunk>,
    payloads: Seq<Seq<u8>>,
    common: Option<Seq<u8>>,
    l: int,
    known_entries: Seq<EntryView>,
    total: int,
)
    requires
        wrote(entries, volume_names, dz, volumes, chunks, payloads, common),
        short(payloads),
        ordinary(entries),
        0 <= l <= grouped(paths_of(entries), entries.len()).len(),
        known_entries.len() == l,
        forall|i: int| 0 <= i < l ==> found(entries, i, #[trigger] known_entries[i]),
        0 <= total <= l * 0xffff_0000_0000,
    ensures
        entries_from(
            planned(entries, volume_names, dz, chunks),
            l,
            known_entries,
            total,
            ReadLimits::no_limits(),
        ) matches Ok(list) && list.len() == grouped(paths_of(entries), entries.len()).len()
            && forall|i: int| 0 <= i < list.len() ==> found(entries, i, #[trigger] list[i]),
    decreases grouped(paths_of(entries), entries.len()).len() - l,
{
    let m = planned(entries, volume_names, dz, chunks);
    if l < m.files.len() {
        lemma_found_entry(entries, volume_names, dz, volumes, chunks, payloads, common, l);
        let entry = entry_of(m, l, ReadLimits::no_limits())->Ok_0;
        lemma_found_entries(
            entries,
            volume_names,
            dz,
            volumes,
            chunks,
            payloads,
            common,
            l + 1,
            known_entries.push(entry),
            total + entry.decompressed_size,
        );
    }
}

proof fn lemma_no_flags_trouble(
    entries: Seq<BuilderEntry>,
    dz: DzOptions,
    common: Option<Seq<u8>>,
    payloads: Seq<Seq<u8>>,
    chunks: Seq<Chunk>,
    i: int,
)
    requires
        ordinary(entries),
        payloads_fit(entries, dz, common, payloads),
        recorded(entries, payloads, chunks),
        short(payloads),
        0 <= i <= chunks.len(),
    ensures
        flags_trouble(chunks, i) is None,
    decreases chunks.len() - i,
{
    if i < chunks.len() {
        lemma_record(entries, dz, common, payloads, chunks, i);
        lemma_no_flags_trouble(entries, dz, common, payloads, chunks, i + 1);
    }
}

proof fn lemma_no_size_trouble(
    chunks: Seq<ResolvedChunk>,
    only: Option<u16>,
    i: int,
    limits: CodecLimits,
)
    requires
        0 <= i <= chunks.len(),
        limits.max_input_size == usize::MAX,
        limits.max_output_size == usize::MAX,
    ensures
        size_trouble(chunks, only, i, limits) is None,
    decreases chunks.len() - i,
{
    if i < chunks.len() {
        lemma_no_size_trouble(chunks, only, i + 1, limits);
    }
}

/// The inputs that were added under the path of a file, in their order.
pub open spec fn file_content(entries: Seq<BuilderEntry>, l: int) -> Seq<u8> {
    let paths = paths_of(entries);
    let ids = members(paths, grouped(paths, entries.len()), l, entries.len());
    gathered(entries, ids, ids.len())
}

/// An archive that was written is opened, with one entry for every path.
pub proof fn lemma_archive_opens(
    entries: Seq<BuilderEntry>,
    volume_names: Seq<Seq<u8>>,
    dz: DzOptions,
    volumes: Seq<Seq<u8>>,
    chunks: Seq<Chunk>,
    payloads: Seq<Seq<u8>>,
    common: Option<Seq<u8>>,
)
    requires
        wrote(entries, volume_names, dz, volumes, chunks, payloads, common),
        short(payloads),
        ordinary(entries),
        all_names(volume_names),
        all_utf8(volume_names),
        volumes[0].len() <= usize::MAX,
    ensures
        ({
            let m = planned(entries, volume_names, dz, chunks);
            let files = grouped(paths_of(entries), entries.len());
            &&& parse(volumes[0], ReadLimits::no_limits()) == Ok::<Metadata, Trouble>(m)
            &&& opened(m, volumes[0], ReadLimits::no_limits()) matches Ok(list)
            &&& list.len() == files.len()
            &&& forall|l: int| 0 <= l < list.len() ==> found(entries, l, #[trigger] list[l])
            &&& in_step(
                m,
                all_there(volumes),
                first_progress(m, volumes[0], ReadLimits::no_limits()),
            )
        }),
{
    let m = planned(entries, volume_names, dz, chunks);
    let there = all_there(volumes);
    let first = first_progress(m, volumes[0], ReadLimits::no_limits());
    lemma_writable(entries, volume_names, dz, volumes, chunks, payloads, common);
    lemma_metadata_round_trip(m, volumes[0]);
    lemma_no_flags_trouble(entries, dz, common, payloads, chunks, 0);
    lemma_no_size_trouble(first.chunks, None, 0, first.limits);
    assert forall|i: int| 0 <= i < m.volumes.len() implies valid_utf8(#[trigger] m.volumes[i]) by {
        assert(m.volumes[i] == volume_names[i + 1]);
    }
    lemma_all_utf8(m.volumes, 0);
    lemma_found_entries(
        entries,
        volume_names,
        dz,
        volumes,
        chunks,
        payloads,
        common,
        0,
        seq![],
        0,
    );
    assert forall|k: int|
        0 <= k < first.chunks.len() && first.resolved.contains(
            m.chunks[k].file,
        ) implies #[trigger] first.chunks[k] == resolved_chunk(
        m.chunks,
        there,
        m.chunks[k],
    ) by {
        assert(m.chunks[k].file == 0);
        assert(there[0] == Some(volumes[0]));
    }
}

/// The central promise: every file of an archive that was written reads as the inputs that were
/// added under its path, in their order, whatever was read before.
///
/// It holds of entries with ordinary options whose zeros are zeros, on a machine that has room
/// for the common buffer. Where a common buffer is written without trimming references, it
/// leaves out chunks that readers mistake for others.
pub proof fn lemma_archive_round_trip(
    entries: Seq<BuilderEntry>,
    volume_names: Seq<Seq<u8>>,
    dz: DzOptions,
    volumes: Seq<Seq<u8>>,
    chunks: Seq<Chunk>,
    payloads: Seq<Seq<u8>>,
    common: Option<Seq<u8>>,
    l: int,
    entry: EntryView,
    p: Progress,
)
    requires
        wrote(entries, volume_names, dz, volumes, chunks, payloads, common),
        short(payloads),
        ordinary(entries),
        roomy(dz, common),
        unmistakable(entries, dz, common, payloads),
        0 <= l < grouped(paths_of(entries), entries.len()).len(),
        found(entries, l, entry),
        file_content(entries, l).len() <= usize::MAX,
        in_step(planned(entries, volume_names, dz, chunks), all_there(volumes), p),
    ensures
        ({
            let m = planned(entries, volume_names, dz, chunks);
            let reading = entry_read(m, all_there(volumes), entry, Seq::empty(), p);
            &&& reading.trouble is None
            &&& reading.out == file_content(entries, l)
            &&& in_step(m, all_there(volumes), reading.progress)
        }),
{
    let paths = paths_of(entries);
    let files = grouped(paths, entries.len());
    let ids = members(paths, files, l, entries.len());
    lemma_members(paths, files, l, entries.len());
    assert(gathered(entries, ids, 0) =~= Seq::empty());
    lemma_pieces(entries, volume_names, dz, volumes, chunks, payloads, common, ids, 0, p);
}

/// What is asked of the options of entries, so that a reader gives back just what went in: no
/// flags of their own, and zeros where zeros are to be stored.
pub open spec fn tame(entries: Seq<BuilderEntry>) -> bool {
    forall|k: int|
        0 <= k < entries.len() ==> {
            &&& (#[trigger] entries[k]).options.raw_flags is None
            &&& entries[k].options.compression == Compression::Zero ==> forall|i: int|
                0 <= i < entries[k].bytes@.len() ==> #[trigger] entries[k].bytes@[i] == 0
        }
}

/// A reader without limits will find just what was added: the options are tame, the lengths of
/// what is stored fit the format, the machine has room, and where a common buffer is written
/// without trimming references no chunk is mistaken for another.
#[verifier::opaque]
pub open spec fn readable(entries: Seq<BuilderEntry>, options: PackOptions) -> bool {
    &&& tame(entries)
    &&& encoded_streams(entries, options.dz) matches Ok(streams) ==> {
        &&& roomy(options.dz, streams.common)
        &&& options.dz.use_combuf && options.dz.trim_reference_factor == 0 ==> unmistakable(
            entries,
            options.dz,
            streams.common,
            payloads_of(entries, streams),
        )
        &&& short(payloads_of(entries, streams))
    }
    &&& forall|l: int|
        0 <= l < grouped(paths_of(entries), entries.len()).len() ==> (#[trigger] file_content(
            entries,
            l,
        )).len() <= usize::MAX
}

/// The volumes are opened, and every file reads as the inputs that were added under its path,
/// whatever was read before.
#[verifier::opaque]
pub open spec fn reads_back(entries: Seq<BuilderEntry>, volumes: Seq<Seq<u8>>) -> bool {
    let files = grouped(paths_of(entries), entries.len());
    let there = all_there(volumes);
    &&& parse(volumes[0], ReadLimits::no_limits()) matches Ok(m)
    &&& opened(m, volumes[0], ReadLimits::no_limits()) matches Ok(list)
    &&& list.len() == files.len()
    &&& in_step(m, there, first_progress(m, volumes[0], ReadLimits::no_limits()))
    &&& forall|l: int| 0 <= l < list.len() ==> found(entries, l, #[trigger] list[l])
    &&& forall|l: int, p: Progress|
        0 <= l < list.len() && in_step(m, there, p) ==> {
            let reading = #[trigger] entry_read(m, there, list[l], Seq::empty(), p);
            &&& reading.trouble is None
            &&& reading.out == file_content(entries, l)
            &&& in_step(m, there, reading.progress)
        }
}

/// The names of volumes that a builder takes are such as the round trip asks for.
proof fn lemma_volume_names(names: Seq<Seq<u8>>, i: int)
    requires
        0 <= i <= names.len(),
        names_trouble(names, i) is None,
    ensures
        forall|j: int|
            i <= j < names.len() ==> plain_name(#[trigger] names[j]) && valid_utf8(names[j]),
    decreases names.len() - i,
{
    if i < names.len() {
        lemma_volume_names(names, i + 1);
        assert(volume_name_trouble(names[i]) is None);
        assert forall|j: int| i <= j < names.len() implies plain_name(#[trigger] names[j])
            && valid_utf8(names[j]) by {
            if j == i {
                assert forall|c: int| 0 <= c < names[i].len() implies #[trigger] names[i][c] != 0 by {
                    if names[i][c] == 0 {
                        assert(has_zero(names[i]));
                    }
                }
            }
        }
    }
}

/// What a builder writes reads back.
pub proof fn lemma_reads_back(entries: Seq<BuilderEntry>, options: PackOptions)
    requires
        archive_outcome(entries, options).result is Ok,
        archive_outcome(entries, options).volumes[0].len() <= usize::MAX,
        proper_entries(entries),
        sealed(entries, options.dz),
        readable(entries, options),
    ensures
        reads_back(entries, archive_outcome(entries, options).volumes),
{
    reveal(readable);
    reveal(reads_back);
    reveal(sealed);
    reveal(planned_outcome);
    let names = names_of(options.volume_names@);
    let streams = encoded_streams(entries, options.dz)->Ok_0;
    let volumes = archive_outcome(entries, options).volumes;
    let chunks = all_put(blank_page(entries, options, streams), entries, streams, 0).page.chunks;
    let payloads = payloads_of(entries, streams);
    assert(names.len() == options.volume_names@.len());
    lemma_preparable(entries, names.len(), 0);
    lemma_wrote(entries, options, streams);
    lemma_volume_names(names, 0);
    assert(ordinary(entries)) by {
        assert forall|k: int| 0 <= k < entries.len() implies {
            &&& (#[trigger] entries[k]).options.raw_flags is None
            &&& plain_form(entries[k].archive_path@)
            &&& plain_name(entries[k].archive_path@)
            &&& valid_utf8(entries[k].archive_path@)
        } by {}
    }
    lemma_archive_opens(
        entries,
        names,
        options.dz,
        volumes,
        chunks,
        payloads,
        streams.common,
    );
    if !(options.dz.use_combuf && options.dz.trim_reference_factor == 0) {
        lemma_unmistakable(entries, options.dz, streams.common, payloads);
    }
    let m = planned(entries, names, options.dz, chunks);
    let list = opened(m, volumes[0], ReadLimits::no_limits())->Ok_0;
    let there = all_there(volumes);
    assert forall|l: int, p: Progress|
        0 <= l < list.len() && in_step(m, there, p) implies {
        let reading = #[trigger] entry_read(m, there, list[l], Seq::empty(), p);
        &&& reading.trouble is None
        &&& reading.out == file_content(entries, l)
        &&& in_step(m, there, reading.progress)
    } by {
        lemma_archive_round_trip(
            entries,
            names,
            options.dz,
            volumes,
            chunks,
            payloads,
            streams.common,
            l,
            list[l],
            p,
        );
    }
}

/// Entries without trouble have volumes and ways of storing.
proof fn lemma_preparable(entries: Seq<BuilderEntry>, volumes: nat, i: int)
    requires
        0 <= i <= entries.len(),
        entries_trouble(entries, volumes, i) is None,
    ensures
        forall|k: int|
            i <= k < entries.len() ==> {
                &&& chosen((#[trigger] entries[k]).options) is Some
                &&& entries[k].options.volume < volumes
            },
    decreases entries.len() - i,
{
    if i < entries.len() {
        lemma_preparable(entries, volumes, i + 1);
    }
}

/// Writing the same entries under the same options comes to the same each time: both times it
/// succeeds with the same report, or it fails in the same way, and the volumes hold the same.
pub proof fn lemma_deterministic(
    entries: Seq<BuilderEntry>,
    options: PackOptions,
    first: Result<BuildReport, DzipError>,
    first_volumes: Seq<Seq<u8>>,
    second: Result<BuildReport, DzipError>,
    second_volumes: Seq<Seq<u8>>,
)
    requires
        answered(archive_outcome(entries, options), first),
        answered(archive_outcome(entries, options), second),
        archive_outcome(entries, options).begun ==> first_volumes == archive_outcome(
            entries,
            options,
        ).volumes,
        archive_outcome(entries, options).begun ==> second_volumes == archive_outcome(
            entries,
            options,
        ).volumes,
    ensures
        first is Ok <==> second is Ok,
        first is Ok ==> first->Ok_0 == second->Ok_0 && first_volumes == second_volumes,
        first is Err ==> first->Err_0@ == second->Err_0@,
        archive_outcome(entries, options).begun ==> first_volumes == second_volumes,
{
    lemma_begun(entries, options);
}

/// Once an archive is planned, its volumes are begun.
pub proof fn lemma_outcome_begun(entries: Seq<BuilderEntry>, options: PackOptions)
    ensures
        planned_outcome(entries, options).begun,
{
    reveal(planned_outcome);
}

/// An archive that is written was begun, with all its volumes.
pub proof fn lemma_begun(entries: Seq<BuilderEntry>, options: PackOptions)
    ensures
        archive_outcome(entries, options).result is Ok ==> archive_outcome(entries, options).begun
            && archive_outcome(entries, options).volumes.len() == options.volume_names@.len(),
{
    reveal(planned_outcome);
    if archive_outcome(entries, options).result is Ok {
        let streams = encoded_streams(entries, options.dz)->Ok_0;
        assert(names_of(options.volume_names@).len() == options.volume_names@.len());
        lemma_preparable(entries, options.volume_names@.len(), 0);
        lemma_volumes_grow(blank_page(entries, options, streams), entries, streams, 0);
    }
}

/// The paths that a builder gives its entries are such as the round trip asks for.
pub proof fn lemma_entry_path(path: Seq<u8>)
    ensures
        crate::builder::entry_path(path) matches Ok(plain) ==> plain_form(plain) && plain_name(plain)
            && valid_utf8(plain),
{
    if let Ok(plain) = crate::builder::entry_path(path) {
        let list = components(path)->Some_0;
        lemma_components_proper(path);
        lemma_utf8_path(path);
        assert(plain == joined(list, 0x2f, list.len()));
        assert(list.len() > 0);
        assert(components(plain) is Some);
        assert(!rooted(plain));
        lemma_joined_components(list, 0x2f);
        assert(plain_name(path)) by {
            assert forall|i: int| 0 <= i < path.len() implies #[trigger] path[i] != 0 by {
                if path[i] == 0 {
                    assert(crate::builder::has_zero(path));
                }
            }
        }
        lemma_plain_components(path, 0, 0, seq![]);
        lemma_plain_joined(list, 0x2f, list.len());
    }
}

} // verus!
