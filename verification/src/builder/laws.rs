//! What holds of new archives.

use vstd::prelude::*;

use crate::builder::pages::{
    all_put, begun, blank_page, blank_volumes, entry_put, header_size, payload_of, rank_put, Page,
};
use crate::builder::plan::{
    chosen, chosen_flags, directories, directory_id, grouped, lemma_place_from, members, paths_of,
    place, split_path, BuilderEntry,
};
use crate::builder::writing::{lemma_padding, planned, storage, written_record};
use crate::builder::{
    entries_trouble, entry_path, names_trouble, prepare_trouble, volume_name_trouble,
};
use crate::codec::dz::DzOptions;
use crate::codec::flags::{
    lemma_encoding_round_trip, meaning, registered, ChunkEncoding, Compression,
};
use crate::codec::stored;
use crate::codecs::dz::sharing::Streams;
use crate::compat::write_rank;
use crate::format::{names_of, Chunk};
use crate::options::{EntryOptions, PackOptions};
use crate::path::{components, joined, path_key};

verus! {

/// The volumes of an archive begin with the room for the metadata, or with nothing, and zeros up
/// to the next multiple of the alignment, fewer than the alignment.
pub proof fn lemma_volumes_aligned(count: nat, header: int, alignment: u32, v: int)
    requires
        0 <= v < count,
        0 <= header,
    ensures
        ({
            let start = blank_volumes(count, header, alignment)[v];
            let used = if v == 0 {
                header
            } else {
                0
            };
            &&& blank_volumes(count, header, alignment).len() == count
            &&& used <= start.len()
            &&& alignment <= 1 ==> start.len() == used
            &&& alignment > 1 ==> start.len() < used + alignment
            &&& alignment > 1 ==> start.len() as int % (alignment as int) == 0
            &&& forall|i: int| 0 <= i < start.len() ==> #[trigger] start[i] == 0
            &&& v > 0 ==> start.len() == 0
        }),
{
    lemma_padding(
        if v == 0 {
            header
        } else {
            0
        },
        alignment,
    );
    if alignment > 1 && v > 0 {
        vstd::arithmetic::div_mod::lemma_mod_self_0(alignment as int);
        vstd::arithmetic::div_mod::lemma_small_mod(0, alignment as nat);
    }
}

/// A chunk is put right behind what its volume holds, and its record says so; the other volumes
/// and records stay.
pub proof fn lemma_chunk_put(page: Page, entries: Seq<BuilderEntry>, streams: Streams, k: int)
    requires
        0 <= k < entries.len() <= page.chunks.len(),
        entries[k].options.volume < page.volumes.len(),
    ensures
        ({
            let put = entry_put(page, entries, streams, k);
            let v = entries[k].options.volume as int;
            put.trouble is None ==> {
                &&& put.page.volumes.len() == page.volumes.len()
                &&& put.page.chunks.len() == page.chunks.len()
                &&& put.page.chunks[k].offset == page.volumes[v].len()
                &&& put.page.chunks[k].file == v
                &&& put.page.chunks[k].decompressed_length == entries[k].bytes@.len()
                &&& payload_of(entries, streams, k) matches Ok(payload) && put.page.volumes[v]
                    == page.volumes[v] + payload && put.page.stored == page.stored + payload.len()
                &&& forall|i: int|
                    0 <= i < page.volumes.len() && i != v ==> #[trigger] put.page.volumes[i]
                        == page.volumes[i]
                &&& forall|i: int|
                    0 <= i < page.chunks.len() && i != k ==> #[trigger] put.page.chunks[i]
                        == page.chunks[i]
            }
        }),
{
}

/// What is written for an entry: its bytes, nothing, a stream, or the next of the DZ streams.
pub proof fn lemma_payload(entries: Seq<BuilderEntry>, streams: Streams, k: int)
    requires
        0 <= k < entries.len(),
    ensures
        storage(entries, k) == Compression::Copy ==> payload_of(entries, streams, k) == Ok::<
            Seq<u8>,
            crate::codec::error::CodecTrouble,
        >(entries[k].bytes@),
        storage(entries, k) == Compression::Zero ==> payload_of(entries, streams, k) == Ok::<
            Seq<u8>,
            crate::codec::error::CodecTrouble,
        >(Seq::empty()),
{
}

/// A chunk of the page lies at the place where a volume of the blank page ends.
pub open spec fn starts_at(page: Page, blank: Page, v: int, k: int) -> bool {
    &&& 0 <= k < page.chunks.len()
    &&& page.chunks[k].file == v
    &&& page.chunks[k].offset == blank.volumes[v].len()
}

/// A chunk was put before the chunks of the given rank from number `k` on; the common buffer, if
/// `shared`.
pub open spec fn put_before(
    entries: Seq<BuilderEntry>,
    rank: int,
    k: int,
    shared: bool,
    i: int,
) -> bool {
    if i == entries.len() {
        shared
    } else {
        0 <= i < entries.len() && (write_rank(storage(entries, i)) < rank || (write_rank(
            storage(entries, i),
        ) == rank && i < k))
    }
}

/// Every volume either still ends where it did, or has a chunk that begins there.
pub open spec fn begun_well(
    page: Page,
    blank: Page,
    entries: Seq<BuilderEntry>,
    rank: int,
    k: int,
    shared: bool,
) -> bool {
    &&& page.volumes.len() == blank.volumes.len()
    &&& page.chunks.len() == blank.chunks.len()
    &&& forall|v: int|
        0 <= v < blank.volumes.len() ==> #[trigger] page.volumes[v] == blank.volumes[v] || exists|
            i: int,
        |
            #[trigger] put_before(entries, rank, k, shared, i) && starts_at(page, blank, v, i)
}

/// The entries and the common buffer have volumes and records.
pub open spec fn housed(entries: Seq<BuilderEntry>, streams: Streams, blank: Page) -> bool {
    &&& blank.volumes.len() > 0
    &&& entries.len() <= blank.chunks.len()
    &&& streams.common is Some ==> entries.len() < blank.chunks.len()
    &&& forall|k: int|
        0 <= k < entries.len() ==> (#[trigger] entries[k]).options.volume < blank.volumes.len()
}

proof fn lemma_later(
    entries: Seq<BuilderEntry>,
    rank: int,
    k: int,
    shared: bool,
    page: Page,
    blank: Page,
)
    requires
        0 <= k < entries.len(),
        begun_well(page, blank, entries, rank, k, shared),
    ensures
        begun_well(page, blank, entries, rank, k + 1, shared),
{
    assert forall|v: int| 0 <= v < blank.volumes.len() && page.volumes[v] != blank.volumes[v] implies exists|
        i: int,
    |
        #[trigger] put_before(entries, rank, k + 1, shared, i) && starts_at(page, blank, v, i) by {
        let i = choose|i: int|
            #[trigger] put_before(entries, rank, k, shared, i) && starts_at(page, blank, v, i);
        assert(put_before(entries, rank, k + 1, shared, i));
    }
}

proof fn lemma_next_rank(
    entries: Seq<BuilderEntry>,
    rank: int,
    shared: bool,
    page: Page,
    blank: Page,
)
    requires
        begun_well(page, blank, entries, rank, entries.len() as int, shared),
    ensures
        begun_well(page, blank, entries, rank + 1, 0, shared),
{
    assert forall|v: int| 0 <= v < blank.volumes.len() && page.volumes[v] != blank.volumes[v] implies exists|
        i: int,
    |
        #[trigger] put_before(entries, rank + 1, 0, shared, i) && starts_at(page, blank, v, i) by {
        let i = choose|i: int|
            #[trigger] put_before(entries, rank, entries.len() as int, shared, i) && starts_at(
                page,
                blank,
                v,
                i,
            );
        assert(put_before(entries, rank + 1, 0, shared, i));
    }
}

proof fn lemma_rank_begun(
    page: Page,
    blank: Page,
    entries: Seq<BuilderEntry>,
    streams: Streams,
    rank: int,
    k: int,
    shared: bool,
)
    requires
        0 <= k <= entries.len(),
        housed(entries, streams, blank),
        begun_well(page, blank, entries, rank, k, shared),
    ensures
        rank_put(page, entries, streams, rank, k).trouble is None ==> begun_well(
            rank_put(page, entries, streams, rank, k).page,
            blank,
            entries,
            rank,
            entries.len() as int,
            shared,
        ),
    decreases entries.len() - k,
{
    if k < entries.len() {
        lemma_later(entries, rank, k, shared, page, blank);
        if write_rank(storage(entries, k)) == rank {
            let put = entry_put(page, entries, streams, k);
            lemma_chunk_put(page, entries, streams, k);
            if put.trouble is None {
                let after = put.page;
                assert forall|v: int|
                    0 <= v < blank.volumes.len() && after.volumes[v] != blank.volumes[v] implies exists|
                    i: int,
                |
                    #[trigger] put_before(entries, rank, k + 1, shared, i) && starts_at(
                        after,
                        blank,
                        v,
                        i,
                    ) by {
                    if page.volumes[v] == blank.volumes[v] {
                        assert(v == entries[k].options.volume);
                        assert(put_before(entries, rank, k + 1, shared, k) && starts_at(
                            after,
                            blank,
                            v,
                            k,
                        ));
                    } else {
                        let i = choose|i: int|
                            #[trigger] put_before(entries, rank, k, shared, i) && starts_at(
                                page,
                                blank,
                                v,
                                i,
                            );
                        assert(put_before(entries, rank, k + 1, shared, i) && starts_at(
                            after,
                            blank,
                            v,
                            i,
                        ));
                    }
                }
                lemma_rank_begun(after, blank, entries, streams, rank, k + 1, shared);
            }
        } else {
            lemma_rank_begun(page, blank, entries, streams, rank, k + 1, shared);
        }
    }
}

proof fn lemma_common_begun(
    page: Page,
    blank: Page,
    entries: Seq<BuilderEntry>,
    streams: Streams,
    rank: int,
)
    requires
        0 <= rank < 6,
        housed(entries, streams, blank),
        begun_well(page, blank, entries, rank, 0, false),
    ensures
        begun(page, entries, streams, rank).trouble is None ==> begun_well(
            begun(page, entries, streams, rank).page,
            blank,
            entries,
            rank,
            0,
            rank == 5,
        ),
{
    let put = begun(page, entries, streams, rank);
    let shared = rank == 5;
    if put.trouble is None {
        let after = put.page;
        let n = entries.len() as int;
        assert forall|v: int|
            0 <= v < blank.volumes.len() && after.volumes[v] != blank.volumes[v] implies exists|
            i: int,
        |
            #[trigger] put_before(entries, rank, 0, shared, i) && starts_at(
                after,
                blank,
                v,
                i,
            ) by {
            if page.volumes[v] == blank.volumes[v] {
                assert(v == 0);
                assert(put_before(entries, rank, 0, shared, n) && starts_at(after, blank, v, n));
            } else {
                let i = choose|i: int|
                    #[trigger] put_before(entries, rank, 0, false, i) && starts_at(
                        page,
                        blank,
                        v,
                        i,
                    );
                assert(put_before(entries, rank, 0, shared, i) && starts_at(after, blank, v, i));
            }
        }
    }
}

proof fn lemma_all_begun(
    page: Page,
    blank: Page,
    entries: Seq<BuilderEntry>,
    streams: Streams,
    rank: int,
)
    requires
        0 <= rank <= 6,
        housed(entries, streams, blank),
        begun_well(page, blank, entries, rank, 0, rank == 6),
    ensures
        all_put(page, entries, streams, rank).trouble is None ==> begun_well(
            all_put(page, entries, streams, rank).page,
            blank,
            entries,
            6,
            0,
            true,
        ),
    decreases 6 - rank,
{
    if rank < 6 {
        let first = begun(page, entries, streams, rank);
        lemma_common_begun(page, blank, entries, streams, rank);
        if first.trouble is None {
            let put = rank_put(first.page, entries, streams, rank, 0);
            lemma_rank_begun(first.page, blank, entries, streams, rank, 0, rank == 5);
            if put.trouble is None {
                lemma_next_rank(entries, rank, rank == 5, put.page, blank);
                lemma_all_begun(put.page, blank, entries, streams, rank + 1);
            }
        }
    }
}

/// The first chunk of every volume lies at a multiple of the alignment: a volume of a new archive
/// holds nothing but its start, or a chunk lies right behind that start, at such a multiple and
/// less than one alignment behind the metadata.
pub proof fn lemma_first_chunk_aligned(
    entries: Seq<BuilderEntry>,
    options: PackOptions,
    streams: Streams,
    v: int,
)
    requires
        0 <= v < options.volume_names@.len(),
        options.volume_names@.len() <= 0xffff,
        forall|k: int|
            0 <= k < entries.len() ==> (#[trigger] entries[k]).options.volume
                < options.volume_names@.len(),
    ensures
        ({
            let blank = blank_page(entries, options, streams);
            let put = all_put(blank, entries, streams, 0);
            let header = if v == 0 {
                header_size(entries, names_of(options.volume_names@), options.dz, streams)
            } else {
                0
            };
            put.trouble is None ==> put.page.volumes[v] == blank.volumes[v] || exists|k: int| {
                &&& 0 <= k < put.page.chunks.len()
                &&& (#[trigger] put.page.chunks[k]).file == v
                &&& header <= put.page.chunks[k].offset
                &&& options.alignment <= 1 ==> put.page.chunks[k].offset == header
                &&& options.alignment > 1 ==> put.page.chunks[k].offset < header
                    + options.alignment
                &&& options.alignment > 1 ==> put.page.chunks[k].offset as int % (
                options.alignment as int) == 0
            }
        }),
{
    let blank = blank_page(entries, options, streams);
    let put = all_put(blank, entries, streams, 0);
    let size = header_size(entries, names_of(options.volume_names@), options.dz, streams);
    let count = options.volume_names@.len();
    lemma_volumes_aligned(count, size, options.alignment, v);
    lemma_all_begun(blank, blank, entries, streams, 0);
    if put.trouble is None && put.page.volumes[v] != blank.volumes[v] {
        let k = choose|k: int|
            #[trigger] put_before(entries, 6, 0, true, k) && starts_at(put.page, blank, v, k);
        assert(put.page.chunks[k].file == v);
    }
}

/// An entry's flags: those that were given as they are, else the bit of its way of storing, 1024
/// for random access, and the bits of its hint. They mean just that.
pub proof fn lemma_entry_flags(options: EntryOptions)
    ensures
        options.raw_flags matches Some(flags) ==> chosen_flags(options) == flags && chosen(options)
            == registered(flags),
        options.raw_flags is None ==> {
            &&& chosen(options) == Some(options.compression)
            &&& meaning(chosen_flags(options)) == Some(
                ChunkEncoding {
                    compression: options.compression,
                    random_access: options.random_access,
                    common_buffer: false,
                    content_hint: options.content_hint,
                    unknown_flags: 0,
                },
            )
        },
{
    if options.raw_flags is None {
        let encoding = ChunkEncoding {
            compression: options.compression,
            random_access: options.random_access,
            common_buffer: false,
            content_hint: options.content_hint,
            unknown_flags: 0,
        };
        assert(0u16 & 0x7fd == 0) by (bit_vector);
        lemma_encoding_round_trip(encoding);
        let a = options.compression.bit();
        let c: u16 = if options.random_access {
            1024
        } else {
            0
        };
        let e: u16 = match options.content_hint {
            Some(hint) => hint.bits(),
            None => 0,
        };
        assert(a | 0 | c | 0 | e == a | c | e) by (bit_vector);
    }
}

/// The record of an entry's chunk, and that of the common buffer, which has flag one alone, lies
/// in the first volume, and decodes to nothing by itself.
pub proof fn lemma_records(entries: Seq<BuilderEntry>, k: int, length: int)
    requires
        0 <= k < entries.len(),
        0 <= length <= u32::MAX,
        entries[k].bytes@.len() <= u32::MAX,
    ensures
        written_record(entries, k, length).flags == chosen_flags(entries[k].options),
        written_record(entries, k, length).file == entries[k].options.volume,
        written_record(entries, k, length).decompressed_length == entries[k].bytes@.len(),
        written_record(entries, k, length).compressed_length == (match storage(entries, k) {
            Compression::Zlib | Compression::Bzip | Compression::Lzma => entries[k].bytes@.len()
                as int,
            _ => length,
        }),
        written_record(entries, entries.len() as int, length).flags == 1,
        written_record(entries, entries.len() as int, length).file == 0,
        written_record(entries, entries.len() as int, length).decompressed_length == 0,
        written_record(entries, entries.len() as int, length).compressed_length == length,
{
}

/// Entries whose paths differ at most in case and separators are one file; files come in the
/// order in which they were first named, under that name.
pub proof fn lemma_files(paths: Seq<Seq<u8>>, n: nat)
    requires
        n <= paths.len(),
    ensures
        grouped(paths, 0) == Seq::<Seq<u8>>::empty(),
        forall|l: int, m: int|
            0 <= l < m < grouped(paths, n).len() ==> path_key(#[trigger] grouped(paths, n)[l])
                != path_key(#[trigger] grouped(paths, n)[m]),
        n < paths.len() ==> ({
            let list = grouped(paths, n);
            let more = grouped(paths, n + 1);
            let known = exists|l: int|
                0 <= l < list.len() && path_key(#[trigger] list[l]) == path_key(paths[n as int]);
            more == (if known {
                list
            } else {
                list.push(paths[n as int])
            })
        }),
    decreases n,
{
    if n > 0 {
        lemma_files(paths, (n - 1) as nat);
        let list = grouped(paths, (n - 1) as nat);
        lemma_place_from(list, paths[n - 1], 0);
    }
    if n < paths.len() {
        lemma_place_from(grouped(paths, n), paths[n as int], 0);
    }
}

/// The chunks of a file are those of the entries with its path, in order.
pub proof fn lemma_file_chunks(paths: Seq<Seq<u8>>, list: Seq<Seq<u8>>, l: int, n: nat)
    requires
        n <= paths.len() <= 0xffff,
    ensures
        forall|i: int, j: int|
            0 <= i < j < members(paths, list, l, n).len() ==> #[trigger] members(
                paths,
                list,
                l,
                n,
            )[i] < #[trigger] members(paths, list, l, n)[j],
        forall|k: u16|
            #[trigger] members(paths, list, l, n).contains(k) <==> k < n && place(
                list,
                paths[k as int],
            ) == l,
    decreases n,
{
    if n > 0 {
        lemma_file_chunks(paths, list, l, (n - 1) as nat);
        let rest = members(paths, list, l, (n - 1) as nat);
        let all = members(paths, list, l, n);
        assert forall|k: u16| #[trigger] all.contains(k) <==> k < n && place(
            list,
            paths[k as int],
        ) == l by {
            if rest.contains(k) {
                let i = choose|i: int| 0 <= i < rest.len() && rest[i] == k;
                assert(all[i] == k);
            }
            if k == n - 1 && place(list, paths[k as int]) == l {
                assert(all[rest.len() as int] == k);
            }
            if all.contains(k) {
                let i = choose|i: int| 0 <= i < all.len() && all[i] == k;
                if i < rest.len() {
                    assert(rest.contains(k)) by {
                        assert(rest[i] == k);
                    }
                }
            }
        }
        assert forall|i: int, j: int| 0 <= i < j < all.len() implies #[trigger] all[i]
            < #[trigger] all[j] by {
            assert(rest.contains(rest[i]));
        }
    } else {
        assert(members(paths, list, l, 0) =~= Seq::<u16>::empty());
    }
}

/// A path is parted into its directory, whose components are joined by backslashes, and its last
/// component. A file in the root has directory zero, others the place of theirs counted from one.
pub proof fn lemma_split(path: Seq<u8>, list: Seq<Seq<u8>>)
    ensures
        components(path) is None ==> split_path(path) is None,
        components(path) matches Some(parts) ==> {
            &&& parts.len() == 0 ==> split_path(path) is None
            &&& parts.len() == 1 ==> split_path(path) == Some((Seq::<u8>::empty(), parts[0]))
                && directory_id(list, path) == 0
            &&& parts.len() > 1 ==> split_path(path) == Some(
                (joined(parts, 92, (parts.len() - 1) as nat), parts.last()),
            )
            &&& parts.len() == 2 && parts[0].len() > 0 ==> directory_id(list, path) == 1 + place(
                list,
                parts[0],
            )
        },
{
    if let Some(parts) = components(path) {
        if parts.len() == 1 {
            assert(joined(parts, 92, 0) == Seq::<u8>::empty());
        }
        if parts.len() == 2 {
            assert(joined(parts, 92, 1) == parts[0]);
        }
    }
}

/// The metadata of a new archive: as many files as different paths, one directory more than are
/// named, the names of the files before those of the directories, and the volumes behind the
/// first by name.
pub proof fn lemma_plan(
    entries: Seq<BuilderEntry>,
    volume_names: Seq<Seq<u8>>,
    dz: DzOptions,
    chunks: Seq<Chunk>,
    l: int,
)
    requires
        0 <= l < grouped(paths_of(entries), entries.len()).len() <= 0xffff,
        directories(
            grouped(paths_of(entries), entries.len()),
            grouped(paths_of(entries), entries.len()).len(),
        ).len() < 0xffff,
        1 <= volume_names.len() <= 0xffff,
        chunks.len() <= 0xffff,
    ensures
        ({
            let m = planned(entries, volume_names, dz, chunks);
            let files = grouped(paths_of(entries), entries.len());
            let folders = directories(files, files.len());
            &&& m.settings.header == 0x5a52_5444
            &&& m.settings.version == 0
            &&& m.settings.num_user_files == files.len()
            &&& m.settings.num_directories == folders.len() + 1
            &&& m.strings.len() == files.len() + folders.len()
            &&& m.strings[l] == split_path(files[l])->Some_0.1
            &&& m.strings.skip(files.len() as int) == folders
            &&& m.files.len() == files.len()
            &&& m.files[l].chunks == members(paths_of(entries), files, l, entries.len())
            &&& m.counts.num_archive_files == volume_names.len()
            &&& m.counts.num_chunks == chunks.len()
            &&& m.chunks == chunks
            &&& m.volumes == volume_names.skip(1)
        }),
{
    let files = grouped(paths_of(entries), entries.len());
    let folders = directories(files, files.len());
    assert((crate::builder::plan::file_names(files) + folders).skip(files.len() as int) =~= folders);
}

/// An entry's path is taken if it is not empty, is UTF-8, has no zero in it, and names something
/// below the root; it is stored in its plain form.
pub proof fn lemma_entry_path_rules(path: Seq<u8>)
    ensures
        entry_path(path) matches Ok(plain) ==> {
            &&& path.len() > 0
            &&& vstd::utf8::valid_utf8(path)
            &&& forall|i: int| 0 <= i < path.len() ==> #[trigger] path[i] != 0
            &&& components(path) matches Some(list) && plain == joined(list, 47, list.len())
            &&& plain.len() > 0
        },
        path.len() == 0 ==> entry_path(path) is Err,
        !vstd::utf8::valid_utf8(path) ==> entry_path(path) is Err,
        (exists|i: int| 0 <= i < path.len() && #[trigger] path[i] == 0) ==> entry_path(path) is Err,
        components(path) is None ==> entry_path(path) is Err,
{
}

/// An archive can be begun if it has one to 65535 volumes with proper names, and every entry is on
/// one of them and stored in a way that there is.
pub proof fn lemma_prepared(entries: Seq<BuilderEntry>, names: Seq<Seq<u8>>)
    ensures
        prepare_trouble(entries, names) is None <==> {
            &&& 1 <= names.len() <= 65535
            &&& forall|i: int|
                0 <= i < names.len() ==> volume_name_trouble(#[trigger] names[i]) is None
            &&& forall|k: int|
                0 <= k < entries.len() ==> (#[trigger] entries[k]).options.volume < names.len()
                    && chosen(entries[k].options) is Some
        },
{
    lemma_names_fine(names, 0);
    lemma_entries_fine(entries, names.len(), 0);
}

proof fn lemma_names_fine(names: Seq<Seq<u8>>, i: int)
    requires
        0 <= i <= names.len(),
    ensures
        names_trouble(names, i) is None <==> forall|k: int|
            i <= k < names.len() ==> volume_name_trouble(#[trigger] names[k]) is None,
    decreases names.len() - i,
{
    if i < names.len() {
        lemma_names_fine(names, i + 1);
    }
}

proof fn lemma_entries_fine(entries: Seq<BuilderEntry>, volumes: nat, i: int)
    requires
        0 <= i <= entries.len(),
    ensures
        entries_trouble(entries, volumes, i) is None <==> forall|k: int|
            i <= k < entries.len() ==> (#[trigger] entries[k]).options.volume < volumes && chosen(
                entries[k].options,
            ) is Some,
    decreases entries.len() - i,
{
    if i < entries.len() {
        lemma_entries_fine(entries, volumes, i + 1);
    }
}

} // verus!
