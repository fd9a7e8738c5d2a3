//! Writing of the volumes of a new archive.

use vstd::prelude::*;
use vstd::string::*;

use crate::builder::layout::{laid, lemma_idle, lemma_overwrite, lemma_write};
use crate::builder::pages::{
    all_put, answered, appended, archive_volumes, begun, blank_chunk, blank_chunks, blank_page,
    blank_volumes, chunk_count, common_put, dz_input_size, encoded_streams, entry_put, headed,
    header_size, left_volumes, no_bytes, padded_zeros, page_outcome, payload_of, payload_put,
    plan_trouble, planned_outcome, rank_put, Page,
};
use crate::builder::plan::{
    build_string_table, chosen, chosen_flags, directories, directory_id, effective_compression,
    effective_flags, file_names, group_logical_files, grouped, members, paths_of, place, split_path,
    splittable, BuilderEntry,
};
use crate::codec::dz::{encode_archive, DzOptions};
use crate::codec::error::CodecTrouble;
use crate::codec::flags::Compression;
use crate::codec::{copied, encode, stored};
use crate::codecs::dz::analysis::files;
use crate::codecs::dz::archive::{common_of, streams_of, total_size, update_of, EncodedDzArchive};
use crate::codecs::dz::common::common_fault;
use crate::codecs::dz::fault::DzFault;
use crate::codecs::dz::sharing::Streams;
use crate::codecs::dz::stream::{unchunk, Common};
use crate::codecs::dz::RangeSettings;
use crate::compat::{recorded_length, stored_length, write_rank};
use crate::error::{invalid_input, told, DzipError};
use crate::format::{
    names_of, records_of, ArchiveSettings, Chunk, ChunkSettings, FileRecord, Metadata, RawArchive,
    RawFileRecord, ARCHIVE_MAGIC, CHUNK_COMBUF,
};
use crate::metadata::{chunks_bytes, holds, metadata_bytes, write_metadata};
use crate::options::PackOptions;

verus! {

/// How an entry is stored.
pub open spec fn storage(entries: Seq<BuilderEntry>, k: int) -> Compression {
    chosen(entries[k].options)->Some_0
}

/// The number of entries before number `k` that are stored with the DZ codec.
pub open spec fn dz_before(entries: Seq<BuilderEntry>, k: nat) -> nat
    decreases k,
{
    if k == 0 {
        0
    } else {
        dz_before(entries, (k - 1) as nat) + (if storage(entries, k - 1) == Compression::Dz {
            1nat
        } else {
            0nat
        })
    }
}

pub proof fn lemma_dz_before(entries: Seq<BuilderEntry>, a: nat, b: nat)
    requires
        a <= b,
    ensures
        dz_before(entries, a) <= dz_before(entries, b),
        dz_before(entries, b) <= b,
        a < b && storage(entries, a as int) == Compression::Dz ==> dz_before(entries, a)
            < dz_before(entries, b),
    decreases b,
{
    if a < b {
        lemma_dz_before(entries, a, (b - 1) as nat);
    } else if b > 0 {
        lemma_dz_before(entries, (b - 1) as nat, (b - 1) as nat);
    }
}

/// What was written for an entry belongs to it.
pub open spec fn payload_fits(
    entries: Seq<BuilderEntry>,
    dz: DzOptions,
    common: Option<Seq<u8>>,
    k: int,
    payload: Seq<u8>,
) -> bool {
    let input = entries[k].bytes@;
    let compression = storage(entries, k);
    if compression != Compression::Dz {
        stored(compression, input) == Some(Ok::<Seq<u8>, CodecTrouble>(payload))
    } else {
        unchunk(
            payload,
            input.len() as int,
            dz.settings,
            buffer_of(dz.settings, common),
            update_of(dz.engine()),
        ) == Ok::<Seq<u8>, DzFault>(input)
    }
}

/// The common buffer with the given bytes.
pub open spec fn buffer_of(settings: RangeSettings, common: Option<Seq<u8>>) -> Option<Common> {
    match common {
        Some(bytes) => Some(Common { settings, chunks: seq![bytes] }),
        None => None,
    }
}

/// What was written, for the entries and for the common buffer.
pub open spec fn payloads_fit(
    entries: Seq<BuilderEntry>,
    dz: DzOptions,
    common: Option<Seq<u8>>,
    payloads: Seq<Seq<u8>>,
) -> bool {
    let n = entries.len();
    &&& payloads.len() == n + (if common is Some {
        1nat
    } else {
        0nat
    })
    &&& common matches Some(bytes) ==> payloads[n as int] == bytes
    &&& forall|k: int|
        0 <= k < n ==> payload_fits(entries, dz, common, k, #[trigger] payloads[k])
    &&& dz_before(entries, n) > 0 ==> {
        &&& dz.settings.valid()
        &&& (common is Some) == dz.use_combuf
        &&& common matches Some(bytes) ==> common_fault(buffer_of(dz.settings, common)->Some_0)
            is None && dz.settings.reference_fault() is None
    }
    &&& dz_before(entries, n) == 0 ==> common is None
}

/// The turn of a chunk: the ways of storing one after the other, the common buffer before the
/// DZ chunks.
pub open spec fn stamp(entries: Seq<BuilderEntry>, k: int) -> int {
    if k < entries.len() {
        write_rank(storage(entries, k)) * (entries.len() + 2) + k + 1
    } else {
        (5 * (entries.len() + 2)) as int
    }
}

pub open spec fn stamps(entries: Seq<BuilderEntry>, count: nat) -> Seq<int> {
    Seq::new(count, |k: int| stamp(entries, k))
}

/// The record of a chunk, but for where it lies, by the length of what was written.
pub open spec fn written_record(entries: Seq<BuilderEntry>, k: int, length: int) -> Chunk {
    if k < entries.len() {
        Chunk {
            offset: 0,
            compressed_length: recorded_length(
                storage(entries, k),
                entries[k].bytes@.len() as int,
                length,
            ) as u32,
            decompressed_length: entries[k].bytes@.len() as u32,
            flags: chosen_flags(entries[k].options),
            file: entries[k].options.volume,
        }
    } else {
        Chunk {
            offset: 0,
            compressed_length: length as u32,
            decompressed_length: 0,
            flags: CHUNK_COMBUF,
            file: 0,
        }
    }
}

/// The chunks have their records.
pub open spec fn recorded(
    entries: Seq<BuilderEntry>,
    payloads: Seq<Seq<u8>>,
    chunks: Seq<Chunk>,
) -> bool {
    &&& chunks.len() == payloads.len()
    &&& forall|k: int|
        0 <= k < chunks.len() ==> (Chunk { offset: 0, ..#[trigger] chunks[k] }) == written_record(
            entries,
            k,
            payloads[k].len() as int,
        )
    &&& forall|k: int|
        0 <= k < entries.len() ==> (#[trigger] entries[k]).bytes@.len() <= u32::MAX
}

/// The metadata of a new archive.
pub open spec fn planned(
    entries: Seq<BuilderEntry>,
    volume_names: Seq<Seq<u8>>,
    dz: DzOptions,
    chunks: Seq<Chunk>,
) -> Metadata {
    let n = entries.len();
    let paths = paths_of(entries);
    let list = grouped(paths, n);
    let folders = directories(list, list.len());
    Metadata {
        settings: ArchiveSettings {
            header: ARCHIVE_MAGIC,
            num_user_files: list.len() as u16,
            num_directories: (folders.len() + 1) as u16,
            version: 0,
        },
        strings: file_names(list) + folders,
        files: Seq::new(
            list.len(),
            |l: int|
                FileRecord {
                    directory: directory_id(folders, list[l]) as u16,
                    chunks: members(paths, list, l, n),
                },
        ),
        counts: ChunkSettings {
            num_archive_files: volume_names.len() as u16,
            num_chunks: chunks.len() as u16,
        },
        chunks,
        volumes: volume_names.skip(1),
        range: if dz_before(entries, n) > 0 {
            Some(dz.settings)
        } else {
            None
        },
    }
}

/// The numbers that the format has to hold.
pub open spec fn countable(entries: Seq<BuilderEntry>, volume_names: Seq<Seq<u8>>, count: nat) -> bool {
    let list = grouped(paths_of(entries), entries.len());
    &&& 1 <= volume_names.len() <= 0xffff
    &&& list.len() <= 0xffff
    &&& directories(list, list.len()).len() < 0xffff
    &&& count <= 0xffff
}

/// The volumes hold a new archive with the given chunks.
pub open spec fn wrote(
    entries: Seq<BuilderEntry>,
    volume_names: Seq<Seq<u8>>,
    dz: DzOptions,
    volumes: Seq<Seq<u8>>,
    chunks: Seq<Chunk>,
    payloads: Seq<Seq<u8>>,
    common: Option<Seq<u8>>,
) -> bool {
    let m = planned(entries, volume_names, dz, chunks);
    &&& countable(entries, volume_names, chunks.len())
    &&& payloads_fit(entries, dz, common, payloads)
    &&& recorded(entries, payloads, chunks)
    &&& volumes.len() == volume_names.len()
    &&& holds(volumes[0], 0, metadata_bytes(m))
    &&& laid(
        volumes,
        chunks,
        payloads,
        stamps(entries, chunks.len()),
        (6 * (entries.len() + 2)) as int,
        metadata_bytes(m).len() as int,
    )
}

proof fn lemma_stamp_bound(entries: Seq<BuilderEntry>, k: int)
    requires
        0 <= k <= entries.len(),
    ensures
        0 < stamp(entries, k) < 6 * (entries.len() + 2),
        k < entries.len() ==> stamp(entries, k) - k - 1 == write_rank(storage(entries, k)) * (
        entries.len() + 2),
{
    let size = (entries.len() + 2) as int;
    if k < entries.len() {
        let rank = write_rank(storage(entries, k)) as int;
        assert(0 <= rank * size <= 5 * size) by (nonlinear_arith)
            requires
                0 <= rank <= 5,
                size >= 0,
        ;
    }
}

/// Two chunks have different turns.
pub proof fn lemma_stamps_differ(entries: Seq<BuilderEntry>, a: int, b: int)
    requires
        0 <= a <= entries.len(),
        0 <= b <= entries.len(),
        a != b,
    ensures
        stamp(entries, a) != stamp(entries, b),
        0 < stamp(entries, a) < 6 * (entries.len() + 2),
{
    lemma_stamp_bound(entries, a);
    lemma_stamp_bound(entries, b);
    let size = (entries.len() + 2) as int;
    let x = if a < entries.len() {
        write_rank(storage(entries, a)) as int
    } else {
        5
    };
    let y = if b < entries.len() {
        write_rank(storage(entries, b)) as int
    } else {
        5
    };
    let i = if a < entries.len() {
        a + 1
    } else {
        0
    };
    let j = if b < entries.len() {
        b + 1
    } else {
        0
    };
    assert(stamp(entries, a) == x * size + i);
    assert(stamp(entries, b) == y * size + j);
    if x * size + i == y * size + j {
        assert(x == y && i == j) by (nonlinear_arith)
            requires
                x * size + i == y * size + j,
                0 <= i < size,
                0 <= j < size,
        ;
    }
}

/// Which chunk has a given turn.
proof fn lemma_turn_parts(entries: Seq<BuilderEntry>, a: int, rank: int, i: int)
    requires
        0 <= a <= entries.len(),
        0 <= rank < 6,
        0 <= i < entries.len() + 2,
        stamp(entries, a) == rank * (entries.len() + 2) + i,
    ensures
        i == 0 ==> a == entries.len() && rank == 5,
        i > 0 ==> a == i - 1 && a < entries.len() && write_rank(storage(entries, a)) == rank,
{
    let size = (entries.len() + 2) as int;
    let x = if a < entries.len() {
        write_rank(storage(entries, a)) as int
    } else {
        5
    };
    let j = if a < entries.len() {
        a + 1
    } else {
        0
    };
    assert(stamp(entries, a) == x * size + j);
    assert(x == rank && i == j) by (nonlinear_arith)
        requires
            x * size + j == rank * size + i,
            0 <= i < size,
            0 <= j < size,
    ;
}

/// The inputs of the first `n` entries that are stored with the DZ codec.
pub open spec fn dz_inputs(entries: Seq<BuilderEntry>, n: nat) -> Seq<Seq<u8>>
    decreases n,
{
    if n == 0 {
        seq![]
    } else {
        let rest = dz_inputs(entries, (n - 1) as nat);
        if storage(entries, n - 1) == Compression::Dz {
            rest.push(entries[n - 1].bytes@)
        } else {
            rest
        }
    }
}

proof fn lemma_dz_inputs(entries: Seq<BuilderEntry>, k: int, n: nat)
    requires
        0 <= k < n <= entries.len(),
        storage(entries, k) == Compression::Dz,
    ensures
        dz_inputs(entries, n).len() == dz_before(entries, n),
        dz_before(entries, k as nat) < dz_before(entries, n),
        dz_inputs(entries, n)[dz_before(entries, k as nat) as int] == entries[k].bytes@,
    decreases n,
{
    lemma_dz_count(entries, n);
    lemma_dz_count(entries, (n - 1) as nat);
    lemma_dz_before(entries, k as nat, n);
    if k < n - 1 {
        lemma_dz_inputs(entries, k, (n - 1) as nat);
    }
}

proof fn lemma_dz_count(entries: Seq<BuilderEntry>, n: nat)
    ensures
        dz_inputs(entries, n).len() == dz_before(entries, n),
    decreases n,
{
    if n > 0 {
        lemma_dz_count(entries, (n - 1) as nat);
    }
}

/// How all entries are stored.
fn find_compressions(entries: &Vec<BuilderEntry>) -> (result: Option<Vec<Compression>>)
    requires
        forall|k: int| 0 <= k < entries@.len() ==> chosen((#[trigger] entries@[k]).options) is Some,
    ensures
        result matches Some(list) && list@.len() == entries@.len() && forall|k: int|
            0 <= k < list@.len() ==> #[trigger] list@[k] == storage(entries@, k),
{
    let mut list: Vec<Compression> = Vec::with_capacity(entries.len());
    let mut k: usize = 0;
    while k < entries.len()
        invariant
            k <= entries@.len(),
            list@.len() == k,
            forall|k: int|
                0 <= k < entries@.len() ==> chosen((#[trigger] entries@[k]).options) is Some,
            forall|j: int| 0 <= j < k ==> #[trigger] list@[j] == storage(entries@, j),
        decreases entries@.len() - k,
    {
        match effective_compression(entries[k].options) {
            Ok(compression) => {
                list.push(compression);
            },
            Err(_) => return None,
        }
        k += 1;
    }
    Some(list)
}

/// The streams decode to the inputs of the DZ chunks.
pub open spec fn streams_decode(entries: Seq<BuilderEntry>, dz: DzOptions, streams: Streams) -> bool {
    let inputs = dz_inputs(entries, entries.len());
    &&& streams.chunks.len() == inputs.len()
    &&& inputs.len() == 0 ==> streams.common is None
    &&& inputs.len() > 0 ==> {
        &&& dz.settings.valid()
        &&& (streams.common is Some) == dz.use_combuf
        &&& streams.common is Some ==> common_fault(
            buffer_of(dz.settings, streams.common)->Some_0,
        ) is None && dz.settings.reference_fault() is None
        &&& forall|i: int|
            0 <= i < inputs.len() ==> unchunk(
                #[trigger] streams.chunks[i],
                inputs[i].len() as int,
                dz.settings,
                buffer_of(dz.settings, streams.common),
                update_of(dz.engine()),
            ) == Ok::<Seq<u8>, DzFault>(inputs[i])
    }
}

/// Compresses the DZ chunks of the entries.
fn encode_dz(entries: &Vec<BuilderEntry>, compressions: &Vec<Compression>, dz: &DzOptions) -> (result:
    Result<EncodedDzArchive, DzipError>)
    requires
        compressions@.len() == entries@.len(),
        forall|k: int|
            0 <= k < entries@.len() ==> #[trigger] compressions@[k] == storage(entries@, k),
    ensures
        match encoded_streams(entries@, *dz) {
            Ok(streams) => {
                &&& result matches Ok(encoded) && streams_of(encoded) == streams
                &&& streams_decode(entries@, *dz, streams)
            },
            Err(trouble) => result matches Err(error) && error@ == trouble,
        },
{
    let ghost n = entries@.len();
    let mut inputs: Vec<&[u8]> = Vec::new();
    let mut k: usize = 0;
    assert(files(inputs@) =~= dz_inputs(entries@, 0));
    while k < entries.len()
        invariant
            k <= entries@.len(),
            compressions@.len() == entries@.len(),
            forall|j: int|
                0 <= j < entries@.len() ==> #[trigger] compressions@[j] == storage(entries@, j),
            files(inputs@) == dz_inputs(entries@, k as nat),
        decreases entries@.len() - k,
    {
        if compressions[k] == Compression::Dz {
            let ghost before = inputs@;
            inputs.push(entries[k].bytes.as_slice());
            assert(files(inputs@) =~= files(before).push(entries@[k as int].bytes@));
        }
        k += 1;
    }
    proof {
        lemma_dz_count(entries@, n);
        assert(files(inputs@).len() == inputs@.len());
    }
    if inputs.len() == 0 {
        let encoded = EncodedDzArchive { chunks: Vec::new(), common_buffer: None };
        assert(streams_of(encoded) =~= (Streams { chunks: Seq::empty(), common: None }));
        return Ok(encoded);
    }
    match encode_archive(inputs.as_slice(), dz) {
        Ok(encoded) => {
            proof {
                let streams = streams_of(encoded);
                let all = dz_inputs(entries@, n);
                assert(common_of(encoded, dz.settings) == buffer_of(dz.settings, streams.common));
                assert(streams.chunks.len() == encoded.chunks@.len());
                assert forall|i: int| 0 <= i < all.len() implies unchunk(
                    #[trigger] streams.chunks[i],
                    all[i].len() as int,
                    dz.settings,
                    buffer_of(dz.settings, streams.common),
                    update_of(dz.engine()),
                ) == Ok::<Seq<u8>, DzFault>(all[i]) by {
                    assert(streams.chunks[i] == encoded.chunks@[i]@);
                }
            }
            Ok(encoded)
        },
        Err(error) => Err(error),
    }
}

/// The size of all inputs of DZ chunks together, where it can be counted.
fn count_dz_inputs(entries: &Vec<BuilderEntry>, compressions: &Vec<Compression>) -> (size: Option<u64>)
    requires
        compressions@.len() == entries@.len(),
        forall|k: int|
            0 <= k < entries@.len() ==> #[trigger] compressions@[k] == storage(entries@, k),
    ensures
        match size {
            Some(size) => size == dz_input_size(entries@),
            None => dz_input_size(entries@) > u64::MAX,
        },
{
    let ghost n = entries@.len();
    let mut size: u64 = 0;
    let mut k: usize = 0;
    while k < entries.len()
        invariant
            k <= n,
            n == entries@.len(),
            compressions@.len() == entries@.len(),
            forall|j: int|
                0 <= j < entries@.len() ==> #[trigger] compressions@[j] == storage(entries@, j),
            size == dz_size(entries@, k as nat),
        decreases n - k,
    {
        if compressions[k] == Compression::Dz {
            let length: u64 = entries[k].bytes.len() as u64;
            if length > u64::MAX - size {
                proof {
                    lemma_dz_size_grows(entries@, (k + 1) as nat, n);
                    lemma_dz_size(entries@, n);
                }
                return None;
            }
            size = size + length;
        }
        k += 1;
    }
    proof {
        lemma_dz_size(entries@, n);
    }
    Some(size)
}

/// The size of the inputs of the DZ chunks of the first `n` entries together.
spec fn dz_size(entries: Seq<BuilderEntry>, n: nat) -> int
    decreases n,
{
    if n == 0 {
        0
    } else {
        dz_size(entries, (n - 1) as nat) + (if storage(entries, n - 1) == Compression::Dz {
            entries[n - 1].bytes@.len() as int
        } else {
            0
        })
    }
}

proof fn lemma_dz_size_grows(entries: Seq<BuilderEntry>, a: nat, b: nat)
    requires
        a <= b,
    ensures
        dz_size(entries, a) <= dz_size(entries, b),
    decreases b,
{
    if a < b {
        lemma_dz_size_grows(entries, a, (b - 1) as nat);
    }
}

proof fn lemma_dz_size(entries: Seq<BuilderEntry>, n: nat)
    ensures
        dz_size(entries, n) == total_size(dz_inputs(entries, n), dz_inputs(entries, n).len()),
    decreases n,
{
    if n > 0 {
        let rest = dz_inputs(entries, (n - 1) as nat);
        lemma_dz_size(entries, (n - 1) as nat);
        if storage(entries, n - 1) == Compression::Dz {
            let all = rest.push(entries[n - 1].bytes@);
            lemma_total_same(rest, all, rest.len());
        }
    }
}

proof fn lemma_total_same(a: Seq<Seq<u8>>, b: Seq<Seq<u8>>, n: nat)
    requires
        n <= a.len() <= b.len(),
        forall|i: int| 0 <= i < n ==> a[i] == #[trigger] b[i],
    ensures
        total_size(a, n) == total_size(b, n),
    decreases n,
{
    if n > 0 {
        lemma_total_same(a, b, (n - 1) as nat);
        assert(a[n - 1] == b[n - 1]);
    }
}

/// Chunks that are written behind what the volumes hold already.
struct Sheet {
    volumes: Vec<Vec<u8>>,
    chunks: Vec<Chunk>,
    input: u64,
    stored: u64,
}

impl Sheet {
    /// The volumes, the chunks, and what was counted.
    spec fn page(&self) -> Page {
        Page {
            volumes: names_of(self.volumes@),
            chunks: self.chunks@,
            input: self.input as int,
            stored: self.stored as int,
        }
    }

    /// Appends to a volume.
    fn append(&mut self, volume: usize, payload: &[u8])
        requires
            volume < old(self).volumes@.len(),
        ensures
            final(self).page() == (Page {
                volumes: appended(old(self).page().volumes, volume as int, payload@),
                ..old(self).page()
            }),
            final(self).volumes@.len() == old(self).volumes@.len(),
            final(self).chunks@ == old(self).chunks@,
            final(self).input == old(self).input,
            final(self).stored == old(self).stored,
    {
        let ghost before = names_of(self.volumes@);
        self.volumes[volume].extend_from_slice(payload);
        assert(self.volumes@[volume as int]@ =~= before[volume as int] + payload@);
        assert(names_of(self.volumes@) =~= appended(before, volume as int, payload@));
    }

    /// Writes what was made of an entry.
    fn write_chunk_payload(
        &mut self,
        entry: &BuilderEntry,
        compression: Compression,
        payload: &[u8],
        k: usize,
        Ghost(entries): Ghost<Seq<BuilderEntry>>,
    ) -> (result: Result<(), DzipError>)
        requires
            k < entries.len() <= old(self).chunks@.len(),
            entries[k as int] == *entry,
            compression == storage(entries, k as int),
            entry.options.volume < old(self).volumes@.len(),
        ensures
            final(self).volumes@.len() == old(self).volumes@.len(),
            final(self).chunks@.len() == old(self).chunks@.len(),
            ({
                let put = payload_put(old(self).page(), entries, k as int, payload@);
                &&& final(self).page() == put.page
                &&& told(result, put.trouble)
            }),
    {
        let size: usize = entry.bytes.len();
        let mut input: u64 = self.input;
        if compression != Compression::Dz {
            if size as u64 > u64::MAX - input {
                return Err(invalid_input("input byte count overflow"));
            }
            input = input + size as u64;
        }
        if payload.len() as u64 > u64::MAX - self.stored {
            return Err(invalid_input("stored byte count overflow"));
        }
        let stored: u64 = self.stored + payload.len() as u64;
        let volume: usize = entry.options.volume as usize;
        let place: usize = self.volumes[volume].len();
        if place as u64 > u32::MAX as u64 {
            return Err(invalid_input("chunk offset exceeds the 32-bit format field"));
        }
        let ghost start = self.page();
        assert(start.volumes[volume as int].len() == place);
        self.append(volume, payload);
        let length: usize = stored_length(compression, size, payload.len());
        if length as u64 > u32::MAX as u64 {
            return Err(invalid_input("chunk compressed length exceeds 32-bit limit"));
        }
        if size as u64 > u32::MAX as u64 {
            return Err(invalid_input("chunk decompressed length exceeds 32-bit limit"));
        }
        self.chunks.set(
            k,
            Chunk {
                offset: place as u32,
                compressed_length: length as u32,
                decompressed_length: size as u32,
                flags: effective_flags(entry.options),
                file: entry.options.volume,
            },
        );
        self.input = input;
        self.stored = stored;
        Ok(())
    }

    /// Writes the common buffer.
    fn write_common(&mut self, bytes: &[u8], Ghost(entries): Ghost<Seq<BuilderEntry>>) -> (result:
        Result<(), DzipError>)
        requires
            old(self).chunks@.len() == entries.len() + 1,
            old(self).volumes@.len() > 0,
        ensures
            final(self).volumes@.len() == old(self).volumes@.len(),
            final(self).chunks@.len() == old(self).chunks@.len(),
            ({
                let put = common_put(old(self).page(), entries, bytes@);
                &&& final(self).page() == put.page
                &&& told(result, put.trouble)
            }),
    {
        let place: usize = self.volumes[0].len();
        if place as u64 > u32::MAX as u64 {
            return Err(invalid_input("COMBUF offset exceeds 32-bit limit"));
        }
        let ghost start = self.page();
        assert(start.volumes[0].len() == place);
        self.append(0, bytes);
        if bytes.len() as u64 > u64::MAX - self.stored {
            return Err(invalid_input("stored byte count overflow"));
        }
        if bytes.len() as u64 > u32::MAX as u64 {
            return Err(invalid_input("COMBUF compressed length exceeds 32-bit limit"));
        }
        let last: usize = self.chunks.len() - 1;
        self.chunks.set(
            last,
            Chunk {
                offset: place as u32,
                compressed_length: bytes.len() as u32,
                decompressed_length: 0,
                flags: CHUNK_COMBUF,
                file: 0,
            },
        );
        self.stored = self.stored + bytes.len() as u64;
        Ok(())
    }
}

/// Stores all entries in the order of their ranks, the common buffer before the DZ chunks, up
/// to the first that fails.
fn write_chunks(
    sheet: &mut Sheet,
    entries: &Vec<BuilderEntry>,
    compressions: &Vec<Compression>,
    dz: &DzOptions,
    encoded: &EncodedDzArchive,
) -> (result: Result<(), DzipError>)
    requires
        compressions@.len() == entries@.len(),
        forall|k: int|
            0 <= k < entries@.len() ==> #[trigger] compressions@[k] == storage(entries@, k),
        streams_of(*encoded).chunks.len() == dz_before(entries@, entries@.len()),
        old(sheet).chunks@.len() == chunk_count(entries@, streams_of(*encoded)),
        old(sheet).volumes@.len() > 0,
        forall|k: int|
            0 <= k < entries@.len() ==> (#[trigger] entries@[k]).options.volume
                < old(sheet).volumes@.len(),
    ensures
        final(sheet).volumes@.len() == old(sheet).volumes@.len(),
        final(sheet).chunks@.len() == old(sheet).chunks@.len(),
        ({
            let put = all_put(old(sheet).page(), entries@, streams_of(*encoded), 0);
            &&& final(sheet).page() == put.page
            &&& told(result, put.trouble)
        }),
{
    let n: usize = entries.len();
    let ghost streams = streams_of(*encoded);
    let ghost whole = all_put(sheet.page(), entries@, streams, 0);
    let mut rank: u8 = 0;
    while rank < 6
        invariant
            rank <= 6,
            n == entries@.len(),
            compressions@.len() == n,
            forall|k: int|
                0 <= k < n ==> #[trigger] compressions@[k] == storage(entries@, k),
            streams == streams_of(*encoded),
            streams.chunks.len() == dz_before(entries@, n as nat),
            sheet.volumes@.len() == old(sheet).volumes@.len(),
            sheet.volumes@.len() > 0,
            sheet.chunks@.len() == old(sheet).chunks@.len(),
            sheet.chunks@.len() == chunk_count(entries@, streams),
            forall|k: int|
                0 <= k < n ==> (#[trigger] entries@[k]).options.volume < sheet.volumes@.len(),
            whole == all_put(old(sheet).page(), entries@, streams, 0),
            whole == all_put(sheet.page(), entries@, streams, rank as int),
        decreases 6 - rank,
    {
        if rank == 5 {
            if let Some(bytes) = &encoded.common_buffer {
                assert(streams.common == Some(bytes@));
                match sheet.write_common(bytes.as_slice(), Ghost(entries@)) {
                    Ok(()) => {},
                    Err(error) => return Err(error),
                }
            }
        }
        let ghost ranked = rank_put(sheet.page(), entries@, streams, rank as int, 0);
        let ghost later = if ranked.trouble is Some {
            ranked
        } else {
            all_put(ranked.page, entries@, streams, rank + 1)
        };
        assert(whole == later);
        let mut next: usize = 0;
        let mut k: usize = 0;
        while k < n
            invariant
                k <= n,
                rank < 6,
                n == entries@.len(),
                compressions@.len() == n,
                forall|k: int|
                    0 <= k < n ==> #[trigger] compressions@[k] == storage(entries@, k),
                streams == streams_of(*encoded),
                streams.chunks.len() == dz_before(entries@, n as nat),
                sheet.volumes@.len() == old(sheet).volumes@.len(),
                sheet.volumes@.len() > 0,
                sheet.chunks@.len() == old(sheet).chunks@.len(),
                sheet.chunks@.len() == chunk_count(entries@, streams),
                forall|k: int|
                    0 <= k < n ==> (#[trigger] entries@[k]).options.volume < sheet.volumes@.len(),
                next == dz_before(entries@, k as nat),
                whole == all_put(old(sheet).page(), entries@, streams, 0),
                whole == later,
                later == (if ranked.trouble is Some {
                    ranked
                } else {
                    all_put(ranked.page, entries@, streams, rank + 1)
                }),
                ranked == rank_put(sheet.page(), entries@, streams, rank as int, k as int),
            decreases n - k,
        {
            let compression = compressions[k];
            proof {
                lemma_dz_before(entries@, k as nat, n as nat);
                lemma_dz_before(entries@, (k + 1) as nat, n as nat);
            }
            if crate::compat::compression_write_rank(compression) == rank {
                if compression == Compression::Dz {
                    let payload = &encoded.chunks[next];
                    assert(streams.chunks[next as int] == payload@);
                    match sheet.write_chunk_payload(
                        &entries[k],
                        compression,
                        payload.as_slice(),
                        k,
                        Ghost(entries@),
                    ) {
                        Ok(()) => {},
                        Err(error) => return Err(error),
                    }
                } else {
                    let payload = match encode(
                        compression,
                        entries[k].bytes.as_slice(),
                        dz.settings,
                    ) {
                        Ok(payload) => payload,
                        Err(error) => return Err(error),
                    };
                    match sheet.write_chunk_payload(
                        &entries[k],
                        compression,
                        payload.as_slice(),
                        k,
                        Ghost(entries@),
                    ) {
                        Ok(()) => {},
                        Err(error) => return Err(error),
                    }
                }
            }
            if compression == Compression::Dz {
                next = next + 1;
            }
            k += 1;
        }
        rank += 1;
    }
    Ok(())
}

/// The chunk numbers of all files.
fn file_records(
    places: &Vec<usize>,
    directory_ids: &Vec<u16>,
    Ghost(paths): Ghost<Seq<Seq<u8>>>,
    Ghost(list): Ghost<Seq<Seq<u8>>>,
) -> (records: Vec<RawFileRecord>)
    requires
        places@.len() == paths.len(),
        paths.len() <= 0xffff,
        directory_ids@.len() == list.len(),
        forall|k: int|
            0 <= k < places@.len() ==> #[trigger] places@[k] == place(list, paths[k]),
    ensures
        records_of(records@) == Seq::new(
            list.len(),
            |l: int|
                FileRecord {
                    directory: directory_ids@[l],
                    chunks: members(paths, list, l, paths.len()),
                },
        ),
{
    let ghost all = Seq::new(
        list.len(),
        |l: int|
            FileRecord {
                directory: directory_ids@[l],
                chunks: members(paths, list, l, paths.len()),
            },
    );
    let mut records: Vec<RawFileRecord> = Vec::with_capacity(directory_ids.len());
    let mut l: usize = 0;
    while l < directory_ids.len()
        invariant
            l <= directory_ids@.len() == list.len(),
            places@.len() == paths.len(),
            paths.len() <= 0xffff,
            forall|k: int|
                0 <= k < places@.len() ==> #[trigger] places@[k] == place(list, paths[k]),
            all == Seq::new(
                list.len(),
                |l: int|
                    FileRecord {
                        directory: directory_ids@[l],
                        chunks: members(paths, list, l, paths.len()),
                    },
            ),
            records_of(records@) == all.take(l as int),
        decreases directory_ids@.len() - l,
    {
        let mut chunk_ids: Vec<u16> = Vec::new();
        let mut k: usize = 0;
        assert(chunk_ids@ =~= members(paths, list, l as int, 0));
        while k < places.len()
            invariant
                k <= places@.len(),
                places@.len() == paths.len(),
                paths.len() <= 0xffff,
                forall|j: int|
                    0 <= j < places@.len() ==> #[trigger] places@[j] == place(list, paths[j]),
                chunk_ids@ == members(paths, list, l as int, k as nat),
            decreases places@.len() - k,
        {
            if places[k] == l {
                chunk_ids.push(k as u16);
            }
            k += 1;
        }
        let ghost before = records@;
        records.push(RawFileRecord { directory_id: directory_ids[l], chunk_ids });
        l += 1;
        assert(records_of(records@) =~= all.take(l as int)) by {
            assert(records_of(before) =~= records_of(records@).take(l - 1));
        }
    }
    assert(records_of(records@) =~= all);
    records
}

proof fn lemma_chunks_length(chunks: Seq<Chunk>, i: int)
    requires
        0 <= i <= chunks.len(),
    ensures
        chunks_bytes(chunks, i).len() == 16 * (chunks.len() - i),
    decreases chunks.len() - i,
{
    if i < chunks.len() {
        lemma_chunks_length(chunks, i + 1);
    }
}

/// The size of the metadata does not depend on where the chunks lie.
proof fn lemma_header_length(a: Metadata, b: Metadata)
    requires
        b == (Metadata { chunks: b.chunks, ..a }),
        a.chunks.len() == b.chunks.len(),
    ensures
        metadata_bytes(a).len() == metadata_bytes(b).len(),
{
    reveal(metadata_bytes);
    lemma_chunks_length(a.chunks, 0);
    lemma_chunks_length(b.chunks, 0);
}

/// The number of bytes that the metadata take.
pub fn calculate_header_size(archive: &RawArchive) -> (size: usize)
    ensures
        size == metadata_bytes(archive@).len(),
{
    write_metadata(archive).len()
}

/// The distance to the next multiple of the alignment.
pub open spec fn padding(position: int, alignment: u32) -> int {
    if alignment <= 1 {
        0
    } else {
        (alignment - position % (alignment as int)) % (alignment as int)
    }
}

/// Padding leads to a multiple of the alignment, and no further than to the next one; an
/// alignment of zero or one asks for none.
pub proof fn lemma_padding(position: int, alignment: u32)
    requires
        0 <= position,
    ensures
        alignment <= 1 ==> padding(position, alignment) == 0,
        alignment > 1 ==> 0 <= padding(position, alignment) < alignment,
        alignment > 1 ==> (position + padding(position, alignment)) % (alignment as int) == 0,
{
    if alignment > 1 {
        let a = alignment as int;
        let r = position % a;
        vstd::arithmetic::div_mod::lemma_fundamental_div_mod(position, a);
        if r == 0 {
            vstd::arithmetic::div_mod::lemma_mod_self_0(a);
        } else {
            vstd::arithmetic::div_mod::lemma_small_mod((a - r) as nat, a as nat);
            let q = position / a;
            assert(position + (a - r) == (q + 1) * a) by (nonlinear_arith)
                requires
                    position == a * q + r,
            ;
            vstd::arithmetic::div_mod::lemma_mod_multiples_basic(q + 1, a);
        }
    }
}

/// Appends zeros up to the next multiple of the alignment.
fn pad_to_alignment(volume: &mut Vec<u8>, alignment: u32)
    ensures
        final(volume)@ == old(volume)@ + Seq::new(
            padding(old(volume)@.len() as int, alignment) as nat,
            |i: int| 0u8,
        ),
        final(volume)@.len() <= old(volume)@.len() + alignment,
        old(volume)@.is_prefix_of(final(volume)@),
        forall|i: int|
            old(volume)@.len() <= i < final(volume)@.len() ==> #[trigger] final(volume)@[i] == 0,
        alignment <= 1 ==> final(volume)@ == old(volume)@,
        alignment > 1 ==> final(volume)@.len() as int % (alignment as int) == 0,
        alignment > 1 ==> final(volume)@.len() < old(volume)@.len() + alignment,
{
    let ghost before = volume@;
    proof {
        lemma_padding(volume@.len() as int, alignment);
    }
    if alignment <= 1 {
        assert(volume@ =~= before + Seq::new(0nat, |i: int| 0u8));
        return;
    }
    let step: u64 = alignment as u64;
    let position: u64 = volume.len() as u64;
    let count: u64 = (step - position % step) % step;
    let mut i: u64 = 0;
    assert(volume@ =~= before + Seq::new(0nat, |i: int| 0u8));
    while i < count
        invariant
            i <= count,
            volume@ == before + Seq::new(i as nat, |i: int| 0u8),
        decreases count - i,
    {
        volume.push(0);
        i += 1;
        assert(volume@ =~= before + Seq::new(i as nat, |i: int| 0u8));
    }
}

/// The volumes before anything is stored: room for the metadata, and padding.
fn empty_volumes(count: usize, header: usize, alignment: u32) -> (volumes: Vec<Vec<u8>>)
    requires
        count >= 1,
    ensures
        volumes@.len() == count,
        names_of(volumes@) == blank_volumes(count as nat, header as int, alignment),
        header <= volumes@[0]@.len(),
{
    let mut volumes: Vec<Vec<u8>> = Vec::with_capacity(count);
    let mut first: Vec<u8> = vec![0; header];
    pad_to_alignment(&mut first, alignment);
    assert(first@ =~= padded_zeros(header as int, alignment));
    volumes.push(first);
    while volumes.len() < count
        invariant
            1 <= volumes@.len() <= count,
            forall|v: int|
                0 <= v < volumes@.len() ==> (#[trigger] volumes@[v])@ == padded_zeros(
                    if v == 0 {
                        header as int
                    } else {
                        0
                    },
                    alignment,
                ),
            header <= volumes@[0]@.len(),
        decreases count - volumes@.len(),
    {
        let mut volume: Vec<u8> = Vec::new();
        pad_to_alignment(&mut volume, alignment);
        assert(volume@ =~= padded_zeros(0, alignment));
        volumes.push(volume);
    }
    assert(names_of(volumes@) =~= blank_volumes(count as nat, header as int, alignment));
    volumes
}

/// Writes over the start of a volume.
fn overwrite(volume: &mut Vec<u8>, head: &Vec<u8>)
    requires
        head@.len() <= old(volume)@.len(),
    ensures
        final(volume)@.len() == old(volume)@.len(),
        holds(final(volume)@, 0, head@),
        final(volume)@ == headed(old(volume)@, head@),
        forall|i: int|
            head@.len() <= i < final(volume)@.len() ==> #[trigger] final(volume)@[i] == old(volume)@[i],
{
    let mut i: usize = 0;
    while i < head.len()
        invariant
            i <= head@.len() <= volume@.len(),
            volume@.len() == old(volume)@.len(),
            forall|k: int| 0 <= k < i ==> #[trigger] volume@[k] == head@[k],
            forall|k: int| i <= k < volume@.len() ==> #[trigger] volume@[k] == old(volume)@[k],
        decreases head@.len() - i,
    {
        volume.set(i, head[i]);
        i += 1;
    }
    assert(volume@.subrange(0, head@.len() as int) =~= head@);
    assert(volume@ =~= headed(old(volume)@, head@));
}

/// What a builder reports.
#[derive(Debug, Clone, Copy, PartialEq, Eq, Structural)]
pub struct BuildReport {
    pub entries: usize,
    pub chunks: usize,
    pub input_bytes: u64,
    pub stored_bytes: u64,
    pub volumes: usize,
}

impl Default for BuildReport {
    fn default() -> (report: BuildReport)
        ensures
            report == (BuildReport {
                entries: 0,
                chunks: 0,
                input_bytes: 0,
                stored_bytes: 0,
                volumes: 0,
            }),
    {
        BuildReport { entries: 0, chunks: 0, input_bytes: 0, stored_bytes: 0, volumes: 0 }
    }
}

/// The entries are such that an archive can be planned.
pub open spec fn preparable(entries: Seq<BuilderEntry>, volumes: nat) -> bool {
    forall|k: int|
        0 <= k < entries.len() ==> {
            &&& chosen((#[trigger] entries[k]).options) is Some
            &&& entries[k].options.volume < volumes
            &&& split_path(entries[k].archive_path@) is Some
        }
}

proof fn lemma_splittable(paths: Seq<Seq<u8>>, n: nat)
    requires
        n <= paths.len(),
        splittable(paths),
    ensures
        splittable(grouped(paths, n)),
{
    crate::builder::plan::lemma_grouped_members(paths, n);
    let list = grouped(paths, n);
    assert forall|l: int| 0 <= l < list.len() implies split_path(#[trigger] list[l]) is Some by {
        let k = choose|k: int| 0 <= k < n && paths[k] == list[l];
        assert(split_path(paths[k]) is Some);
    }
}

/// Copies of the names from number `start` on.
pub(crate) fn copy_names(names: &Vec<Vec<u8>>, start: usize) -> (copies: Vec<Vec<u8>>)
    requires
        start <= names@.len(),
    ensures
        names_of(copies@) == names_of(names@).skip(start as int),
{
    let ghost all = names_of(names@).skip(start as int);
    let mut copies: Vec<Vec<u8>> = Vec::new();
    let mut i: usize = start;
    while i < names.len()
        invariant
            start <= i <= names@.len(),
            all == names_of(names@).skip(start as int),
            names_of(copies@) == all.take(i - start),
        decreases names@.len() - i,
    {
        let ghost before = copies@;
        copies.push(copied(names[i].as_slice()));
        i += 1;
        assert(names_of(copies@) =~= all.take(i - start)) by {
            assert(names_of(before) =~= names_of(copies@).take(i - start - 1));
        }
    }
    assert(names_of(copies@) =~= all);
    copies
}

/// The parts of the plan belong to the entries.
pub open spec fn plan_fits(
    entries: Seq<BuilderEntry>,
    places: Seq<usize>,
    table: crate::builder::plan::StringTable,
) -> bool {
    let paths = paths_of(entries);
    let list = grouped(paths, entries.len());
    let folders = directories(list, list.len());
    &&& places.len() == entries.len()
    &&& forall|k: int|
        0 <= k < entries.len() ==> #[trigger] places[k] == place(list, paths[k])
    &&& names_of(table.names@) == file_names(list)
    &&& names_of(table.directories@) == folders
    &&& table.directory_ids@.len() == list.len()
    &&& forall|i: int|
        0 <= i < list.len() ==> #[trigger] table.directory_ids@[i] == directory_id(
            folders,
            list[i],
        )
}

/// The metadata with the given chunks.
fn plan_metadata(
    entries: &Vec<BuilderEntry>,
    options: &PackOptions,
    compressions: &Vec<Compression>,
    places: Vec<usize>,
    table: crate::builder::plan::StringTable,
    records: Vec<Chunk>,
) -> (archive: RawArchive)
    requires
        countable(entries@, names_of(options.volume_names@), records@.len()),
        entries@.len() <= 0xffff,
        compressions@.len() == entries@.len(),
        forall|k: int|
            0 <= k < entries@.len() ==> #[trigger] compressions@[k] == storage(entries@, k),
        plan_fits(entries@, places@, table),
    ensures
        archive@ == planned(
            entries@,
            names_of(options.volume_names@),
            options.dz,
            records@,
        ),
        archive.chunks@ == records@,
{
    let ghost n = entries@.len();
    let ghost paths = paths_of(entries@);
    let ghost list = grouped(paths, n);
    let ghost folders = directories(list, list.len());
    let ghost names = names_of(options.volume_names@);
    let count: usize = records.len();
    let file_count: usize = table.directory_ids.len();
    assert(names.len() == options.volume_names@.len());
    assert(names_of(table.directories@).len() == table.directories@.len());
    let crate::builder::plan::StringTable {
        names: mut strings,
        directories: mut folder_names,
        directory_ids,
    } = table;
    let ghost file_list = strings@;
    let ghost folder_list = folder_names@;
    let folder_count: usize = folder_names.len();
    strings.append(&mut folder_names);
    assert(names_of(strings@) =~= names_of(file_list) + names_of(folder_list));
    let file_table = file_records(&places, &directory_ids, Ghost(paths), Ghost(list));
    let has_dz: bool = any_dz(compressions, Ghost(entries@));
    let archive = RawArchive {
        settings: ArchiveSettings {
            header: ARCHIVE_MAGIC,
            num_user_files: file_count as u16,
            num_directories: (folder_count + 1) as u16,
            version: 0,
        },
        strings,
        files: file_table,
        chunk_settings: ChunkSettings {
            num_archive_files: options.volume_names.len() as u16,
            num_chunks: count as u16,
        },
        chunks: records,
        volume_files: copy_names(&options.volume_names, 1),
        range_settings: if has_dz {
            Some(options.dz.settings)
        } else {
            None
        },
    };
    proof {
        let m = planned(entries@, names, options.dz, records@);
        assert(archive@.files =~= m.files);
        assert(archive@.strings =~= m.strings);
        assert(archive@.volumes =~= m.volumes);
    }
    archive
}

/// Tells whether any entry is stored with the DZ codec.
fn any_dz(compressions: &Vec<Compression>, Ghost(entries): Ghost<Seq<BuilderEntry>>) -> (any: bool)
    requires
        compressions@.len() == entries.len(),
        forall|k: int|
            0 <= k < entries.len() ==> #[trigger] compressions@[k] == storage(entries, k),
    ensures
        any == (dz_before(entries, entries.len()) > 0),
{
    let mut k: usize = 0;
    while k < compressions.len()
        invariant
            k <= compressions@.len(),
            compressions@.len() == entries.len(),
            forall|k: int|
                0 <= k < entries.len() ==> #[trigger] compressions@[k] == storage(entries, k),
            dz_before(entries, k as nat) == 0,
        decreases compressions@.len() - k,
    {
        if crate::compat::compression_writes_range_settings(compressions[k]) {
            proof {
                lemma_dz_before(entries, k as nat, entries.len());
            }
            return true;
        }
        k += 1;
    }
    false
}

/// The plan of an archive.
struct Plan {
    compressions: Vec<Compression>,
    places: Vec<usize>,
    table: crate::builder::plan::StringTable,
}

impl Plan {
    /// The plan belongs to the entries.
    spec fn fits(&self, entries: Seq<BuilderEntry>) -> bool {
        &&& plan_fits(entries, self.places@, self.table)
        &&& self.compressions@.len() == entries.len()
        &&& forall|k: int|
            0 <= k < entries.len() ==> #[trigger] self.compressions@[k] == storage(entries, k)
    }
}

/// Plans an archive.
fn plan_archive(entries: &Vec<BuilderEntry>) -> (result: Result<Plan, DzipError>)
    requires
        forall|k: int|
            0 <= k < entries@.len() ==> {
                &&& chosen((#[trigger] entries@[k]).options) is Some
                &&& split_path(entries@[k].archive_path@) is Some
            },
    ensures
        match plan_trouble(entries@) {
            None => result matches Ok(plan) && plan.fits(entries@),
            Some(trouble) => result matches Err(error) && error@ == trouble,
        },
{
    let ghost n = entries@.len();
    let ghost paths = paths_of(entries@);
    let compressions = match find_compressions(entries) {
        Some(list) => list,
        None => Vec::new(),
    };
    let (list, places) = group_logical_files(entries);
    let ghost all = names_of(list@);
    proof {
        assert forall|k: int| 0 <= k < paths.len() implies split_path(#[trigger] paths[k])
            is Some by {
            assert(chosen(entries@[k].options) is Some);
        }
        lemma_splittable(paths, n);
        assert(all.len() == list@.len());
    }
    let table = match build_string_table(&list) {
        Ok(table) => table,
        Err(error) => return Err(error),
    };
    if list.len() > 0xffff {
        return Err(invalid_input("user file count exceeds 65535"));
    }
    Ok(Plan { compressions, places, table })
}

/// The payloads of a new archive: of the entries, and of the common buffer.
pub open spec fn payloads_of(entries: Seq<BuilderEntry>, streams: Streams) -> Seq<Seq<u8>> {
    Seq::new(
        chunk_count(entries, streams),
        |k: int|
            if k < entries.len() {
                payload_of(entries, streams, k)->Ok_0
            } else {
                streams.common->Some_0
            },
    )
}

/// The chunk with the given number is written.
pub open spec fn done(entries: Seq<BuilderEntry>, streams: Streams, chunk: Chunk, a: int) -> bool {
    let payload = payloads_of(entries, streams)[a];
    &&& (Chunk { offset: 0, ..chunk }) == written_record(entries, a, payload.len() as int)
    &&& a < entries.len() ==> payload_of(entries, streams, a) is Ok && entries[a].bytes@.len()
        <= u32::MAX
}

/// What was written before turn `now` lies where it belongs.
pub open spec fn settled(
    page: Page,
    entries: Seq<BuilderEntry>,
    streams: Streams,
    now: int,
    floor: int,
) -> bool {
    let count = chunk_count(entries, streams);
    let turns = stamps(entries, count);
    &&& page.chunks.len() == count
    &&& laid(page.volumes, page.chunks, payloads_of(entries, streams), turns, now, floor)
    &&& forall|a: int|
        0 <= a < count && #[trigger] turns[a] < now ==> done(entries, streams, page.chunks[a], a)
    &&& forall|k: int|
        0 <= k < entries.len() ==> (#[trigger] entries[k]).options.volume < page.volumes.len()
}

/// A chunk is written in its turn.
proof fn lemma_settle(
    page: Page,
    entries: Seq<BuilderEntry>,
    streams: Streams,
    floor: int,
    k: int,
    chunk: Chunk,
    input: int,
    stored: int,
)
    requires
        0 <= k < chunk_count(entries, streams),
        settled(page, entries, streams, stamp(entries, k), floor),
        chunk.file < page.volumes.len(),
        chunk.offset == page.volumes[chunk.file as int].len(),
        done(entries, streams, chunk, k),
    ensures
        settled(
            Page {
                volumes: appended(
                    page.volumes,
                    chunk.file as int,
                    payloads_of(entries, streams)[k],
                ),
                chunks: page.chunks.update(k, chunk),
                input,
                stored,
            },
            entries,
            streams,
            stamp(entries, k) + 1,
            floor,
        ),
{
    let count = chunk_count(entries, streams);
    let turns = stamps(entries, count);
    let payloads = payloads_of(entries, streams);
    assert forall|a: int| 0 <= a < turns.len() && a != k implies #[trigger] turns[a]
        != turns[k] by {
        lemma_stamps_differ(entries, a, k);
    }
    lemma_write(page.volumes, page.chunks, payloads, turns, floor, k, chunk, payloads[k]);
    assert(payloads.update(k, payloads[k]) =~= payloads);
    let after = page.chunks.update(k, chunk);
    assert forall|a: int| 0 <= a < count && #[trigger] turns[a] < stamp(entries, k) + 1 implies done(
        entries,
        streams,
        after[a],
        a,
    ) by {
        if a != k {
            assert(turns[a] != turns[k]);
            assert(after[a] == page.chunks[a]);
        }
    }
}

/// Turns in which nothing is written.
proof fn lemma_rest(
    page: Page,
    entries: Seq<BuilderEntry>,
    streams: Streams,
    now: int,
    later: int,
    floor: int,
)
    requires
        settled(page, entries, streams, now, floor),
        now <= later,
        forall|a: int|
            0 <= a < chunk_count(entries, streams) ==> !(now <= #[trigger] stamp(entries, a)
                < later),
    ensures
        settled(page, entries, streams, later, floor),
{
    let count = chunk_count(entries, streams);
    let turns = stamps(entries, count);
    assert forall|a: int| 0 <= a < turns.len() implies !(now <= #[trigger] turns[a] < later) by {
        assert(turns[a] == stamp(entries, a));
    }
    lemma_idle(
        page.volumes,
        page.chunks,
        payloads_of(entries, streams),
        turns,
        now,
        later,
        floor,
    );
}

/// The chunks of one rank are written.
proof fn lemma_rank_settled(
    page: Page,
    entries: Seq<BuilderEntry>,
    streams: Streams,
    rank: int,
    k: int,
    floor: int,
)
    requires
        0 <= k <= entries.len(),
        0 <= rank < 6,
        settled(page, entries, streams, rank * (entries.len() + 2) + k + 1, floor),
        rank_put(page, entries, streams, rank, k).trouble is None,
    ensures
        settled(
            rank_put(page, entries, streams, rank, k).page,
            entries,
            streams,
            rank * (entries.len() + 2) + entries.len() + 1,
            floor,
        ),
    decreases entries.len() - k,
{
    let size = entries.len() + 2;
    let now = rank * size + k + 1;
    if k < entries.len() {
        if write_rank(storage(entries, k)) == rank {
            let put = entry_put(page, entries, streams, k);
            let payload = payload_of(entries, streams, k)->Ok_0;
            assert(payloads_of(entries, streams)[k] == payload);
            assert(stamp(entries, k) == now);
            assert(entries[k].options.volume < page.volumes.len());
            lemma_settle(
                page,
                entries,
                streams,
                floor,
                k,
                put.page.chunks[k],
                put.page.input,
                put.page.stored,
            );
            assert(put.page.chunks =~= page.chunks.update(k, put.page.chunks[k]));
            lemma_rank_settled(put.page, entries, streams, rank, k + 1, floor);
        } else {
            assert forall|a: int|
                0 <= a < chunk_count(entries, streams) implies !(now <= #[trigger] stamp(
                entries,
                a,
            ) < now + 1) by {
                if stamp(entries, a) == now {
                    lemma_turn_parts(entries, a, rank, k + 1);
                }
            }
            lemma_rest(page, entries, streams, now, now + 1, floor);
            lemma_rank_settled(page, entries, streams, rank, k + 1, floor);
        }
    }
}

/// The chunks of all ranks are written.
proof fn lemma_all_settled(
    page: Page,
    entries: Seq<BuilderEntry>,
    streams: Streams,
    rank: int,
    floor: int,
)
    requires
        0 <= rank <= 6,
        page.volumes.len() > 0,
        settled(page, entries, streams, rank * (entries.len() + 2), floor),
        all_put(page, entries, streams, rank).trouble is None,
    ensures
        settled(
            all_put(page, entries, streams, rank).page,
            entries,
            streams,
            (6 * (entries.len() + 2)) as int,
            floor,
        ),
    decreases 6 - rank,
{
    let size = entries.len() + 2;
    let n = entries.len() as int;
    let now = rank * size;
    if rank < 6 {
        let first = begun(page, entries, streams, rank);
        if rank == 5 && streams.common is Some {
            assert(stamp(entries, n) == now);
            assert(payloads_of(entries, streams)[n] == streams.common->Some_0);
            lemma_settle(
                page,
                entries,
                streams,
                floor,
                n,
                first.page.chunks[n],
                first.page.input,
                first.page.stored,
            );
            assert(first.page.chunks =~= page.chunks.update(n, first.page.chunks[n]));
        } else {
            assert forall|a: int|
                0 <= a < chunk_count(entries, streams) implies !(now <= #[trigger] stamp(
                entries,
                a,
            ) < now + 1) by {
                if stamp(entries, a) == now {
                    lemma_turn_parts(entries, a, rank, 0);
                }
            }
            lemma_rest(page, entries, streams, now, now + 1, floor);
        }
        lemma_rank_settled(first.page, entries, streams, rank, 0, floor);
        let put = rank_put(first.page, entries, streams, rank, 0);
        assert((rank + 1) * size == now + size) by (nonlinear_arith)
            requires
                now == rank * size,
        ;
        assert forall|a: int|
            0 <= a < chunk_count(entries, streams) implies !(now + n + 1 <= #[trigger] stamp(
            entries,
            a,
        ) < now + size) by {
            if stamp(entries, a) == now + n + 1 {
                lemma_turn_parts(entries, a, rank, n + 1);
            }
        }
        lemma_rest(put.page, entries, streams, now + n + 1, now + size, floor);
        lemma_all_settled(put.page, entries, streams, rank + 1, floor);
    }
}

/// The volumes of an archive that was written hold what belongs there.
pub proof fn lemma_wrote(entries: Seq<BuilderEntry>, options: PackOptions, streams: Streams)
    requires
        1 <= options.volume_names@.len() <= 0xffff,
        preparable(entries, options.volume_names@.len()),
        plan_trouble(entries) is None,
        chunk_count(entries, streams) <= 0xffff,
        streams_decode(entries, options.dz, streams),
        page_outcome(entries, options, streams).result is Ok,
    ensures
        wrote(
            entries,
            names_of(options.volume_names@),
            options.dz,
            page_outcome(entries, options, streams).volumes,
            all_put(blank_page(entries, options, streams), entries, streams, 0).page.chunks,
            payloads_of(entries, streams),
            streams.common,
        ),
{
    let names = names_of(options.volume_names@);
    let start = blank_page(entries, options, streams);
    let count = chunk_count(entries, streams);
    let turns = stamps(entries, count);
    let payloads = payloads_of(entries, streams);
    let page = all_put(start, entries, streams, 0).page;
    let floor = header_size(entries, names, options.dz, streams);
    let n = entries.len();
    assert(0 * (n + 2) == 0) by (nonlinear_arith);
    assert forall|a: int| 0 <= a < count implies #[trigger] turns[a] > 0 by {
        lemma_stamp_bound(entries, a);
    }
    assert forall|k: int| 0 <= k < n implies (#[trigger] entries[k]).options.volume
        < start.volumes.len() by {}
    assert(settled(start, entries, streams, 0, floor));
    lemma_all_settled(start, entries, streams, 0, floor);
    let m = planned(entries, names, options.dz, page.chunks);
    lemma_header_length(planned(entries, names, options.dz, start.chunks), m);
    let head = metadata_bytes(m);
    let first = headed(page.volumes[0], head);
    assert(first.len() == page.volumes[0].len());
    lemma_overwrite(
        page.volumes,
        page.chunks,
        payloads,
        turns,
        (6 * (n + 2)) as int,
        floor,
        first,
    );
    assert(first.subrange(0, head.len() as int) =~= head);
    assert forall|a: int| 0 <= a < count implies #[trigger] turns[a] < 6 * (n + 2) by {
        lemma_stamp_bound(entries, a);
    }
    lemma_volumes_grow(start, entries, streams, 0);
    assert forall|k: int| 0 <= k < page.chunks.len() implies (Chunk {
        offset: 0,
        ..#[trigger] page.chunks[k]
    }) == written_record(entries, k, payloads[k].len() as int) by {
        assert(turns[k] < 6 * (n + 2));
    }
    assert forall|k: int| 0 <= k < n implies (#[trigger] entries[k]).bytes@.len() <= u32::MAX by {
        assert(turns[k] < 6 * (n + 2));
    }
    assert forall|k: int| 0 <= k < n implies payload_fits(
        entries,
        options.dz,
        streams.common,
        k,
        #[trigger] payloads[k],
    ) by {
        assert(turns[k] < 6 * (n + 2));
        assert(done(entries, streams, page.chunks[k], k));
        if storage(entries, k) == Compression::Dz {
            lemma_dz_inputs(entries, k, n);
        } else {
            assert(stored(storage(entries, k), entries[k].bytes@) is Some);
        }
    }
    lemma_dz_count(entries, n);
}

/// Volumes that hold nothing.
fn open_volumes(count: usize) -> (volumes: Vec<Vec<u8>>)
    ensures
        names_of(volumes@) == no_bytes(count as nat),
{
    let mut volumes: Vec<Vec<u8>> = Vec::with_capacity(count);
    while volumes.len() < count
        invariant
            volumes@.len() <= count,
            forall|v: int|
                0 <= v < volumes@.len() ==> (#[trigger] volumes@[v])@ == Seq::<u8>::empty(),
        decreases count - volumes@.len(),
    {
        volumes.push(Vec::new());
    }
    assert(names_of(volumes@) =~= no_bytes(count as nat));
    volumes
}

/// The records before anything is stored.
fn open_chunks(count: usize) -> (chunks: Vec<Chunk>)
    ensures
        chunks@ == Seq::new(count as nat, |k: int| blank_chunk()),
{
    let mut chunks: Vec<Chunk> = Vec::with_capacity(count);
    while chunks.len() < count
        invariant
            chunks@.len() <= count,
            forall|k: int| 0 <= k < chunks@.len() ==> #[trigger] chunks@[k] == blank_chunk(),
        decreases count - chunks@.len(),
    {
        chunks.push(
            Chunk { offset: 0, compressed_length: 0, decompressed_length: 0, flags: 0, file: 0 },
        );
    }
    assert(chunks@ =~= Seq::new(count as nat, |k: int| blank_chunk()));
    chunks
}

/// Writes the chunks and the metadata of an archive.
fn write_pages(
    entries: &Vec<BuilderEntry>,
    options: &PackOptions,
    plan: Plan,
    encoded: EncodedDzArchive,
    input: u64,
) -> (written: (Vec<Vec<u8>>, Result<BuildReport, DzipError>))
    requires
        1 <= options.volume_names@.len() <= 0xffff,
        preparable(entries@, options.volume_names@.len()),
        plan_trouble(entries@) is None,
        plan.fits(entries@),
        input == dz_input_size(entries@),
        chunk_count(entries@, streams_of(encoded)) <= 0xffff,
        streams_of(encoded).chunks.len() == dz_before(entries@, entries@.len()),
    ensures
        ({
            let outcome = page_outcome(entries@, *options, streams_of(encoded));
            &&& names_of(written.0@) == outcome.volumes
            &&& answered(outcome, written.1)
        }),
{
    let ghost streams = streams_of(encoded);
    let ghost names = names_of(options.volume_names@);
    assert(names.len() == options.volume_names@.len());
    let count: usize = if encoded.common_buffer.is_some() {
        entries.len() + 1
    } else {
        entries.len()
    };
    let Plan { compressions, places, table } = plan;
    let file_count: usize = table.directory_ids.len();
    let volume_count: usize = options.volume_names.len();
    let mut archive = plan_metadata(
        entries,
        options,
        &compressions,
        places,
        table,
        open_chunks(count),
    );
    let ghost blank = archive@;
    let header: usize = calculate_header_size(&archive);
    let mut records: Vec<Chunk> = Vec::new();
    core::mem::swap(&mut archive.chunks, &mut records);
    let mut sheet = Sheet {
        volumes: empty_volumes(volume_count, header, options.alignment),
        chunks: records,
        input,
        stored: 0,
    };
    let ghost start = blank_page(entries@, *options, streams);
    proof {
        assert(blank.chunks =~= blank_chunks(entries@, streams));
        assert(header == header_size(entries@, names, options.dz, streams));
        assert(sheet.page() =~= start);
        assert forall|k: int| 0 <= k < entries@.len() implies (
        #[trigger] entries@[k]).options.volume < sheet.volumes@.len() by {}
        lemma_volumes_grow(start, entries@, streams, 0);
    }
    let result = write_chunks(&mut sheet, entries, &compressions, &options.dz, &encoded);
    let Sheet { mut volumes, mut chunks, input: input_bytes, stored: stored_bytes } = sheet;
    let ghost page = all_put(start, entries@, streams, 0).page;
    assert(names_of(volumes@) == page.volumes);
    assert(page.volumes[0] == volumes@[0]@);
    match result {
        Ok(()) => {},
        Err(error) => {
            if volumes[0].len() <= header {
                volumes.set(0, Vec::new());
                assert(names_of(volumes@) =~= left_volumes(page.volumes, header as int));
            }
            return (volumes, Err(error));
        },
    }
    let ghost laid_chunks = chunks@;
    core::mem::swap(&mut archive.chunks, &mut chunks);
    let head = write_metadata(&archive);
    proof {
        assert(archive@ == (Metadata { chunks: laid_chunks, ..blank }));
        assert(archive@ == planned(entries@, names, options.dz, laid_chunks));
        lemma_header_length(blank, archive@);
    }
    let ghost before = names_of(volumes@);
    overwrite(&mut volumes[0], &head);
    assert(names_of(volumes@) =~= archive_volumes(entries@, names, options.dz, page));
    let report = BuildReport {
        entries: file_count,
        chunks: count,
        input_bytes,
        stored_bytes,
        volumes: volume_count,
    };
    (volumes, Ok(report))
}

/// The volumes that the entries go to are there.
pub open spec fn placed(entries: Seq<BuilderEntry>, volumes: nat) -> bool {
    &&& volumes > 0
    &&& forall|k: int|
        0 <= k < entries.len() ==> (#[trigger] entries[k]).options.volume < volumes
}

proof fn lemma_rank_grows(
    page: Page,
    entries: Seq<BuilderEntry>,
    streams: Streams,
    rank: int,
    k: int,
)
    requires
        placed(entries, page.volumes.len()),
    ensures
        rank_put(page, entries, streams, rank, k).page.volumes.len() == page.volumes.len(),
        rank_put(page, entries, streams, rank, k).page.volumes[0].len() >= page.volumes[0].len(),
    decreases entries.len() - k,
{
    if 0 <= k < entries.len() {
        assert(entries[k].options.volume < page.volumes.len());
        if write_rank(storage(entries, k)) == rank {
            lemma_rank_grows(
                entry_put(page, entries, streams, k).page,
                entries,
                streams,
                rank,
                k + 1,
            );
        } else {
            lemma_rank_grows(page, entries, streams, rank, k + 1);
        }
    }
}

/// The number of volumes stays as it is, and the first one does not become shorter.
pub proof fn lemma_volumes_grow(page: Page, entries: Seq<BuilderEntry>, streams: Streams, rank: int)
    requires
        placed(entries, page.volumes.len()),
    ensures
        all_put(page, entries, streams, rank).page.volumes.len() == page.volumes.len(),
        all_put(page, entries, streams, rank).page.volumes[0].len() >= page.volumes[0].len(),
    decreases 6 - rank,
{
    if rank < 6 {
        let first = begun(page, entries, streams, rank);
        lemma_rank_grows(first.page, entries, streams, rank, 0);
        lemma_volumes_grow(
            rank_put(first.page, entries, streams, rank, 0).page,
            entries,
            streams,
            rank + 1,
        );
    }
}

/// The DZ streams of the entries, if they can be made, decode to the inputs.
#[verifier::opaque]
pub open spec fn sealed(entries: Seq<BuilderEntry>, dz: DzOptions) -> bool {
    encoded_streams(entries, dz) matches Ok(streams) ==> streams_decode(entries, dz, streams)
}

/// Writes an archive into memory. Without volumes, nothing was begun.
pub fn write_prepared(entries: &Vec<BuilderEntry>, options: &PackOptions) -> (written: (
    Option<Vec<Vec<u8>>>,
    Result<BuildReport, DzipError>,
))
    requires
        1 <= options.volume_names@.len() <= 0xffff,
        preparable(entries@, options.volume_names@.len()),
    ensures
        match plan_trouble(entries@) {
            Some(trouble) => written.0 is None && (written.1 matches Err(error) && error@
                == trouble),
            None => {
                let outcome = planned_outcome(entries@, *options);
                &&& sealed(entries@, options.dz)
                &&& written.0 matches Some(volumes) && names_of(volumes@) == outcome.volumes
                &&& answered(outcome, written.1)
            },
        },
{
    let plan = match plan_archive(entries) {
        Ok(plan) => plan,
        Err(error) => return (None, Err(error)),
    };
    reveal(planned_outcome);
    reveal(sealed);
    let volume_count: usize = options.volume_names.len();
    let encoded = match encode_dz(entries, &plan.compressions, &options.dz) {
        Ok(encoded) => encoded,
        Err(error) => return (Some(open_volumes(volume_count)), Err(error)),
    };
    proof {
        lemma_dz_count(entries@, entries@.len());
    }
    let input: u64 = match count_dz_inputs(entries, &plan.compressions) {
        Some(input) => input,
        None => return (
            Some(open_volumes(volume_count)),
            Err(invalid_input("input byte count overflow")),
        ),
    };
    let room: usize = if encoded.common_buffer.is_some() {
        0xfffe
    } else {
        0xffff
    };
    if entries.len() > room {
        return (
            Some(open_volumes(volume_count)),
            Err(invalid_input("chunk count exceeds 65535")),
        );
    }
    let (volumes, result) = write_pages(entries, options, plan, encoded, input);
    (Some(volumes), result)
}

} // verus!
