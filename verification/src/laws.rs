//! What holds of the archive format, in its own numbers.

use vstd::prelude::*;

use crate::codec::flags::{
    lowered, meaning, registered, Codec, Compression, ContentHint, KNOWN_FLAGS, STORAGE_FLAGS,
};
use crate::codec::limits::CodecLimits;
use crate::compat::{
    dedicated_combuf, physical, placeholder_length, read_length, recorded_length, write_rank,
};
use crate::codecs::dz::settings::RangeSettings;
use crate::archive::{
    boundary_after, entry_of, physical_length, piece_trouble, pieces_from, raw_path,
    resolved_chunks, EntrySegment, ResolvedChunk,
};
use crate::error::Trouble;
use crate::format::{ArchiveSettings, Chunk, FileRecord, Metadata};
use crate::metadata::{
    chunk_at, chunk_bytes, chunks_bytes, long, long_at, metadata_bytes, name_bytes, name_end,
    names_bytes, numbers_bytes, optional_range_bytes, range_at, range_bytes, records_bytes,
    settings_at, settings_bytes, short, short_at, wants_range,
};
use crate::options::{usual_settings, PackOptions, ReadLimits};
use crate::path::{
    components, components_from, entered, joined, key_byte, path_key, plain_path, separator,
};
use crate::reading::{flags_trouble, next_volume, size_trouble, stored_bytes};

verus! {

/// Numbers are stored lowest byte first.
pub proof fn lemma_little_endian(a: u16, b: u32)
    ensures
        short(a).len() == 2,
        short(a)[0] + 256 * short(a)[1] == a,
        short_at(short(a), 0) == a,
        long(b).len() == 4,
        long(b)[0] + 256 * long(b)[1] + 65536 * long(b)[2] + 16777216 * long(b)[3] == b,
        long_at(long(b), 0) == b,
{
}

/// An archive begins with the letters `DTRZ`, the number of files, the number of directories with
/// the root, and a version, which is zero.
#[verifier::spinoff_prover]
pub proof fn lemma_settings_layout(settings: ArchiveSettings, data: Seq<u8>)
    ensures
        settings_bytes(settings).len() == 9,
        long_at(settings_bytes(settings), 0) == settings.header,
        short_at(settings_bytes(settings), 4) == settings.num_user_files,
        short_at(settings_bytes(settings), 6) == settings.num_directories,
        settings_bytes(settings)[8] == settings.version,
        data.len() >= 9 && !(data[0] == 'D' as u8 && data[1] == 'T' as u8 && data[2] == 'R' as u8
            && data[3] == 'Z' as u8) ==> settings_at(data) == Err::<ArchiveSettings, Trouble>(
            Trouble::InvalidHeader,
        ),
        data.len() >= 9 && data[0] == 'D' as u8 && data[1] == 'T' as u8 && data[2] == 'R' as u8
            && data[3] == 'Z' as u8 && data[8] != 0 ==> settings_at(data) == Err::<
            ArchiveSettings,
            Trouble,
        >(Trouble::UnsupportedVersion(data[8])),
        data.len() >= 9 && data[0] == 'D' as u8 && data[1] == 'T' as u8 && data[2] == 'R' as u8
            && data[3] == 'Z' as u8 && data[8] == 0 ==> (settings_at(data) matches Ok(found)
            && found.num_user_files == data[4] + 256 * data[5] && found.num_directories == data[6]
            + 256 * data[7] && found.version == 0 && found.header == 0x5a52_5444),
{
}

/// A chunk's record: offset, compressed length and decompressed length in four bytes each, flags
/// and number of the volume in two bytes each.
#[verifier::spinoff_prover]
pub proof fn lemma_chunk_layout(chunk: Chunk, data: Seq<u8>)
    requires
        data.len() >= 16,
    ensures
        chunk_bytes(chunk).len() == 16,
        long_at(chunk_bytes(chunk), 0) == chunk.offset,
        long_at(chunk_bytes(chunk), 4) == chunk.compressed_length,
        long_at(chunk_bytes(chunk), 8) == chunk.decompressed_length,
        short_at(chunk_bytes(chunk), 12) == chunk.flags,
        short_at(chunk_bytes(chunk), 14) == chunk.file,
        chunk_at(data, 0).offset == data[0] + 256 * data[1] + 65536 * data[2] + 16777216 * data[3],
        chunk_at(data, 0).compressed_length == data[4] + 256 * data[5] + 65536 * data[6] + 16777216
            * data[7],
        chunk_at(data, 0).decompressed_length == data[8] + 256 * data[9] + 65536 * data[10]
            + 16777216 * data[11],
        chunk_at(data, 0).flags == data[12] + 256 * data[13],
        chunk_at(data, 0).file == data[14] + 256 * data[15],
{
    let b = chunk_bytes(chunk);
    let x = long(chunk.offset);
    let y = long(chunk.compressed_length);
    let z = long(chunk.decompressed_length);
    let u = short(chunk.flags);
    let v = short(chunk.file);
    lemma_little_endian(chunk.flags, chunk.offset);
    lemma_little_endian(chunk.file, chunk.compressed_length);
    lemma_little_endian(0, chunk.decompressed_length);
    assert(b[0] == x[0] && b[1] == x[1] && b[2] == x[2] && b[3] == x[3]);
    assert(b[4] == y[0] && b[5] == y[1] && b[6] == y[2] && b[7] == y[3]);
    assert(b[8] == z[0] && b[9] == z[1] && b[10] == z[2] && b[11] == z[3]);
    assert(b[12] == u[0] && b[13] == u[1] && b[14] == v[0] && b[15] == v[1]);
}

/// The settings of the DZ models in the order in which they are stored, one byte each.
pub proof fn lemma_range_layout(range: RangeSettings, data: Seq<u8>)
    requires
        data.len() >= 10,
    ensures
        range_bytes(range) == seq![
            range.win_size,
            range.flags,
            range.offset_table_size,
            range.offset_tables,
            range.offset_contexts,
            range.ref_length_table_size,
            range.ref_length_tables,
            range.ref_offset_table_size,
            range.ref_offset_tables,
            range.big_min_match,
        ],
        range_bytes(range_at(data, 0)) == data.take(10),
{
    assert(range_bytes(range_at(data, 0)) =~= data.take(10));
}

/// A file's record: two bytes for its directory, two for each of its chunks, and two bytes of
/// ones.
#[verifier::spinoff_prover]
pub proof fn lemma_file_layout(file: FileRecord)
    ensures
        ({
            let bytes = records_bytes(seq![file], 0);
            let n = file.chunks.len() as int;
            &&& bytes.len() == 4 + 2 * n
            &&& short_at(bytes, 0) == file.directory
            &&& forall|i: int| #![trigger file.chunks[i]]
                0 <= i < n ==> short_at(bytes, 2 + 2 * i) == file.chunks[i]
            &&& bytes[2 + 2 * n] == 0xff
            &&& bytes[3 + 2 * n] == 0xff
        }),
{
    let bytes = records_bytes(seq![file], 0);
    let rest = numbers_bytes(file.chunks, 0);
    lemma_numbers_layout(file.chunks, 0);
    assert(records_bytes(seq![file], 1) =~= Seq::<u8>::empty());
    assert(bytes =~= short(file.directory) + rest);
    assert forall|i: int| #![trigger file.chunks[i]] 0 <= i < file.chunks.len() implies short_at(
        bytes,
        2 + 2 * i,
    ) == file.chunks[i] by {
        assert(short_at(rest, 2 * (i - 0)) == file.chunks[i]);
        assert(bytes[2 + 2 * i] == rest[2 * i] && bytes[2 + 2 * i + 1] == rest[2 * i + 1]);
    }
    let n = file.chunks.len() as int;
    assert(bytes[2 + 2 * n] == rest[2 * n] && bytes[3 + 2 * n] == rest[2 * n + 1]);
}

proof fn lemma_numbers_layout(numbers: Seq<u16>, i: int)
    requires
        0 <= i <= numbers.len(),
    ensures
        ({
            let bytes = numbers_bytes(numbers, i);
            let n = numbers.len() - i;
            &&& bytes.len() == 2 + 2 * n
            &&& forall|k: int| #![trigger numbers[k]]
                i <= k < numbers.len() ==> short_at(bytes, 2 * (k - i)) == numbers[k]
            &&& bytes[2 * n] == 0xff
            &&& bytes[2 * n + 1] == 0xff
        }),
    decreases numbers.len() - i,
{
    if i < numbers.len() {
        lemma_numbers_layout(numbers, i + 1);
        let rest = numbers_bytes(numbers, i + 1);
        let bytes = numbers_bytes(numbers, i);
        assert forall|k: int| #![trigger numbers[k]] i <= k < numbers.len() implies short_at(
            bytes,
            2 * (k - i),
        ) == numbers[k] by {
            if k > i {
                assert(short_at(rest, 2 * (k - (i + 1))) == numbers[k]);
                assert(bytes[2 * (k - i)] == rest[2 * (k - i) - 2]);
                assert(bytes[2 * (k - i) + 1] == rest[2 * (k - i) - 1]);
            }
        }
        let n = numbers.len() - i;
        assert(bytes[2 * n] == rest[2 * n - 2] && bytes[2 * n + 1] == rest[2 * n - 1]);
    }
}

/// A name ends with a zero; the one that is read ends before the first one.
pub proof fn lemma_name_layout(name: Seq<u8>, rest: Seq<u8>)
    requires
        forall|i: int| 0 <= i < name.len() ==> #[trigger] name[i] != 0,
    ensures
        name_bytes(name) == name + seq![0u8],
        name_end(name + seq![0u8] + rest, 0) == name.len(),
{
    assert(name_bytes(name) =~= name + seq![0u8]);
    lemma_name_found(name + seq![0u8] + rest, 0, name.len() as int);
}

proof fn lemma_name_found(data: Seq<u8>, p: int, end: int)
    requires
        0 <= p <= end < data.len(),
        forall|i: int| p <= i < end ==> #[trigger] data[i] != 0,
        data[end] == 0,
    ensures
        name_end(data, p) == end,
    decreases end - p,
{
    if p < end {
        assert(data[p] != 0);
        lemma_name_found(data, p + 1, end);
    }
}

/// The order of the metadata: the start, the names of files and directories, the files' records,
/// the numbers of volumes and chunks, the chunks' records, the names of the volumes behind the
/// first, and, where there are any, the settings of the DZ models. Nothing lies between them.
#[verifier::spinoff_prover]
pub proof fn lemma_metadata_layout(m: Metadata)
    ensures
        metadata_bytes(m) == settings_bytes(m.settings) + names_bytes(m.strings, 0) + records_bytes(
            m.files,
            0,
        ) + short(m.counts.num_archive_files) + short(m.counts.num_chunks) + chunks_bytes(
            m.chunks,
            0,
        ) + names_bytes(m.volumes, 0) + (match m.range {
            Some(range) => range_bytes(range),
            None => Seq::empty(),
        }),
        chunks_bytes(m.chunks, 0).len() == 16 * m.chunks.len(),
{
    reveal(metadata_bytes);
    lemma_chunks_layout(m.chunks, 0);
    let start = settings_bytes(m.settings);
    let names = names_bytes(m.strings, 0);
    let files = records_bytes(m.files, 0);
    let a = short(m.counts.num_archive_files);
    let b = short(m.counts.num_chunks);
    let chunks = chunks_bytes(m.chunks, 0);
    let volumes = names_bytes(m.volumes, 0);
    let range = optional_range_bytes(m.range);
    lemma_regrouped(start, names, files + ((a + b) + (chunks + (volumes + range))));
    lemma_regrouped(start + names, files, (a + b) + (chunks + (volumes + range)));
    lemma_regrouped(start + names + files, a + b, chunks + (volumes + range));
    lemma_regrouped(start + names + files, a, b);
    lemma_regrouped(start + names + files + a + b, chunks, volumes + range);
    lemma_regrouped(start + names + files + a + b + chunks, volumes, range);
}

proof fn lemma_regrouped(a: Seq<u8>, b: Seq<u8>, c: Seq<u8>)
    ensures
        a + (b + c) == (a + b) + c,
{
    assert(a + (b + c) =~= (a + b) + c);
}

proof fn lemma_chunks_layout(chunks: Seq<Chunk>, i: int)
    requires
        0 <= i <= chunks.len(),
    ensures
        chunks_bytes(chunks, i).len() == 16 * (chunks.len() - i),
    decreases chunks.len() - i,
{
    if i < chunks.len() {
        lemma_chunks_layout(chunks, i + 1);
    }
}

/// The settings of the DZ models are stored where a chunk has flag four.
pub proof fn lemma_wants_range(chunks: Seq<Chunk>, chunk: Chunk)
    ensures
        !wants_range(Seq::empty()),
        wants_range(chunks.push(chunk)) <==> wants_range(chunks) || chunk.flags & 4 != 0,
{
    let more = chunks.push(chunk);
    if wants_range(chunks) {
        let i = choose|i: int| 0 <= i < chunks.len() && (#[trigger] chunks[i]).flags & 4 != 0;
        assert(more[i].flags & 4 != 0);
    }
    if chunk.flags & 4 != 0 {
        assert(more[chunks.len() as int].flags & 4 != 0);
    }
}

/// The flags of the ways of storing, each a bit of its own.
pub proof fn lemma_storage_flags()
    ensures
        Compression::Dz.bit() == 4,
        Compression::Zlib.bit() == 8,
        Compression::Bzip.bit() == 16,
        Compression::Zero.bit() == 128,
        Compression::Copy.bit() == 256,
        Compression::Lzma.bit() == 512,
        Codec::Dz.bit() == 4,
        Codec::Zlib.bit() == 8,
        Codec::Bzip.bit() == 16,
        Codec::Lzma.bit() == 512,
        STORAGE_FLAGS == 4 + 8 + 16 + 128 + 256 + 512,
        KNOWN_FLAGS == STORAGE_FLAGS + 1 + 32 + 64 + 1024,
        ContentHint::Mp3.bits() == 32,
        ContentHint::Jpeg.bits() == 64,
        ContentHint::Mp3AndJpeg.bits() == 96,
{
}

/// Where flags select several ways of storing, zeros win over BZip2, BZip2 over plain bytes,
/// plain bytes over Zlib, Zlib over LZMA and LZMA over DZ.
pub proof fn lemma_registered(flags: u16)
    ensures
        registered(flags) == Some(Compression::Zero) <==> flags & 128 != 0,
        registered(flags) == Some(Compression::Bzip) <==> flags & 128 == 0 && flags & 16 != 0,
        registered(flags) == Some(Compression::Copy) <==> flags & 128 == 0 && flags & 16 == 0
            && flags & 256 != 0,
        registered(flags) == Some(Compression::Zlib) <==> flags & 128 == 0 && flags & 16 == 0
            && flags & 256 == 0 && flags & 8 != 0,
        registered(flags) == Some(Compression::Lzma) <==> flags & 128 == 0 && flags & 16 == 0
            && flags & 256 == 0 && flags & 8 == 0 && flags & 512 != 0,
        registered(flags) == Some(Compression::Dz) <==> flags & 128 == 0 && flags & 16 == 0 && flags
            & 256 == 0 && flags & 8 == 0 && flags & 512 == 0 && flags & 4 != 0,
        registered(flags) is None <==> flags & 0x39c == 0,
{
    assert(flags & 128 == 0 && flags & 16 == 0 && flags & 256 == 0 && flags & 8 == 0 && flags & 512
        == 0 && flags & 4 == 0 <==> flags & 0x39c == 0) by (bit_vector);
}

/// The other flags: one for a use of the common buffer, 1024 for random access, 32 and 64 for
/// sound and pictures; the rest is kept as it is.
pub proof fn lemma_meaning(flags: u16)
    ensures
        meaning(flags) matches Some(encoding) ==> {
            &&& Some(encoding.compression) == registered(flags)
            &&& encoding.common_buffer <==> flags & 1 != 0
            &&& encoding.random_access <==> flags & 1024 != 0
            &&& encoding.content_hint == (if flags & 96 == 96 {
                Some(ContentHint::Mp3AndJpeg)
            } else if flags & 96 == 32 {
                Some(ContentHint::Mp3)
            } else if flags & 96 == 64 {
                Some(ContentHint::Jpeg)
            } else {
                None
            })
            &&& encoding.unknown_flags == flags & 0xf802
        },
        meaning(flags) is None <==> flags & 0x39c == 0,
        dedicated_combuf(flags) <==> flags & 1 != 0 && flags & 0x39c == 0,
{
    lemma_registered(flags);
    assert(flags & !0x7fdu16 == flags & 0xf802) by (bit_vector);
    assert((flags & 96 == 96) == (flags & 32 != 0 && flags & 64 != 0) && (flags & 96 == 32) == (
    flags & 32 != 0 && flags & 64 == 0) && (flags & 96 == 64) == (flags & 32 == 0 && flags & 64
        != 0)) by (bit_vector);
}

/// Chunks are written by their way of storing: zeros, BZip2, plain bytes, Zlib, LZMA, DZ. Zlib,
/// BZip2 and LZMA chunks record the size of their input twice, others what they take up.
pub proof fn lemma_writing(input: int, encoded: int)
    ensures
        write_rank(Compression::Zero) == 0,
        write_rank(Compression::Bzip) == 1,
        write_rank(Compression::Copy) == 2,
        write_rank(Compression::Zlib) == 3,
        write_rank(Compression::Lzma) == 4,
        write_rank(Compression::Dz) == 5,
        recorded_length(Compression::Zlib, input, encoded) == input,
        recorded_length(Compression::Bzip, input, encoded) == input,
        recorded_length(Compression::Lzma, input, encoded) == input,
        recorded_length(Compression::Copy, input, encoded) == encoded,
        recorded_length(Compression::Zero, input, encoded) == encoded,
        recorded_length(Compression::Dz, input, encoded) == encoded,
{
}

/// A chunk is read by its compressed length, plain bytes by their decompressed one. The length of
/// a compressed chunk that equals its decompressed one stands for an unknown one. Chunks of zeros
/// take up no bytes, nor do empty ones that are not BZip2 streams.
pub proof fn lemma_lengths(chunk: Chunk)
    ensures
        read_length(chunk, Compression::Copy) == chunk.decompressed_length,
        read_length(chunk, Compression::Zero) == chunk.compressed_length,
        read_length(chunk, Compression::Bzip) == chunk.compressed_length,
        read_length(chunk, Compression::Zlib) == chunk.compressed_length,
        read_length(chunk, Compression::Lzma) == chunk.compressed_length,
        read_length(chunk, Compression::Dz) == chunk.compressed_length,
        placeholder_length(chunk) <==> chunk.compressed_length == chunk.decompressed_length && (
        chunk.flags & 4 != 0 || chunk.flags & 8 != 0 || chunk.flags & 16 != 0 || chunk.flags & 512
            != 0),
        physical(chunk) <==> chunk.flags & 128 == 0 && (chunk.compressed_length > 0 || chunk.flags
            & 16 != 0),
{
    let flags = chunk.flags;
    assert(flags & 0x21c != 0 <==> flags & 4 != 0 || flags & 8 != 0 || flags & 16 != 0 || flags
        & 512 != 0) by (bit_vector);
}

/// The end of a chunk of unknown length: the nearest chunk behind it on its volume that takes up
/// bytes, or the end of the volume.
pub proof fn lemma_boundary(chunks: Seq<Chunk>, volume: u16, offset: u32, end: int, n: nat)
    requires
        n <= chunks.len(),
    ensures
        ({
            let boundary = boundary_after(chunks, volume, offset, end, n);
            &&& boundary <= end
            &&& forall|i: int| #![trigger chunks[i]]
                0 <= i < n && chunks[i].file == volume && physical(chunks[i]) && chunks[i].offset
                    > offset ==> boundary <= chunks[i].offset
            &&& boundary < end ==> exists|i: int| #![trigger chunks[i]]
                0 <= i < n && chunks[i].file == volume && physical(chunks[i]) && chunks[i].offset
                    == boundary && boundary > offset
        }),
    decreases n,
{
    if n > 0 {
        lemma_boundary(chunks, volume, offset, end, (n - 1) as nat);
        let rest = boundary_after(chunks, volume, offset, end, (n - 1) as nat);
        let boundary = boundary_after(chunks, volume, offset, end, n);
        if boundary < end {
            if boundary == rest {
                let i = choose|i: int| #![trigger chunks[i]]
                    0 <= i < n - 1 && chunks[i].file == volume && physical(chunks[i])
                        && chunks[i].offset == rest && rest > offset;
                assert(chunks[i].offset == boundary);
            } else {
                assert(chunks[n - 1].offset == boundary);
            }
        }
    }
}

/// A chunk whose length is known keeps it; any other reaches to the next one.
pub proof fn lemma_physical_length(chunks: Seq<Chunk>, chunk: Chunk, size: int)
    requires
        chunk.offset <= size <= u32::MAX,
    ensures
        chunk.compressed_length != chunk.decompressed_length ==> physical_length(
            chunks,
            chunk,
            size,
        ) == chunk.compressed_length,
        placeholder_length(chunk) && physical(chunk) ==> chunk.offset + physical_length(
            chunks,
            chunk,
            size,
        ) == boundary_after(chunks, chunk.file, chunk.offset, size, chunks.len()),
{
    lemma_boundary(chunks, chunk.file, chunk.offset, size, chunks.len());
}

/// The next volume in use is the lowest one from the given number on.
pub proof fn lemma_next_volume(chunks: Seq<Chunk>, from: int, n: nat)
    requires
        n <= chunks.len(),
    ensures
        match next_volume(chunks, from, n) {
            None => forall|i: int|
                0 <= i < n ==> (#[trigger] chunks[i]).file < from,
            Some(id) => {
                &&& from <= id
                &&& exists|i: int| 0 <= i < n && (#[trigger] chunks[i]).file == id
                &&& forall|i: int| 0 <= i < n && (#[trigger] chunks[i]).file >= from ==> id
                    <= chunks[i].file
            },
        },
    decreases n,
{
    if n > 0 {
        lemma_next_volume(chunks, from, (n - 1) as nat);
        if let Some(best) = next_volume(chunks, from, (n - 1) as nat) {
            let i = choose|i: int| 0 <= i < n - 1 && (#[trigger] chunks[i]).file == best;
            assert(chunks[i].file == best);
        }
        assert(chunks[n - 1].file == chunks[n - 1].file);
    }
}

/// The path of a file in the root is its name; in any other directory, of which the first one
/// follows the names of the files, it is joined to that by a backslash, unless a separator is
/// there.
pub proof fn lemma_raw_path(m: Metadata, index: int)
    requires
        0 <= index < m.files.len(),
        index < m.strings.len(),
    ensures
        m.files[index].directory == 0 ==> raw_path(m, index) == Ok::<Seq<u8>, Trouble>(
            m.strings[index],
        ),
        ({
            let place = m.settings.num_user_files + m.files[index].directory - 1;
            m.files[index].directory > 0 && place < m.strings.len() ==> {
                let folder = m.strings[place];
                let name = m.strings[index];
                raw_path(m, index) == Ok::<Seq<u8>, Trouble>(
                    if folder.len() > 0 && (folder.last() == 47 || folder.last() == 92) {
                        folder + name
                    } else {
                        folder + seq![92u8] + name
                    },
                )
            }
        }),
{
    let place = m.settings.num_user_files + m.files[index].directory - 1;
    if m.files[index].directory > 0 && place < m.strings.len() {
        let folder = m.strings[place];
        assert(folder.push(92) =~= folder + seq![92u8]);
    }
}

/// Where a path begins does not matter to its components.
proof fn lemma_components_shift(
    path: Seq<u8>,
    rest: Seq<u8>,
    k: int,
    start: int,
    i: int,
    stack: Seq<Seq<u8>>,
)
    requires
        0 <= k <= path.len(),
        rest == path.skip(k),
        k <= start <= i <= path.len(),
    ensures
        components_from(path, start, i, stack) == components_from(rest, start - k, i - k, stack),
    decreases path.len() - i,
{
    assert(path.subrange(start, i) =~= rest.subrange(start - k, i - k));
    if i < path.len() {
        assert(path[i] == rest[i - k]);
        if separator(path[i]) {
            if let Some(more) = entered(stack, path.subrange(start, i)) {
                lemma_components_shift(path, rest, k, i + 1, i + 1, more);
            }
        } else {
            lemma_components_shift(path, rest, k, start, i + 1, stack);
        }
    }
}

proof fn lemma_component_end(path: Seq<u8>, i: int, end: int, stack: Seq<Seq<u8>>)
    requires
        0 <= i <= end <= path.len(),
        forall|j: int| 0 <= j < end ==> path[j] != 47 && #[trigger] path[j] != 92,
        end < path.len() ==> path[end] == 47 || path[end] == 92,
    ensures
        components_from(path, 0, i, stack) == (if end == path.len() {
            entered(stack, path)
        } else {
            match entered(stack, path.take(end)) {
                None => None,
                Some(more) => components_from(path, end + 1, end + 1, more),
            }
        }),
    decreases end - i,
{
    if i < end {
        assert(path[i] != 47 && path[i] != 92);
        lemma_component_end(path, i + 1, end, stack);
    } else {
        assert(path.subrange(0, end) =~= path.take(end));
        if end == path.len() {
            assert(path.take(end) =~= path);
        }
    }
}

/// Components are what slashes and backslashes part. An empty one and a dot leave the path as it
/// is, two dots take away the last component and may not leave the root, and any other name is
/// added.
pub proof fn lemma_path_components(
    name: Seq<u8>,
    between: u8,
    rest: Seq<u8>,
    stack: Seq<Seq<u8>>,
)
    requires
        forall|j: int| 0 <= j < name.len() ==> name[j] != 47 && #[trigger] name[j] != 92,
        between == 47 || between == 92,
    ensures
        name.len() == 0 || name == seq![46u8] ==> components_from(
            name + seq![between] + rest,
            0,
            0,
            stack,
        ) == components_from(rest, 0, 0, stack),
        name == seq![46u8, 46u8] && stack.len() == 0 ==> components_from(
            name + seq![between] + rest,
            0,
            0,
            stack,
        ) is None,
        name == seq![46u8, 46u8] && stack.len() > 0 ==> components_from(
            name + seq![between] + rest,
            0,
            0,
            stack,
        ) == components_from(rest, 0, 0, stack.drop_last()),
        name.len() > 0 && name != seq![46u8] && name != seq![46u8, 46u8] ==> components_from(
            name + seq![between] + rest,
            0,
            0,
            stack,
        ) == components_from(rest, 0, 0, stack.push(name)) && components_from(name, 0, 0, stack)
            == Some(stack.push(name)),
{
    let path = name + seq![between] + rest;
    let end = name.len() as int;
    lemma_component_end(path, 0, end, stack);
    lemma_component_end(name, 0, end, stack);
    assert(path.take(end) =~= name);
    assert(path.skip(end + 1) =~= rest);
    if let Some(more) = entered(stack, name) {
        lemma_components_shift(path, rest, end + 1, end + 1, end + 1, more);
    }
}

/// A path with a separator in front or a colon behind its first byte is refused.
pub proof fn lemma_rooted(path: Seq<u8>)
    ensures
        path.len() >= 1 && (path[0] == 47 || path[0] == 92) ==> components(path) is None
            && plain_path(path) is None,
        path.len() >= 2 && path[1] == 58 ==> components(path) is None && plain_path(path) is None,
{
}

/// The plain form of a path has slashes between its components, and none around them.
pub proof fn lemma_plain_path(list: Seq<Seq<u8>>, name: Seq<u8>)
    ensures
        joined(list, 47, 0) == Seq::<u8>::empty(),
        joined(seq![name], 47, 1) == name,
        list.len() > 0 ==> joined(list.push(name), 47, list.len() + 1) == joined(
            list,
            47,
            list.len(),
        ) + seq![47u8] + name,
        forall|path: Seq<u8>|
            (#[trigger] components(path)) matches Some(found) ==> plain_path(path) == Some(
                joined(found, 47, found.len()),
            ),
{
    if list.len() > 0 {
        lemma_joined_prefix(list, name, list.len());
        let a = joined(list, 47, list.len());
        assert(a.push(47) + name =~= a + seq![47u8] + name);
    }
}

proof fn lemma_joined_prefix(list: Seq<Seq<u8>>, name: Seq<u8>, n: nat)
    requires
        n <= list.len(),
    ensures
        joined(list.push(name), 47, n) == joined(list, 47, n),
    decreases n,
{
    if n > 1 {
        lemma_joined_prefix(list, name, (n - 1) as nat);
    }
}

/// Paths are compared without regard to the case of Latin letters and to which separators they
/// have.
pub proof fn lemma_path_key(byte: u8, path: Seq<u8>)
    ensures
        65 <= byte <= 90 ==> key_byte(byte) == byte + 32,
        byte == 47 ==> key_byte(byte) == 92,
        byte != 47 && !(65 <= byte <= 90) ==> key_byte(byte) == byte,
        path_key(path).len() == path.len(),
        path_key(path_key(path)) == path_key(path),
        forall|i: int| 0 <= i < path.len() ==> #[trigger] path_key(path)[i] == key_byte(path[i]),
{
    assert(path_key(path_key(path)) =~= path_key(path));
}

/// The bytes of a chunk are the part of its volume that its offset and length name; chunks of
/// zeros have none.
pub proof fn lemma_volume_part(
    volumes: Seq<Option<Seq<u8>>>,
    chunk: Chunk,
    compression: Compression,
)
    ensures
        compression == Compression::Zero ==> stored_bytes(volumes, chunk, compression) == Ok::<
            Seq<u8>,
            Trouble,
        >(Seq::empty()),
        compression != Compression::Zero ==> (stored_bytes(volumes, chunk, compression) matches Ok(
            bytes,
        ) ==> {
            &&& chunk.file < volumes.len()
            &&& volumes[chunk.file as int] matches Some(volume) && chunk.offset + bytes.len()
                <= volume.len() && bytes == volume.subrange(
                chunk.offset as int,
                chunk.offset + bytes.len(),
            )
            &&& bytes.len() == read_length(chunk, compression)
        }),
        chunk.file >= volumes.len() && compression != Compression::Zero ==> stored_bytes(
            volumes,
            chunk,
            compression,
        ) == Err::<Seq<u8>, Trouble>(Trouble::VolumeNotFound(chunk.file)),
{
}

/// The limits of a reader that is given none.
pub proof fn lemma_usual_limits()
    ensures
        ReadLimits::usual().max_entries == 65536,
        ReadLimits::usual().max_chunks == 65536,
        ReadLimits::usual().max_chunk_references == 1048576,
        ReadLimits::usual().max_string_length == 4096,
        ReadLimits::usual().max_metadata_bytes == 64 * 1048576,
        ReadLimits::usual().max_chunk_input_size == 1024 * 1048576,
        ReadLimits::usual().max_chunk_output_size == 1024 * 1048576,
        ReadLimits::usual().max_codec_workspace == 1024 * 1048576,
        ReadLimits::usual().max_entry_size == 4096 * 1048576,
        ReadLimits::usual().max_total_output == 65536 * 1048576,
{
}

/// What chunks decode to together.
pub open spec fn decoded_total(m: Metadata, ids: Seq<u16>, n: nat) -> int
    decreases n,
{
    if n == 0 {
        0
    } else {
        decoded_total(m, ids, (n - 1) as nat) + m.chunks[ids[n - 1] as int].decompressed_length
    }
}

proof fn lemma_pieces(
    m: Metadata,
    path: Seq<u8>,
    ids: Seq<u16>,
    part: int,
    segments: Seq<EntrySegment>,
    size: int,
)
    requires
        0 <= part <= ids.len(),
        segments.len() == part,
        size == decoded_total(m, ids, part as nat),
    ensures
        pieces_from(m, path, ids, part, segments, size) matches Ok((all, total)) ==> {
            &&& all.len() == ids.len()
            &&& total == decoded_total(m, ids, ids.len())
            &&& forall|i: int| 0 <= i < part ==> #[trigger] all[i] == segments[i]
            &&& forall|i: int|
                part <= i < ids.len() ==> {
                    &&& (#[trigger] all[i]).chunk_id == ids[i]
                    &&& ids[i] < m.chunks.len()
                    &&& all[i].start == decoded_total(m, ids, i as nat)
                    &&& all[i].end == all[i].start + m.chunks[ids[i] as int].decompressed_length
                    &&& all[i].volume == m.chunks[ids[i] as int].file
                    &&& meaning(m.chunks[ids[i] as int].flags) == Some(all[i].encoding)
                }
        },
    decreases ids.len() - part,
{
    if part < ids.len() {
        let id = ids[part];
        if piece_trouble(m, path, id) is None {
            let chunk = m.chunks[id as int];
            let end = size + chunk.decompressed_length;
            lemma_decoded_total(m, ids, part as nat);
            assert(decoded_total(m, ids, (part + 1) as nat) == end);
            if end <= u64::MAX {
                let next = segments.push(
                    EntrySegment {
                        chunk_id: id,
                        start: size as u64,
                        end: end as u64,
                        encoding: meaning(chunk.flags)->Some_0,
                        volume: chunk.file,
                    },
                );
                lemma_pieces(m, path, ids, part + 1, next, end);
                if let Ok((all, total)) = pieces_from(m, path, ids, part + 1, next, end) {
                    assert(all[part] == next[part]);
                    assert forall|i: int| 0 <= i < part implies #[trigger] all[i]
                        == segments[i] by {
                        assert(all[i] == next[i]);
                    }
                }
            }
        }
    }
}

proof fn lemma_decoded_total(m: Metadata, ids: Seq<u16>, n: nat)
    ensures
        0 <= decoded_total(m, ids, n),
    decreases n,
{
    if n > 0 {
        lemma_decoded_total(m, ids, (n - 1) as nat);
    }
}

/// The pieces of an entry are its chunks in order. Each begins where the one before it ends, the
/// first one at zero, and the entry is as long as they are together. Its way of storing and its
/// volume are those of its first piece; without one it is stored plainly on the first volume.
pub proof fn lemma_entry_pieces(m: Metadata, index: int, limits: ReadLimits)
    requires
        0 <= index < m.files.len(),
    ensures
        entry_of(m, index, limits) matches Ok(entry) ==> {
            let ids = m.files[index].chunks;
            &&& entry.chunk_ids == ids
            &&& entry.segments.len() == ids.len()
            &&& entry.decompressed_size == decoded_total(m, ids, ids.len())
            &&& entry.decompressed_size <= limits.max_entry_size
            &&& raw_path(m, index) == Ok::<Seq<u8>, Trouble>(entry.raw_path)
            &&& plain_path(entry.raw_path) == Some(entry.path)
            &&& forall|i: int|
                0 <= i < ids.len() ==> {
                    &&& (#[trigger] entry.segments[i]).chunk_id == ids[i]
                    &&& entry.segments[i].start == decoded_total(m, ids, i as nat)
                    &&& entry.segments[i].end == entry.segments[i].start
                        + m.chunks[ids[i] as int].decompressed_length
                    &&& entry.segments[i].volume == m.chunks[ids[i] as int].file
                }
            &&& ids.len() == 0 ==> entry.compression == Compression::Copy && entry.volume == 0
            &&& ids.len() > 0 ==> registered(m.chunks[ids[0] as int].flags) == Some(
                entry.compression,
            ) && entry.volume == m.chunks[ids[0] as int].file
        },
{
    if let Ok(raw) = raw_path(m, index) {
        if let Some(path) = plain_path(raw) {
            let ids = m.files[index].chunks;
            lemma_pieces(m, path, ids, 0, seq![], 0);
            lemma_decoded_total(m, ids, ids.len());
            if let Ok((segments, size)) = pieces_from(m, path, ids, 0, seq![], 0) {
                if ids.len() > 0 {
                    assert(segments[0].chunk_id == ids[0]);
                }
            }
        }
    }
}

/// A chunk can be a piece of an entry if it exists, selects a way of storing, lies on a volume
/// that has a name, and does not ask for DZ and the common buffer both.
pub proof fn lemma_piece_accepted(m: Metadata, path: Seq<u8>, id: u16)
    ensures
        piece_trouble(m, path, id) is None <==> {
            &&& id < m.chunks.len()
            &&& m.chunks[id as int].flags & 0x39c != 0
            &&& m.chunks[id as int].file <= m.volumes.len()
            &&& !(m.chunks[id as int].flags & 1 != 0 && registered(m.chunks[id as int].flags)
                == Some(Compression::Dz))
        },
{
    if id < m.chunks.len() {
        lemma_registered(m.chunks[id as int].flags);
    }
}

/// A way of storing is found by its name, in any mixture of cases, BZip2 by two; names that differ
/// stand for different ones.
pub proof fn lemma_names(compression: Compression, name: Seq<char>)
    ensures
        Compression::named(compression.label()) == Some(compression),
        Compression::named("bzip2"@) == Some(Compression::Bzip),
        Compression::named("COPY"@) == Some(Compression::Copy),
        Compression::named(name) == Compression::named(lowered(name)),
{
    reveal_strlit("copy");
    reveal_strlit("zero");
    reveal_strlit("bzip");
    reveal_strlit("bzip2");
    reveal_strlit("zlib");
    reveal_strlit("lzma");
    reveal_strlit("dz");
    reveal_strlit("COPY");
    assert(lowered("COPY"@) =~= "copy"@);
    assert(lowered("copy"@) =~= "copy"@);
    assert(lowered("zero"@) =~= "zero"@);
    assert(lowered("bzip"@) =~= "bzip"@);
    assert(lowered("bzip2"@) =~= "bzip2"@);
    assert(lowered("zlib"@) =~= "zlib"@);
    assert(lowered("lzma"@) =~= "lzma"@);
    assert(lowered("dz"@) =~= "dz"@);
    assert(lowered(lowered(name)) =~= lowered(name));
    assert("copy"@[0] == 'c' && "zero"@[0] == 'z' && "zero"@[1] == 'e' && "bzip"@[0] == 'b'
        && "zlib"@[0] == 'z' && "zlib"@[1] == 'l' && "lzma"@[0] == 'l' && "dz"@[0] == 'd');
}

/// An archive with a flag that has no meaning is refused, for the first chunk that has one.
pub proof fn lemma_unknown_flags(chunks: Seq<Chunk>, i: int)
    requires
        0 <= i <= chunks.len(),
    ensures
        flags_trouble(chunks, i) is None <==> forall|k: int|
            i <= k < chunks.len() ==> (#[trigger] chunks[k]).flags & 0xf802 == 0,
        flags_trouble(chunks, i) matches Some(trouble) ==> exists|k: int| #![trigger chunks[k]]
            i <= k < chunks.len() && chunks[k].flags & 0xf802 != 0 && trouble
                == Trouble::UnsupportedCompression(chunks[k].flags),
    decreases chunks.len() - i,
{
    if i < chunks.len() {
        let flags = chunks[i].flags;
        assert(flags & !0x7fdu16 == flags & 0xf802) by (bit_vector);
        lemma_unknown_flags(chunks, i + 1);
    }
}

/// Chunks beyond the limits of a reader are refused, on all volumes or on the one in question.
pub proof fn lemma_size_limits(
    chunks: Seq<ResolvedChunk>,
    only: Option<u16>,
    i: int,
    limits: CodecLimits,
)
    requires
        0 <= i <= chunks.len(),
    ensures
        size_trouble(chunks, only, i, limits) is None <==> forall|k: int|
            i <= k < chunks.len() && (only is None || (#[trigger] chunks[k]).stored.file
                == only->Some_0) ==> chunks[k].physical_length <= limits.max_input_size
                && chunks[k].stored.decompressed_length <= limits.max_output_size,
    decreases chunks.len() - i,
{
    if i < chunks.len() {
        lemma_size_limits(chunks, only, i + 1, limits);
    }
}

/// A chunk on a volume that is not there keeps its recorded length; on one that is there it has
/// its real one.
pub proof fn lemma_resolved(chunks: Seq<Chunk>, volumes: Seq<Option<Seq<u8>>>, i: int)
    requires
        0 <= i < chunks.len(),
    ensures
        ({
            let resolved = resolved_chunks(chunks, volumes)[i];
            let file = chunks[i].file as int;
            &&& resolved_chunks(chunks, volumes).len() == chunks.len()
            &&& resolved.stored == chunks[i]
            &&& file >= volumes.len() ==> resolved.physical_length == chunks[i].compressed_length
            &&& file < volumes.len() && volumes[file] is None ==> resolved.physical_length
                == chunks[i].compressed_length
            &&& file < volumes.len() && volumes[file] is Some ==> resolved.physical_length
                == physical_length(chunks, chunks[i], volumes[file]->Some_0.len() as int)
        }),
{
}

/// What a builder does unless told otherwise: one volume, `archive.dz`, without alignment; no limit
/// on memory and no common buffer.
pub proof fn lemma_usual_settings(options: PackOptions)
    requires
        usual_settings(options),
    ensures
        options.volume_names@.len() == 1,
        options.volume_names@[0]@.len() == 10,
        forall|i: int|
            0 <= i < 10 ==> #[trigger] options.volume_names@[0]@[i] == seq![
                'a',
                'r',
                'c',
                'h',
                'i',
                'v',
                'e',
                '.',
                'd',
                'z',
            ][i] as u8,
        options.alignment == 1,
        options.dz.max_mem_usage == -1,
        !options.dz.use_combuf,
        options.dz.preprocess,
        options.dz.trim_reference_factor == 20,
        options.dz.max_common_match == usize::MAX,
        options.dz.settings == RangeSettings::usual(),
{
}

} // verus!
