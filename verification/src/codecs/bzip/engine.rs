//! Whole BZip2 streams.

use vstd::arithmetic::power2::{lemma2_to64, lemma2_to64_rest};
use vstd::prelude::*;

use crate::codecs::bzip::bitstream::{
    holds, lemma_bits_at_bound, lemma_holds_number, lemma_holds_split, lemma_low_bits_len,
    lemma_pack_front, lemma_pack_holds, lemma_pack_len, low_bits, pack, BitReader, BitWriter,
};
use crate::codecs::bzip::block::{
    content_at, content_bits, decode_block_symbols, field, lemma_content_position,
    lemma_content_read_back, write_content,
};
use crate::codecs::bzip::bwt::{
    bwt, inverse_bwt, lemma_bwt_round_trip, lemma_links_exist, lemma_rotation_order, links_of,
    pointer, rotation_order, transformed, untransformed,
};
use crate::codecs::bzip::checksum::{combine, combined, crc, crc32};
use crate::codecs::bzip::fault::Fault;
use crate::codecs::bzip::options::{
    block_size_ok, decode_workspace, decode_workspace_size,
};
use crate::codecs::bzip::rotations::lemma_permutation_covers;
use crate::codecs::bzip::transform::{
    block_length, decode_rle1, derandomize, derandomized, encode_rle1, lemma_block_length,
    lemma_rle1_round_trip, rle1, rle1_block_end, unrle1,
};

verus! {

/// The number that begins a block.
pub const BLOCK_MAGIC: u64 = 0x3141_5926_5359;

/// The number that ends a stream.
pub const STREAM_END_MAGIC: u64 = 0x1772_4538_5090;

/// How much smaller than its capacity a block stays.
pub const BLOCK_OVERSHOOT_GUARD: usize = 19;

/// What a block means once its content is known.
#[verifier::opaque]
pub open spec fn block_meaning(
    column: Seq<u8>,
    start: int,
    randomized: bool,
    room: int,
) -> Result<Seq<u8>, Fault> {
    if column.len() == 0 || start >= column.len() {
        Err(Fault::OriginalPointer)
    } else {
        let plain = untransformed(column, start);
        unrle1(
            if randomized {
                derandomized(plain, 0, 0)
            } else {
                plain
            },
            Seq::empty(),
            room,
        )
    }
}

/// A block behind its number: its bytes, its checksum and the position behind it.
#[verifier::opaque]
pub open spec fn block_at(body: Seq<u8>, p: int, capacity: int, room: int) -> Result<
    (int, Seq<u8>),
    Fault,
> {
    match (field(body, p, 32), field(body, p + 32, 1), field(body, p + 33, 24)) {
        (Ok(declared), Ok(randomized), Ok(start)) => match content_at(body, p + 57, capacity) {
            Err(fault) => Err(fault),
            Ok((q, column)) => match block_meaning(column, start, randomized != 0, room) {
                Err(fault) => Err(fault),
                Ok(block) => if crc(block) != declared {
                    Err(Fault::BlockChecksum)
                } else {
                    Ok((q, block))
                },
            },
        },
        _ => Err(Fault::TruncatedStream),
    }
}

/// A block takes some bits.
pub proof fn lemma_block_position(body: Seq<u8>, p: int, capacity: int, room: int)
    ensures
        block_at(body, p, capacity, room) matches Ok((q, block)) ==> p < q <= 8 * body.len(),
{
    reveal(block_at);
    lemma_content_position(body, p + 57, capacity);
}

/// The blocks of a stream from bit `p` on: the longer output and the position behind them.
pub open spec fn blocks_at(
    body: Seq<u8>,
    p: int,
    capacity: int,
    out: Seq<u8>,
    expected: int,
    checksum: u32,
) -> Result<(int, Seq<u8>), Fault>
    decreases 8 * body.len() - p,
{
    match field(body, p, 48) {
        Err(fault) => Err(fault),
        Ok(marker) => if marker == STREAM_END_MAGIC {
            match field(body, p + 48, 32) {
                Err(fault) => Err(fault),
                Ok(declared) => if declared != checksum {
                    Err(Fault::CombinedChecksum)
                } else {
                    Ok((p + 80, out))
                },
            }
        } else if marker != BLOCK_MAGIC {
            Err(Fault::BlockMarker)
        } else {
            match block_at(body, p + 48, capacity, expected - out.len()) {
                Err(fault) => Err(fault),
                Ok((q, block)) => {
                    proof {
                        lemma_block_position(body, p + 48, capacity, expected - out.len());
                    }
                    blocks_at(
                        body,
                        q,
                        capacity,
                        out + block,
                        expected,
                        combined(checksum, crc(block)),
                    )
                },
            }
        },
    }
}

/// The blocks of a stream end within it.
pub proof fn lemma_blocks_position(
    body: Seq<u8>,
    p: int,
    capacity: int,
    out: Seq<u8>,
    expected: int,
    checksum: u32,
)
    ensures
        blocks_at(body, p, capacity, out, expected, checksum) matches Ok((q, longer)) ==> p < q
            <= 8 * body.len(),
    decreases 8 * body.len() - p,
{
    if let Ok(marker) = field(body, p, 48) {
        if marker == BLOCK_MAGIC {
            lemma_block_position(body, p + 48, capacity, expected - out.len());
            if let Ok((q, block)) = block_at(body, p + 48, capacity, expected - out.len()) {
                lemma_blocks_position(
                    body,
                    q,
                    capacity,
                    out + block,
                    expected,
                    combined(checksum, crc(block)),
                );
            }
        }
    }
}

/// A stream begins with three letters and the digit of its block size.
pub open spec fn header_ok(stream: Seq<u8>) -> bool {
    stream.len() >= 4 && stream[0] == 0x42 && stream[1] == 0x5a && stream[2] == 0x68 && 0x31
        <= stream[3] <= 0x39
}

/// The streams from byte `offset` on, behind `out`.
pub open spec fn streams_at(
    data: Seq<u8>,
    offset: int,
    out: Seq<u8>,
    expected: int,
    workspace: int,
) -> Result<Seq<u8>, Fault>
    decreases data.len() - offset,
{
    if offset < 0 || offset >= data.len() {
        Ok(out)
    } else {
        let stream = data.skip(offset);
        if !header_ok(stream) {
            Err(Fault::StreamHeader)
        } else if decode_workspace_size(stream[3] - 0x30) > workspace {
            Err(Fault::WorkspaceLimit)
        } else {
            match blocks_at(
                stream.skip(4),
                0,
                (stream[3] - 0x30) * 100_000,
                out,
                expected,
                0,
            ) {
                Err(fault) => Err(fault),
                Ok((q, longer)) => {
                    proof {
                        lemma_blocks_position(
                            stream.skip(4),
                            0,
                            (stream[3] - 0x30) * 100_000,
                            out,
                            expected,
                            0,
                        );
                    }
                    streams_at(data, offset + 4 + (q + 7) / 8, longer, expected, workspace)
                },
            }
        }
    }
}

/// What one or more streams decode to, given that it must be `expected` bytes and that no more
/// than `workspace` bytes of working memory may be taken.
pub open spec fn unbzip(data: Seq<u8>, expected: usize, workspace: usize) -> Result<Seq<u8>, Fault> {
    if data.len() < 4 {
        Err(Fault::StreamHeader)
    } else {
        match streams_at(data, 0, Seq::empty(), expected as int, workspace as int) {
            Err(fault) => Err(fault),
            Ok(out) => if out.len() != expected {
                Err(Fault::LengthMismatch { expected, actual: out.len() as usize })
            } else {
                Ok(out)
            },
        }
    }
}

/// A block as it is written.
#[verifier::opaque]
pub open spec fn block_bits(block: Seq<u8>) -> Seq<bool> {
    let code = rle1(block);
    low_bits(BLOCK_MAGIC as int, 48) + (low_bits(crc(block) as int, 32) + (low_bits(0, 1) + (
    low_bits(pointer(code), 24) + content_bits(transformed(code)))))
}

/// How long the code of a block may be.
pub open spec fn code_limit(block_size: u8) -> int {
    block_size as int * 100_000 - 19
}

/// The blocks of `input`, and the end of the stream.
pub open spec fn blocks_bits(input: Seq<u8>, block_size: u8, checksum: u32) -> Seq<bool>
    decreases input.len(),
{
    let n = block_length(input, 0, code_limit(block_size));
    if input.len() == 0 || n <= 0 || n > input.len() {
        low_bits(STREAM_END_MAGIC as int, 48) + low_bits(checksum as int, 32)
    } else {
        block_bits(input.take(n)) + blocks_bits(
            input.skip(n),
            block_size,
            combined(checksum, crc(input.take(n))),
        )
    }
}

/// The four bytes that begin a stream.
pub open spec fn header_bytes(block_size: u8) -> Seq<u8> {
    seq![0x42u8, 0x5au8, 0x68u8, (0x30 + block_size) as u8]
}

/// The stream that the encoder makes of `input`.
pub open spec fn bzip_stream(input: Seq<u8>, block_size: u8) -> Seq<u8> {
    header_bytes(block_size) + pack(blocks_bits(input, block_size, 0))
}

/// The transform of a block can be undone.
proof fn lemma_transform(code: Seq<u8>)
    requires
        code.len() > 0,
    ensures
        untransformed(transformed(code), pointer(code)) == code,
        0 <= pointer(code) < code.len(),
        transformed(code).len() == code.len(),
{
    let order = rotation_order(code);
    lemma_rotation_order(code);
    lemma_links_exist(transformed(code));
    lemma_permutation_covers(order, code.len(), 0);
    lemma_bwt_round_trip(code, order, links_of(transformed(code)), pointer(code));
}

/// The code of something is something.
proof fn lemma_code_not_empty(s: Seq<u8>)
    requires
        s.len() > 0,
    ensures
        rle1(s).len() > 0,
{
    crate::codecs::bzip::transform::lemma_lead(s, 1, 259);
}

/// A block that was written is read back.
proof fn lemma_block_read_back(body: Seq<u8>, p: int, block: Seq<u8>, capacity: int, room: int)
    requires
        block.len() > 0,
        block.len() <= room,
        rle1(block).len() <= capacity <= 1_000_000,
        holds(body, p, block_bits(block)),
    ensures
        field(body, p, 48) == Ok::<int, Fault>(BLOCK_MAGIC as int),
        block_at(body, p + 48, capacity, room) == Ok::<(int, Seq<u8>), Fault>(
            (p + block_bits(block).len(), block),
        ),
{
    reveal(block_at);
    reveal(block_bits);
    reveal(block_meaning);
    let code = rle1(block);
    lemma_code_not_empty(block);
    lemma_transform(code);
    let column = transformed(code);
    let m = low_bits(BLOCK_MAGIC as int, 48);
    let c = low_bits(crc(block) as int, 32);
    let z = low_bits(0, 1);
    let o = low_bits(pointer(code), 24);
    let content = content_bits(column);
    lemma2_to64();
    lemma2_to64_rest();
    lemma_low_bits_len(BLOCK_MAGIC as int, 48);
    lemma_low_bits_len(crc(block) as int, 32);
    lemma_low_bits_len(0, 1);
    lemma_low_bits_len(pointer(code), 24);
    lemma_holds_split(body, p, m, c + (z + (o + content)));
    lemma_holds_number(body, p, BLOCK_MAGIC as int, 48);
    lemma_holds_split(body, p + 48, c, z + (o + content));
    lemma_holds_number(body, p + 48, crc(block) as int, 32);
    lemma_holds_split(body, p + 80, z, o + content);
    lemma_holds_number(body, p + 80, 0, 1);
    lemma_holds_split(body, p + 81, o, content);
    lemma_holds_number(body, p + 81, pointer(code), 24);
    lemma_content_read_back(body, p + 105, column, capacity);
    lemma_rle1_round_trip(block, Seq::empty(), room);
    assert(Seq::<u8>::empty() + block =~= block);
}

/// The blocks of a stream are read back.
pub proof fn lemma_blocks_read_back(
    body: Seq<u8>,
    p: int,
    input: Seq<u8>,
    block_size: u8,
    out: Seq<u8>,
    expected: int,
    checksum: u32,
)
    requires
        block_size_ok(block_size),
        out.len() + input.len() <= expected,
        holds(body, p, blocks_bits(input, block_size, checksum)),
    ensures
        blocks_at(body, p, block_size as int * 100_000, out, expected, checksum) == Ok::<
            (int, Seq<u8>),
            Fault,
        >((p + blocks_bits(input, block_size, checksum).len(), out + input)),
    decreases input.len(),
{
    let limit = code_limit(block_size);
    let n = block_length(input, 0, limit);
    lemma_block_length(input, 0, limit);
    lemma2_to64();
    lemma2_to64_rest();
    if input.len() == 0 {
        let m = low_bits(STREAM_END_MAGIC as int, 48);
        let c = low_bits(checksum as int, 32);
        lemma_holds_split(body, p, m, c);
        lemma_holds_number(body, p, STREAM_END_MAGIC as int, 48);
        lemma_holds_number(body, p + 48, checksum as int, 32);
        assert(out + input =~= out);
    } else {
        let block = input.take(n);
        let rest = input.skip(n);
        let next = combined(checksum, crc(block));
        lemma_holds_split(body, p, block_bits(block), blocks_bits(rest, block_size, next));
        lemma_block_read_back(
            body,
            p,
            block,
            block_size as int * 100_000,
            expected - out.len(),
        );
        lemma_blocks_read_back(
            body,
            p + block_bits(block).len(),
            rest,
            block_size,
            out + block,
            expected,
            next,
        );
        assert(out + block + rest =~= out + input);
    }
}

/// A stream anywhere in the data is read back, and reading goes on behind it.
pub proof fn lemma_stream_read_back(
    before: Seq<u8>,
    input: Seq<u8>,
    block_size: u8,
    after: Seq<u8>,
    out: Seq<u8>,
    expected: int,
    workspace: int,
)
    requires
        block_size_ok(block_size),
        out.len() + input.len() <= expected,
        decode_workspace_size(block_size as int) <= workspace,
    ensures
        ({
            let stream = bzip_stream(input, block_size);
            let data = before + stream + after;
            streams_at(data, before.len() as int, out, expected, workspace) == streams_at(
                data,
                before.len() as int + stream.len(),
                out + input,
                expected,
                workspace,
            )
        }),
{
    let bits = blocks_bits(input, block_size, 0);
    let stream = bzip_stream(input, block_size);
    let data = before + stream + after;
    let body = pack(bits) + after;
    lemma_pack_holds(Seq::empty(), bits, after);
    assert(Seq::<u8>::empty() + pack(bits) + after =~= body);
    lemma_pack_len(bits);
    let tail = data.skip(before.len() as int);
    assert(tail.skip(4) =~= body);
    assert(tail[0] == 0x42 && tail[1] == 0x5a && tail[2] == 0x68 && tail[3] == (0x30
        + block_size) as u8);
    lemma_blocks_read_back(body, 0, input, block_size, out, expected, 0);
}

/// Decoding what was encoded gives back the input: BZip2 streams lose nothing.
pub proof fn lemma_bzip_round_trip(input: Seq<u8>, block_size: u8, workspace: usize)
    requires
        block_size_ok(block_size),
        input.len() <= usize::MAX,
        decode_workspace_size(block_size as int) <= workspace,
    ensures
        unbzip(bzip_stream(input, block_size), input.len() as usize, workspace) == Ok::<
            Seq<u8>,
            Fault,
        >(input),
{
    let data = bzip_stream(input, block_size);
    let none = Seq::<u8>::empty();
    lemma_stream_read_back(
        none,
        input,
        block_size,
        none,
        none,
        input.len() as int,
        workspace as int,
    );
    assert(none + data + none =~= data);
    assert(none + input =~= input);
}

/// Concatenated streams decode to the concatenated inputs, whatever their block sizes.
pub proof fn lemma_concatenated_streams(
    first: Seq<u8>,
    first_size: u8,
    second: Seq<u8>,
    second_size: u8,
    workspace: usize,
)
    requires
        block_size_ok(first_size),
        block_size_ok(second_size),
        first.len() + second.len() <= usize::MAX,
        decode_workspace_size(first_size as int) <= workspace,
        decode_workspace_size(second_size as int) <= workspace,
    ensures
        unbzip(
            bzip_stream(first, first_size) + bzip_stream(second, second_size),
            (first.len() + second.len()) as usize,
            workspace,
        ) == Ok::<Seq<u8>, Fault>(first + second),
{
    let a = bzip_stream(first, first_size);
    let b = bzip_stream(second, second_size);
    let none = Seq::<u8>::empty();
    let total = first.len() as int + second.len();
    lemma_stream_read_back(none, first, first_size, b, none, total, workspace as int);
    lemma_stream_read_back(
        a,
        second,
        second_size,
        none,
        none + first,
        total,
        workspace as int,
    );
    assert(none + a + b =~= a + b);
    assert(a + b + none =~= a + b);
    assert(none + first + second =~= first + second);
}

/// Writes a block.
fn encode_block(writer: &mut BitWriter, input: &[u8], block_crc: u32) -> (result: Result<(), Fault>)
    requires
        old(writer).wf(),
        input@.len() > 0,
        rle1(input@).len() <= 1_000_000,
        block_crc == crc(input@),
    ensures
        result is Ok,
        final(writer).wf(),
        final(writer).sent() == old(writer).sent() + block_bits(input@),
{
    proof {
        reveal(block_bits);
    }
    let ghost start = writer.sent();
    let code = encode_rle1(input);
    proof {
        lemma_code_not_empty(input@);
        lemma_transform(code@);
    }
    let (column, original_pointer) = bwt(code.as_slice());
    writer.write_bits(BLOCK_MAGIC, 48);
    writer.write_bits(block_crc as u64, 32);
    writer.write_bits(0, 1);
    writer.write_bits(original_pointer as u64, 24);
    let result = write_content(writer, &column);
    assert(writer.sent() =~= start + block_bits(input@));
    result
}

/// Encodes `input` with block size `1..=9` times 100 KB, reusing the storage of `output`.
pub fn encode_with_buffer(input: &[u8], block_size: u8, output: Vec<u8>) -> (result: Result<
    Vec<u8>,
    Fault,
>)
    ensures
        !block_size_ok(block_size) ==> result == Err::<Vec<u8>, Fault>(Fault::BlockSize),
        block_size_ok(block_size) ==> result is Ok && result->Ok_0@ == bzip_stream(
            input@,
            block_size,
        ),
{
    if block_size < 1 || block_size > 9 {
        return Err(Fault::BlockSize);
    }
    let mut writer = BitWriter::with_output(output);
    writer.write_bits(0x42, 8);
    writer.write_bits(0x5a, 8);
    writer.write_bits(0x68, 8);
    writer.write_bits(0x30 + block_size as u64, 8);
    let ghost header = writer.sent();
    proof {
        lemma_header(block_size);
        assert(header =~= header_bits(block_size));
    }
    let limit: usize = block_size as usize * 100_000 - BLOCK_OVERSHOOT_GUARD;
    let mut checksum: u32 = 0;
    let mut start: usize = 0;
    let ghost target = header + blocks_bits(input@, block_size, 0);
    assert(input@.skip(0) =~= input@);
    while start < input.len()
        invariant
            writer.wf(),
            start <= input@.len(),
            block_size_ok(block_size),
            limit == code_limit(block_size),
            target == writer.sent() + blocks_bits(
                input@.skip(start as int),
                block_size,
                checksum,
            ),
        decreases input.len() - start,
    {
        let end: usize = rle1_block_end(input, start, limit);
        let block = vstd::slice::slice_subrange(input, start, end);
        let block_crc: u32 = crc32(block);
        let ghost rest = input@.skip(start as int);
        let ghost before = checksum;
        proof {
            lemma_block_length(rest, 0, limit as int);
            assert(block@ =~= rest.take(end - start));
            assert(rest.skip(end - start) =~= input@.skip(end as int));
        }
        checksum = combine(checksum, block_crc);
        match encode_block(&mut writer, block, block_crc) {
            Ok(()) => {},
            Err(fault) => return Err(fault),
        }
        assert(target =~= writer.sent() + blocks_bits(
            input@.skip(end as int),
            block_size,
            checksum,
        ));
        start = end;
    }
    assert(input@.skip(start as int).len() == 0);
    writer.write_bits(STREAM_END_MAGIC, 48);
    writer.write_bits(checksum as u64, 32);
    assert(target =~= writer.sent());
    proof {
        lemma_header(block_size);
        lemma_pack_front(header_bits(block_size), blocks_bits(input@, block_size, 0));
    }
    Ok(writer.finish())
}

/// The bits that begin a stream.
spec fn header_bits(block_size: u8) -> Seq<bool> {
    low_bits(0x42, 8) + low_bits(0x5a, 8) + low_bits(0x68, 8) + low_bits(0x30 + block_size, 8)
}

proof fn lemma_pack_byte(value: int)
    requires
        0 <= value < 256,
    ensures
        low_bits(value, 8).len() == 8,
        pack(low_bits(value, 8)) == seq![value as u8],
{
    lemma2_to64();
    let bits = low_bits(value, 8);
    crate::codecs::bzip::bitstream::lemma_low_bits(value, 8);
    assert(crate::codecs::bzip::bitstream::value_of(bits) * 1 == value);
    assert(pack(bits) =~= seq![value as u8]);
}

proof fn lemma_header(block_size: u8)
    requires
        block_size_ok(block_size),
    ensures
        header_bits(block_size).len() == 32,
        pack(header_bits(block_size)) == header_bytes(block_size),
{
    let a = low_bits(0x42, 8);
    let b = low_bits(0x5a, 8);
    let c = low_bits(0x68, 8);
    let d = low_bits(0x30 + block_size, 8);
    lemma_pack_byte(0x42);
    lemma_pack_byte(0x5a);
    lemma_pack_byte(0x68);
    lemma_pack_byte(0x30 + block_size);
    lemma_pack_front(a, b);
    lemma_pack_front(a + b, c);
    lemma_pack_front(a + b + c, d);
    assert(pack(header_bits(block_size)) =~= header_bytes(block_size));
}

/// Reads a block behind its number.
fn decode_block(reader: &mut BitReader<'_>, capacity: usize, room: usize) -> (result: Result<
    Vec<u8>,
    Fault,
>)
    requires
        old(reader).wf(),
        capacity <= 900_000,
    ensures
        final(reader).wf(),
        final(reader).data() == old(reader).data(),
        match block_at(
            old(reader).data(),
            old(reader).at(),
            capacity as int,
            room as int,
        ) {
            Ok((q, block)) => result is Ok && result->Ok_0@ == block && final(reader).at() == q
                && block.len() <= room,
            Err(fault) => result == Err::<Vec<u8>, Fault>(fault),
        },
{
    proof {
        reveal(block_at);
        reveal(block_meaning);
    }
    let ghost data = reader.data();
    let ghost p = reader.at();
    proof {
        lemma_bits_at_bound(data, p, 32);
        lemma_bits_at_bound(data, p + 32, 1);
        lemma_bits_at_bound(data, p + 33, 24);
        lemma2_to64();
    }
    let declared: u32 = match reader.read_bits(32) {
        Some(bits) => bits as u32,
        None => return Err(Fault::TruncatedStream),
    };
    let randomized: bool = match reader.read_bits(1) {
        Some(bits) => bits != 0,
        None => return Err(Fault::TruncatedStream),
    };
    let original_pointer: usize = match reader.read_bits(24) {
        Some(bits) => bits as usize,
        None => return Err(Fault::TruncatedStream),
    };
    let column = match decode_block_symbols(reader, capacity) {
        Ok(column) => column,
        Err(fault) => return Err(fault),
    };
    if column.len() == 0 || original_pointer >= column.len() {
        return Err(Fault::OriginalPointer);
    }
    let mut code = match inverse_bwt(&column, original_pointer) {
        Some(code) => code,
        None => return Err(Fault::InvalidTransform),
    };
    if randomized {
        derandomize(&mut code);
    }
    let block = match decode_rle1(code.as_slice(), room) {
        Ok(block) => block,
        Err(fault) => return Err(fault),
    };
    if crc32(block.as_slice()) != declared {
        return Err(Fault::BlockChecksum);
    }
    Ok(block)
}

/// Reads the blocks of a stream; tells how many bytes they take.
fn decode_blocks(
    body: &[u8],
    capacity: usize,
    output: &mut Vec<u8>,
    expected_length: usize,
) -> (result: Result<usize, Fault>)
    requires
        capacity <= 900_000,
        old(output)@.len() <= expected_length,
    ensures
        match blocks_at(
            body@,
            0,
            capacity as int,
            old(output)@,
            expected_length as int,
            0,
        ) {
            Ok((q, longer)) => result == Ok::<usize, Fault>(((q + 7) / 8) as usize) && 0 < q <= 8
                * body@.len() && final(output)@ == longer && longer.len() <= expected_length,
            Err(fault) => result == Err::<usize, Fault>(fault),
        },
{
    let mut reader = BitReader::new(body);
    let mut checksum: u32 = 0;
    let ghost whole = blocks_at(
        body@,
        0,
        capacity as int,
        output@,
        expected_length as int,
        0,
    );
    proof {
        lemma_blocks_position(body@, 0, capacity as int, output@, expected_length as int, 0);
    }
    loop
        invariant
            reader.wf(),
            reader.data() == body@,
            capacity <= 900_000,
            output@.len() <= expected_length,
            whole == blocks_at(
                body@,
                0,
                capacity as int,
                old(output)@,
                expected_length as int,
                0,
            ),
            whole == blocks_at(
                body@,
                reader.at(),
                capacity as int,
                output@,
                expected_length as int,
                checksum,
            ),
            whole matches Ok((q, longer)) ==> 0 < q <= 8 * body@.len(),
        decreases 8 * body@.len() - reader.at(),
    {
        let ghost p = reader.at();
        proof {
            lemma_bits_at_bound(body@, p + 48, 32);
            lemma2_to64();
        }
        let marker: u64 = match reader.read_bits(48) {
            Some(bits) => bits,
            None => return Err(Fault::TruncatedStream),
        };
        if marker == STREAM_END_MAGIC {
            let declared: u32 = match reader.read_bits(32) {
                Some(bits) => bits as u32,
                None => return Err(Fault::TruncatedStream),
            };
            if declared != checksum {
                return Err(Fault::CombinedChecksum);
            }
            return Ok(reader.consumed_bytes());
        }
        if marker != BLOCK_MAGIC {
            return Err(Fault::BlockMarker);
        }
        let ghost before = output@;
        proof {
            lemma_block_position(
                body@,
                p + 48,
                capacity as int,
                expected_length - output@.len(),
            );
        }
        let mut block = match decode_block(&mut reader, capacity, expected_length - output.len()) {
            Ok(block) => block,
            Err(fault) => return Err(fault),
        };
        checksum = combine(checksum, crc32(block.as_slice()));
        output.append(&mut block);
        proof {
            reader.lemma_at_in_range();
        }
    }
}

/// Decodes one or more streams to exactly `expected_length` bytes, with at most
/// `max_workspace_size` bytes of working memory. The storage of `output` is reused.
pub fn decode_with_buffer(
    input: &[u8],
    expected_length: usize,
    output: Vec<u8>,
    max_workspace_size: usize,
) -> (result: Result<Vec<u8>, Fault>)
    ensures
        match unbzip(input@, expected_length, max_workspace_size) {
            Ok(out) => result is Ok && result->Ok_0@ == out,
            Err(fault) => result == Err::<Vec<u8>, Fault>(fault),
        },
{
    let size: usize = input.len();
    if size < 4 {
        return Err(Fault::StreamHeader);
    }
    let mut output = output;
    output.clear();
    assert(output@ =~= Seq::<u8>::empty());
    let ghost whole = streams_at(
        input@,
        0,
        Seq::empty(),
        expected_length as int,
        max_workspace_size as int,
    );
    let mut offset: usize = 0;
    while offset < size
        invariant
            size == input@.len(),
            size >= 4,
            offset <= size,
            output@.len() <= expected_length,
            whole == streams_at(
                input@,
                0,
                Seq::empty(),
                expected_length as int,
                max_workspace_size as int,
            ),
            whole == streams_at(
                input@,
                offset as int,
                output@,
                expected_length as int,
                max_workspace_size as int,
            ),
        decreases size - offset,
    {
        let ghost stream = input@.skip(offset as int);
        if size - offset < 4 || input[offset] != 0x42 || input[offset + 1] != 0x5a || input[offset
            + 2] != 0x68 || input[offset + 3] < 0x31 || input[offset + 3] > 0x39 {
            assert(!header_ok(stream));
            return Err(Fault::StreamHeader);
        }
        assert(stream[3] == input@[offset + 3]);
        let block_size: u8 = input[offset + 3] - 0x30;
        if decode_workspace(block_size) > max_workspace_size {
            return Err(Fault::WorkspaceLimit);
        }
        let body = vstd::slice::slice_subrange(input, offset + 4, size);
        assert(body@ =~= stream.skip(4));
        let consumed: usize = match decode_blocks(
            body,
            block_size as usize * 100_000,
            &mut output,
            expected_length,
        ) {
            Ok(consumed) => consumed,
            Err(fault) => return Err(fault),
        };
        offset = offset + 4 + consumed;
    }
    if output.len() != expected_length {
        return Err(Fault::LengthMismatch { expected: expected_length, actual: output.len() });
    }
    Ok(output)
}

} // verus!
