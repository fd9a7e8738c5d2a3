//! What holds of BZip2 streams, in the format's own numbers.

use vstd::prelude::*;

use crate::codecs::error::ErrorKind;
use crate::codecs::bzip::bitstream::{
    bit_at, bits_at, low_bits,
};
use crate::codecs::bzip::block::{
    coded_at, content_at, field, fresh_selectors, group_count, length_at, map_at, marked,
    selector_at, selector_count, selectors_at, symbols_at, trees_at, tree_at, used_at, lengths_at,
};
use crate::codecs::bzip::bwt::{
    lemma_links_exist, lemma_place_order, lemma_rotation_order, links_of, rotation_order,
    sorted_place, transformed, untransformed,
};
use crate::codecs::bzip::checksum::{combined, crc, crc_bit, crc_bits, crc_remainder};
use crate::codecs::bzip::codec::{decoded, decoder_refusal, encode_refusal, encoded};
use crate::codecs::bzip::engine::{
    block_at, block_meaning, blocks_at, blocks_bits, code_limit, header_bytes, header_ok,
    lemma_block_position, streams_at,
};
use crate::codecs::bzip::fault::Fault;
use crate::codecs::bzip::huffman::{balanced_lengths, bits_for, symbol_at, tree_fault};
use crate::codecs::bzip::mtf::{feed, fronted, run_digits, Front};
use crate::codecs::bzip::options::{DecoderOptions, EncoderOptions};
use crate::codecs::bzip::randtable::BZ2_RNUMS;
use crate::codecs::bzip::transform::{block_length, derandomized, lead, rle1, repeated, unrle1};
use crate::codecs::zlib::huffman::{code_count, codes_fit, first_code, symbols_of_length};

verus! {

/// `x` turned left by `k` places among 32: each turn doubles it and brings its top bit to the
/// bottom.
pub open spec fn turned(x: u32, k: nat) -> u32
    decreases k,
{
    if k == 0 {
        x
    } else {
        let y = turned(x, (k - 1) as nat) as int;
        (2 * y % 0x1_0000_0000 + y / 0x8000_0000) as u32
    }
}

/// The exclusive or of block checksums, the last as it is and each other one turned left by as
/// many places as blocks follow it.
pub open spec fn stream_checksum(checksums: Seq<u32>) -> u32
    decreases checksums.len(),
{
    if checksums.len() == 0 {
        0
    } else {
        turned(checksums[0], (checksums.len() - 1) as nat) ^ stream_checksum(
            checksums.drop_first(),
        )
    }
}

/// The checksums of blocks.
pub open spec fn block_checksums(blocks: Seq<Seq<u8>>) -> Seq<u32> {
    Seq::new(blocks.len(), |i: int| crc(blocks[i]))
}

/// Blocks one behind the other.
pub open spec fn joined(blocks: Seq<Seq<u8>>) -> Seq<u8>
    decreases blocks.len(),
{
    if blocks.len() == 0 {
        Seq::empty()
    } else {
        blocks[0] + joined(blocks.drop_first())
    }
}

/// Taking in a block turns the checksum so far left by one place, which as a number is twice
/// itself modulo `2^32` plus its top bit, and adds the block's checksum by exclusive or.
pub proof fn lemma_combined(stream: u32, block: u32)
    ensures
        combined(stream, block) ^ block == 2 * stream as int % 0x1_0000_0000 + stream as int
            / 0x8000_0000,
        combined(stream, block) == turned(stream, 1) ^ block,
{
    assert((((stream << 1u32) | (stream >> 31u32)) ^ block) ^ block == (stream << 1u32) | (stream
        >> 31u32)) by (bit_vector);
    assert((stream << 1u32) | (stream >> 31u32) == (2 * stream) % 0x1_0000_0000 + stream
        / 0x8000_0000) by (bit_vector);
    assert(turned(stream, 0) == stream);
    assert(turned(stream, 1) == (stream << 1u32) | (stream >> 31u32));
}

/// Turning spreads over exclusive or.
pub proof fn lemma_turned_xor(a: u32, b: u32, k: nat)
    ensures
        turned(a ^ b, k) == turned(a, k) ^ turned(b, k),
    decreases k,
{
    if k > 0 {
        let less = (k - 1) as nat;
        lemma_turned_xor(a, b, less);
        let x = turned(a, less);
        let y = turned(b, less);
        let z = x ^ y;
        lemma_combined(x, 0);
        lemma_combined(y, 0);
        lemma_combined(z, 0);
        assert(turned(a, k) == turned(x, 1)) by {
            assert(turned(x, 0) == x);
        }
        assert(turned(b, k) == turned(y, 1)) by {
            assert(turned(y, 0) == y);
        }
        assert(turned(a ^ b, k) == turned(z, 1)) by {
            assert(turned(z, 0) == z);
        }
        assert(z == x ^ y ==> (((z << 1u32) | (z >> 31u32)) ^ 0) == (((x << 1u32) | (x >> 31u32))
            ^ 0) ^ (((y << 1u32) | (y >> 31u32)) ^ 0)) by (bit_vector);
        assert(forall|v: u32| #[trigger] (v ^ 0) == v) by (bit_vector);
    }
}

/// Turns add up.
pub proof fn lemma_turned_twice(a: u32, k: nat)
    ensures
        turned(turned(a, 1), k) == turned(a, k + 1),
    decreases k,
{
    if k > 0 {
        lemma_turned_twice(a, (k - 1) as nat);
    }
}

/// The checksum behind one more block, with more blocks to come.
proof fn lemma_checksum_step(start: u32, checksums: Seq<u32>)
    requires
        checksums.len() > 0,
    ensures
        turned(combined(start, checksums[0]), (checksums.len() - 1) as nat) ^ stream_checksum(
            checksums.drop_first(),
        ) == turned(start, checksums.len()) ^ stream_checksum(checksums),
{
    let k = (checksums.len() - 1) as nat;
    lemma_combined(start, checksums[0]);
    lemma_turned_xor(turned(start, 1), checksums[0], k);
    lemma_turned_twice(start, k);
    let a = turned(start, checksums.len());
    let b = turned(checksums[0], k);
    let c = stream_checksum(checksums.drop_first());
    assert((a ^ b) ^ c == a ^ (b ^ c)) by (bit_vector);
}

/// The blocks of a decoded stream: their bytes are the output, and the 32 bits that end the
/// stream hold the exclusive or of their checksums, each turned left by as many places as blocks
/// follow it.
pub proof fn lemma_trailer_read(
    body: Seq<u8>,
    p: int,
    capacity: int,
    out: Seq<u8>,
    expected: int,
    checksum: u32,
) -> (blocks: Seq<Seq<u8>>)
    ensures
        blocks_at(body, p, capacity, out, expected, checksum) matches Ok((q, longer)) ==> {
            &&& longer == out + joined(blocks)
            &&& q <= 8 * body.len()
            &&& bits_at(body, q - 80, 48) == 0x1772_4538_5090
            &&& bits_at(body, q - 32, 32) == turned(checksum, blocks.len()) ^ stream_checksum(
                block_checksums(blocks),
            )
        },
    decreases 8 * body.len() - p,
{
    let all = blocks_at(body, p, capacity, out, expected, checksum);
    let end = Seq::<Seq<u8>>::empty();
    assert(joined(end) == Seq::<u8>::empty());
    assert(out + Seq::<u8>::empty() =~= out);
    assert(block_checksums(end) =~= Seq::<u32>::empty());
    assert(turned(checksum, 0) ^ stream_checksum(block_checksums(end)) == checksum) by {
        assert(checksum ^ 0 == checksum) by (bit_vector);
    }
    match field(body, p, 48) {
        Err(fault) => end,
        Ok(marker) => if marker == 0x1772_4538_5090 {
            end
        } else {
            match block_at(body, p + 48, capacity, expected - out.len()) {
                Err(fault) => end,
                Ok((q, block)) => {
                    lemma_block_position(body, p + 48, capacity, expected - out.len());
                    let rest = lemma_trailer_read(
                        body,
                        q,
                        capacity,
                        out + block,
                        expected,
                        combined(checksum, crc(block)),
                    );
                    let blocks = seq![block] + rest;
                    assert(blocks.drop_first() =~= rest);
                    let checksums = block_checksums(blocks);
                    assert(checksums.drop_first() =~= block_checksums(rest));
                    lemma_checksum_step(checksum, checksums);
                    assert(out + (block + joined(rest)) =~= (out + block) + joined(rest));
                    blocks
                },
            }
        },
    }
}

/// The blocks of a written stream: together they are the input, and the stream ends in the
/// exclusive or of their checksums, each turned left by as many places as blocks follow it.
pub proof fn lemma_trailer_written(input: Seq<u8>, block_size: u8, checksum: u32) -> (blocks: Seq<
    Seq<u8>,
>)
    requires
        1 <= block_size <= 9,
    ensures
        joined(blocks) == input,
        ({
            let bits = blocks_bits(input, block_size, checksum);
            let end = low_bits(0x1772_4538_5090, 48) + low_bits(
                (turned(checksum, blocks.len()) ^ stream_checksum(block_checksums(blocks))) as int,
                32,
            );
            &&& end.len() == 80
            &&& bits.len() >= 80
            &&& bits.skip(bits.len() - 80) == end
        }),
    decreases input.len(),
{
    let limit = code_limit(block_size);
    let n = block_length(input, 0, limit);
    crate::codecs::bzip::transform::lemma_block_length(input, 0, limit);
    let bits = blocks_bits(input, block_size, checksum);
    crate::codecs::bzip::bitstream::lemma_low_bits_len(0x1772_4538_5090, 48);
    if input.len() == 0 || n <= 0 {
        let end = Seq::<Seq<u8>>::empty();
        assert(block_checksums(end) =~= Seq::<u32>::empty());
        assert(checksum ^ 0 == checksum) by (bit_vector);
        assert(turned(checksum, 0) ^ stream_checksum(block_checksums(end)) == checksum);
        crate::codecs::bzip::bitstream::lemma_low_bits_len(checksum as int, 32);
        assert(bits.skip(0) =~= bits);
        end
    } else {
        let block = input.take(n);
        let next = combined(checksum, crc(block));
        let rest = lemma_trailer_written(input.skip(n), block_size, next);
        let blocks = seq![block] + rest;
        assert(blocks.drop_first() =~= rest);
        let checksums = block_checksums(blocks);
        assert(checksums.drop_first() =~= block_checksums(rest));
        lemma_checksum_step(checksum, checksums);
        assert(block + input.skip(n) =~= input);
        let more = blocks_bits(input.skip(n), block_size, next);
        assert(bits.skip(bits.len() - 80) =~= more.skip(more.len() - 80));
        blocks
    }
}

/// A block's checksum divides by the polynomial `0x04c1_1db7`: a bit shifted in doubles the
/// remainder, and the polynomial is taken off where a bit leaves at the top; steps spread over
/// exclusive or. The remainder begins with all ones and is complemented at the end; a byte enters
/// at the top.
pub proof fn lemma_crc(data: Seq<u8>, byte: u8, x: u32, y: u32)
    ensures
        crc(Seq::empty()) == 0,
        !crc(data.push(byte)) == crc_bits(!crc(data) ^ ((0x100_0000 * byte) as u32), 8),
        crc_bit(0x8000_0000) == 0x04c1_1db7,
        x < 0x8000_0000 ==> crc_bit(x) == 2 * x,
        crc_bit(x ^ y) == crc_bit(x) ^ crc_bit(y),
        crc_bits(x, 8) == crc_bit(crc_bit(crc_bit(crc_bit(crc_bit(crc_bit(crc_bit(crc_bit(x)))))))),
{
    assert(data.push(byte).drop_last() =~= data);
    assert(!0xffff_ffffu32 == 0) by (bit_vector);
    let r = crc_remainder(data);
    let s = crc_remainder(data.push(byte));
    assert(!(!r) == r) by (bit_vector);
    assert(!(!s) == s) by (bit_vector);
    assert((byte as u32) << 24u32 == 0x100_0000 * byte) by (bit_vector);
    assert((0x8000_0000u32 << 1u32) ^ 0x04c1_1db7u32 == 0x04c1_1db7u32) by (bit_vector);
    assert(x < 0x8000_0000 ==> x << 1u32 == 2 * x) by (bit_vector);
    assert(crc_bit(x ^ y) == crc_bit(x) ^ crc_bit(y)) by (bit_vector);
    reveal_with_fuel(crc_bits, 9);
}

/// Eight bits at the start of a byte are that byte.
proof fn lemma_whole_byte(data: Seq<u8>, k: int)
    requires
        0 <= k < data.len(),
    ensures
        bits_at(data, 8 * k, 1) == data[k] / 128,
        bits_at(data, 8 * k, 8) == data[k],
{
    vstd::arithmetic::power2::lemma2_to64();
    let d = data[k] as int;
    assert(bits_at(data, 8 * k, 0) == d / 256);
    lemma_next_bit(data, k, 0);
    lemma_next_bit(data, k, 1);
    lemma_next_bit(data, k, 2);
    lemma_next_bit(data, k, 3);
    lemma_next_bit(data, k, 4);
    lemma_next_bit(data, k, 5);
    lemma_next_bit(data, k, 6);
    lemma_next_bit(data, k, 7);
    assert(d / (vstd::arithmetic::power2::pow2(0) as int) == d);
}

proof fn lemma_next_bit(data: Seq<u8>, k: int, n: nat)
    requires
        0 <= k < data.len(),
        n < 8,
        bits_at(data, 8 * k, n) == data[k] as int / (vstd::arithmetic::power2::pow2(
            (8 - n) as nat,
        ) as int),
    ensures
        bits_at(data, 8 * k, n + 1) == data[k] as int / (vstd::arithmetic::power2::pow2(
            (7 - n) as nat,
        ) as int),
{
    vstd::arithmetic::power2::lemma2_to64();
    let d = data[k] as int;
    let half = vstd::arithmetic::power2::pow2((7 - n) as nat) as int;
    let whole = vstd::arithmetic::power2::pow2((8 - n) as nat) as int;
    assert((8 * k + n) / 8 == k && (8 * k + n) % 8 == n);
    assert(bit_at(data, 8 * k + n) == (d / half % 2 == 1));
    vstd::arithmetic::power2::lemma_pow2_unfold((8 - n) as nat);
    assert(whole == half * 2);
    vstd::arithmetic::div_mod::lemma_div_denominator(d, half, 2);
    assert(bits_at(data, 8 * k, n + 1) == 2 * bits_at(data, 8 * k, n)
        + crate::codecs::bzip::bitstream::digit(bit_at(data, 8 * k + n)));
}

/// Numbers are written most significant bit first, in bytes filled from the top.
pub proof fn lemma_numbers(data: Seq<u8>, k: int)
    requires
        0 <= k,
        k + 4 <= data.len(),
    ensures
        bits_at(data, 8 * k, 1) == data[k] / 128,
        bits_at(data, 8 * k, 8) == data[k],
        bits_at(data, 8 * k, 16) == 0x100 * data[k] + data[k + 1],
        bits_at(data, 8 * k, 24) == 0x1_0000 * data[k] + 0x100 * data[k + 1] + data[k + 2],
        bits_at(data, 8 * k, 32) == 0x100_0000 * data[k] + 0x1_0000 * data[k + 1] + 0x100 * data[k
            + 2] + data[k + 3],
{
    lemma_whole_byte(data, k);
    lemma_whole_byte(data, k + 1);
    lemma_whole_byte(data, k + 2);
    lemma_whole_byte(data, k + 3);
    lemma_eight_more(data, 8 * k, 8);
    lemma_eight_more(data, 8 * k, 16);
    lemma_eight_more(data, 8 * k, 24);
}

/// Eight more bits of a number.
proof fn lemma_eight_more(data: Seq<u8>, p: int, n: nat)
    ensures
        bits_at(data, p, n + 8) == 256 * bits_at(data, p, n) + bits_at(data, p + n, 8),
{
    reveal_with_fuel(bits_at, 9);
}

/// A stream begins with `BZh` and a digit from one to nine, and its blocks follow at once; the
/// digit counts hundreds of thousands of bytes, to which a decoder holds the blocks. The encoder
/// stays nineteen bytes below.
pub proof fn lemma_stream_header(stream: Seq<u8>, block_size: u8)
    requires
        1 <= block_size <= 9,
    ensures
        header_ok(stream) <==> stream.len() >= 4 && stream[0] == 'B' as u8 && stream[1]
            == 'Z' as u8 && stream[2] == 'h' as u8 && '1' as u8 <= stream[3] <= '9' as u8,
        header_bytes(block_size) == seq!['B' as u8, 'Z' as u8, 'h' as u8, (48 + block_size) as u8],
        code_limit(block_size) == 100_000 * block_size - 19,
        header_ok(stream) && crate::codecs::bzip::options::decode_workspace_size(stream[3] - 48)
            <= usize::MAX ==> (blocks_at(
            stream.skip(4),
            0,
            100_000 * (stream[3] - 48),
            Seq::empty(),
            usize::MAX as int,
            0,
        ) matches Err(fault) ==> streams_at(
            stream,
            0,
            Seq::empty(),
            usize::MAX as int,
            usize::MAX as int,
        ) == Err::<Seq<u8>, Fault>(fault)),
{
    assert(stream.skip(0) =~= stream);
}

/// Blocks begin with the digits of pi and the stream ends with those of its square root, 48 bits
/// each; nothing else may stand there. A stream ends with 32 more bits.
pub proof fn lemma_markers(
    body: Seq<u8>,
    p: int,
    capacity: int,
    out: Seq<u8>,
    expected: int,
    checksum: u32,
)
    requires
        p + 80 <= 8 * body.len(),
    ensures
        bits_at(body, p, 48) != 0x3141_5926_5359 && bits_at(body, p, 48) != 0x1772_4538_5090
            ==> blocks_at(body, p, capacity, out, expected, checksum) == Err::<
            (int, Seq<u8>),
            Fault,
        >(Fault::BlockMarker),
        bits_at(body, p, 48) == 0x1772_4538_5090 ==> blocks_at(
            body,
            p,
            capacity,
            out,
            expected,
            checksum,
        ) == (if bits_at(body, p + 48, 32) == checksum {
            Ok::<(int, Seq<u8>), Fault>((p + 80, out))
        } else {
            Err(Fault::CombinedChecksum)
        }),
        bits_at(body, p, 48) == 0x3141_5926_5359 ==> (block_at(
            body,
            p + 48,
            capacity,
            expected - out.len(),
        ) matches Err(fault) ==> blocks_at(body, p, capacity, out, expected, checksum) == Err::<
            (int, Seq<u8>),
            Fault,
        >(fault)),
{
}

/// A block: 32 bits of checksum, one bit that tells whether it is randomized, 24 bits of pointer,
/// and from the 57th bit on its content.
pub proof fn lemma_block_fields(body: Seq<u8>, p: int, capacity: int, room: int)
    ensures
        block_at(body, p, capacity, room) matches Ok((q, block)) ==> {
            &&& bits_at(body, p, 32) == crc(block)
            &&& content_at(body, p + 57, capacity) matches Ok((r, column)) && r == q && bits_at(
                body,
                p + 33,
                24,
            ) < column.len() && unrle1(
                if bits_at(body, p + 32, 1) == 0 {
                    untransformed(column, bits_at(body, p + 33, 24))
                } else {
                    derandomized(untransformed(column, bits_at(body, p + 33, 24)), 0, 0)
                },
                Seq::empty(),
                room,
            ) == Ok::<Seq<u8>, Fault>(block)
        },
{
    reveal(block_at);
    reveal(block_meaning);
}

/// A randomized block: each entry of the table spans as many bytes, and the last but one of
/// them has its lowest bit flipped; after the last entry the first one follows.
pub proof fn lemma_derandomized(bytes: Seq<u8>, index: int)
    requires
        0 <= index < 512,
        1 <= BZ2_RNUMS[index] <= bytes.len(),
    ensures
        derandomized(bytes, 0, index) == Seq::new(
            BZ2_RNUMS[index] as nat,
            |i: int|
                if i + 2 == BZ2_RNUMS[index] {
                    bytes[i] ^ 1
                } else {
                    bytes[i]
                },
        ) + derandomized(
            bytes.skip(BZ2_RNUMS[index] as int),
            0,
            if index == 511 {
                0
            } else {
                index + 1
            },
        ),
{
    let span = BZ2_RNUMS[index];
    lemma_span(bytes, span, (index + 1) % 512);
    let left = (span - 1) as u16;
    if left == 0 {
        assert(bytes.drop_first() =~= bytes.skip(1));
        assert(derandomized(bytes, 0, index) =~= derandomized(bytes, span, (index + 1) % 512));
    } else {
        assert(derandomized(bytes, 0, index) =~= derandomized(bytes, span, (index + 1) % 512));
    }
}

proof fn lemma_span(bytes: Seq<u8>, span: u16, index: int)
    requires
        1 <= span <= bytes.len(),
    ensures
        derandomized(bytes, span, index) == Seq::new(
            span as nat,
            |i: int|
                if i + 2 == span {
                    bytes[i] ^ 1
                } else {
                    bytes[i]
                },
        ) + derandomized(bytes.skip(span as int), 0, index),
    decreases span,
{
    let rest = bytes.drop_first();
    if span == 1 {
        assert(rest =~= bytes.skip(1));
    } else {
        lemma_span(rest, (span - 1) as u16, index);
        assert(rest.skip(span - 1) =~= bytes.skip(span as int));
    }
}

/// How many of the `n` bits from `p` on are set.
pub open spec fn set_bits(data: Seq<u8>, p: int, n: nat) -> nat
    decreases n,
{
    if n == 0 {
        0
    } else {
        set_bits(data, p, (n - 1) as nat) + (if bit_at(data, p + n - 1) {
            1nat
        } else {
            0
        })
    }
}

/// The symbol map at `p` marks byte `b`: the bit of its group is set among the first sixteen, and
/// its own bit in the sixteen of that group, which follow in order for the groups in use.
pub open spec fn map_marks(data: Seq<u8>, p: int, b: int) -> bool {
    bit_at(data, p + b / 16) && bit_at(
        data,
        p + 16 + 16 * set_bits(data, p, (b / 16) as nat) + b % 16,
    )
}

/// A list holds just the marked bytes below `n`, in ascending order.
pub open spec fn lists_marked(data: Seq<u8>, p: int, used: Seq<u8>, n: int) -> bool {
    &&& forall|b: u8|
        #[trigger] used.contains(b) <==> (b < n && map_marks(data, p, b as int))
    &&& forall|i: int, j: int| 0 <= i < j < used.len() ==> #[trigger] used[i] < #[trigger] used[j]
}

proof fn lemma_marked_listed(data: Seq<u8>, p: int, group: int, low: int, used: Seq<u8>)
    requires
        0 <= group < 16,
        0 <= low <= 16,
        bit_at(data, p + group),
        lists_marked(data, p, used, 16 * group + low),
    ensures
        lists_marked(
            data,
            p,
            marked(data, p + 16 + 16 * set_bits(data, p, group as nat), group, low, used),
            16 * group + 16,
        ),
    decreases 16 - low,
{
    if low < 16 {
        let q = p + 16 + 16 * set_bits(data, p, group as nat);
        let b = (group * 16 + low) as u8;
        assert(b as int / 16 == group && b as int % 16 == low);
        let more = if bit_at(data, q + low) {
            used.push(b)
        } else {
            used
        };
        assert(lists_marked(data, p, more, 16 * group + low + 1)) by {
            assert forall|c: u8|
                #[trigger] more.contains(c) <==> (c < 16 * group + low + 1 && map_marks(
                    data,
                    p,
                    c as int,
                )) by {
                assert(more.contains(c) ==> used.contains(c) || (c == b && bit_at(
                    data,
                    q + low,
                )));
                if used.contains(c) {
                    let i = choose|i: int| 0 <= i < used.len() && used[i] == c;
                    assert(more[i] == c);
                }
                if c == b && bit_at(data, q + low) {
                    assert(more[used.len() as int] == b);
                }
            }
            assert forall|i: int, j: int| 0 <= i < j < more.len() implies #[trigger] more[i]
                < #[trigger] more[j] by {
                assert(used.contains(used[i]));
            }
        }
        lemma_marked_listed(data, p, group, low + 1, more);
    }
}

proof fn lemma_map_listed(data: Seq<u8>, p: int, group: int, used: Seq<u8>)
    requires
        0 <= group <= 16,
        lists_marked(data, p, used, 16 * group),
    ensures
        map_at(data, p, p + 16 + 16 * set_bits(data, p, group as nat), group, used) matches Ok(
            (q, all),
        ) ==> q == p + 16 + 16 * set_bits(data, p, 16) && lists_marked(data, p, all, 256),
    decreases 16 - group,
{
    if group < 16 {
        let q = p + 16 + 16 * set_bits(data, p, group as nat);
        assert(set_bits(data, p, (group + 1) as nat) == set_bits(data, p, group as nat) + (
        if bit_at(data, p + group) {
            1nat
        } else {
            0
        }));
        if !bit_at(data, p + group) {
            assert(lists_marked(data, p, used, 16 * (group + 1))) by {
                assert forall|b: u8|
                    #[trigger] used.contains(b) <==> (b < 16 * (group + 1) && map_marks(
                        data,
                        p,
                        b as int,
                    )) by {
                    if 16 * group <= b < 16 * (group + 1) {
                        assert(b as int / 16 == group);
                    }
                }
            }
            lemma_map_listed(data, p, group + 1, used);
        } else if q + 16 <= 8 * data.len() {
            lemma_marked_listed(data, p, group, 0, used);
            lemma_map_listed(data, p, group + 1, marked(data, q, group, 0, used));
        }
    }
}

/// The symbol map lists the marked bytes in ascending order and takes sixteen bits and sixteen
/// more for each group in use.
pub proof fn lemma_symbol_map(data: Seq<u8>, p: int)
    ensures
        used_at(data, p) matches Ok((q, used)) ==> q == p + 16 + 16 * set_bits(data, p, 16)
            && lists_marked(data, p, used, 256),
{
    assert(lists_marked(data, p, Seq::empty(), 0));
    lemma_map_listed(data, p, 0, Seq::empty());
}

/// What follows the symbol map: three bits for two to six trees, fifteen bits for the number of
/// selectors, at least one, then the selectors, and as many trees, each over the used bytes and
/// two symbols more.
pub proof fn lemma_coded_fields(data: Seq<u8>, p: int, used: Seq<u8>, limit: int)
    ensures
        fresh_selectors(bits_at(data, p, 3)).len() == bits_at(data, p, 3),
        forall|i: int|
            0 <= i < bits_at(data, p, 3) ==> #[trigger] fresh_selectors(bits_at(data, p, 3))[i]
                == i,
        coded_at(data, p, used, limit) matches Ok((end, column)) ==> {
            &&& 2 <= bits_at(data, p, 3) <= 6
            &&& 1 <= bits_at(data, p + 3, 15)
            &&& selectors_at(
                data,
                p + 18,
                bits_at(data, p + 3, 15) as nat,
                fresh_selectors(bits_at(data, p, 3)),
                Seq::empty(),
            ) matches Ok((q, selectors)) && (trees_at(
                data,
                q,
                bits_at(data, p, 3) as nat,
                used.len() + 2,
                Seq::empty(),
            ) matches Ok((r, trees)) && symbols_at(
                data,
                r,
                trees,
                selectors,
                0,
                Front { list: used, out: Seq::empty(), run: 0, weight: 1 },
                limit,
            ) == Ok::<(int, Seq<u8>), Fault>((end, column)))
        },
        p + 3 <= 8 * data.len() && (bits_at(data, p, 3) < 2 || bits_at(data, p, 3) > 6)
            ==> coded_at(data, p, used, limit) == Err::<(int, Seq<u8>), Fault>(Fault::GroupCount),
        p + 18 <= 8 * data.len() && 2 <= bits_at(data, p, 3) <= 6 && bits_at(data, p + 3, 15) == 0
            ==> coded_at(data, p, used, limit) == Err::<(int, Seq<u8>), Fault>(Fault::NoSelectors),
{
    reveal(coded_at);
    vstd::arithmetic::power2::lemma2_to64();
    crate::codecs::bzip::bitstream::lemma_bits_at_bound(data, p, 3);
    crate::codecs::bzip::bitstream::lemma_bits_at_bound(data, p + 3, 15);
}

/// A selector is a place in the list of trees, written as so many ones and a zero; the tree found
/// there moves to the front and those before it move back by one.
pub proof fn lemma_selectors(
    data: Seq<u8>,
    p: int,
    i: int,
    count: nat,
    list: Seq<usize>,
    found: Seq<usize>,
)
    requires
        0 <= i < list.len(),
        0 < count,
        p + i < 8 * data.len(),
        forall|k: int| 0 <= k < i ==> #[trigger] bit_at(data, p + k),
        !bit_at(data, p + i),
    ensures
        selectors_at(data, p, count, list, found) == selectors_at(
            data,
            p + i + 1,
            (count - 1) as nat,
            seq![list[i]] + list.take(i) + list.skip(i + 1),
            found.push(list[i]),
        ),
{
    lemma_selector(data, p, 0, i, list.len() as int);
    assert(fronted(list, i) =~= seq![list[i]] + list.take(i) + list.skip(i + 1));
}

proof fn lemma_selector(data: Seq<u8>, p: int, done: int, i: int, groups: int)
    requires
        0 <= done <= i < groups,
        p + i < 8 * data.len(),
        forall|k: int| 0 <= k < i ==> #[trigger] bit_at(data, p + k),
        !bit_at(data, p + i),
    ensures
        selector_at(data, p + done, done, groups) == Ok::<(int, int), Fault>((i, p + i + 1)),
    decreases i - done,
{
    if done < i {
        assert(bit_at(data, p + done));
        lemma_selector(data, p, done + 1, i, groups);
    }
}

/// A code length follows from the one before: a zero takes it as it is, one and zero go up by
/// one, two ones go down by one, and it stays within one to twenty. A tree begins with five bits.
pub proof fn lemma_code_length_steps(data: Seq<u8>, p: int, current: int, alphabet: nat)
    requires
        0 <= p,
        p + 5 <= 8 * data.len(),
    ensures
        !bit_at(data, p) ==> length_at(data, p, current) == Ok::<(int, int), Fault>(
            (current, p + 1),
        ),
        bit_at(data, p) && !bit_at(data, p + 1) ==> length_at(data, p, current) == (if 0 <= current
            < 20 {
            length_at(data, p + 2, current + 1)
        } else {
            Err(Fault::CodeLength)
        }),
        bit_at(data, p) && bit_at(data, p + 1) ==> length_at(data, p, current) == (if 2 <= current
            <= 21 {
            length_at(data, p + 2, current - 1)
        } else {
            Err(Fault::CodeLength)
        }),
        tree_at(data, p, alphabet) matches Ok((q, lengths)) ==> lengths_at(
            data,
            p + 5,
            alphabet,
            bits_at(data, p, 5),
            Seq::empty(),
        ) == Ok::<(int, Seq<u8>), Fault>((q, lengths)),
{
}

/// Symbols `50 * k` to `50 * k + 49` are read with the tree of selector `k`.
pub proof fn lemma_selector_reach(
    data: Seq<u8>,
    p: int,
    trees: Seq<Seq<u8>>,
    selectors: Seq<usize>,
    k: int,
    i: int,
    f: Front,
    limit: int,
)
    requires
        0 <= k,
        0 <= i < 50,
    ensures
        k >= selectors.len() ==> symbols_at(data, p, trees, selectors, 50 * k + i, f, limit)
            == Err::<(int, Seq<u8>), Fault>(Fault::SelectorsExhausted),
        k < selectors.len() ==> (symbol_at(trees[selectors[k] as int], data, p) matches Ok(
            (symbol, q),
        ) ==> (feed(f, symbol, limit) matches Ok((g, ended)) ==> symbols_at(
            data,
            p,
            trees,
            selectors,
            50 * k + i,
            f,
            limit,
        ) == (if ended {
            Ok::<(int, Seq<u8>), Fault>((q, g.out))
        } else {
            symbols_at(data, q, trees, selectors, 50 * k + i + 1, g, limit)
        }))),
{
    assert((50 * k + i) / 50 == k);
}

/// The encoder takes two trees below 200 symbols, three below 600, four below 1200, five below
/// 2400 and six from there on, and just as many selectors as cover the symbols by fifties.
pub proof fn lemma_group_count(symbols: int)
    requires
        0 < symbols,
    ensures
        2 <= group_count(symbols) <= 6,
        group_count(symbols) == 2 <==> symbols < 200,
        group_count(symbols) == 3 <==> 200 <= symbols < 600,
        group_count(symbols) == 4 <==> 600 <= symbols < 1200,
        group_count(symbols) == 5 <==> 1200 <= symbols < 2400,
        group_count(symbols) == 6 <==> 2400 <= symbols,
        50 * (selector_count(symbols) - 1) < symbols <= 50 * selector_count(symbols),
{
}

/// Symbols zero and one add their weight, once or twice, to a run of the byte in front, and the
/// weight doubles; symbol `v` brings out the byte at place `v - 1`, which moves to the front while
/// those before it move back by one; the symbol behind the last of them ends the block.
pub proof fn lemma_symbols(f: Front, v: int, limit: int)
    requires
        0 <= v,
        1 <= f.weight <= 0x1000_0000,
        f.run == 0 ==> f.weight == 1,
        0 <= f.run <= 0x1000_0000,
        f.out.len() + f.run < limit,
        f.list.len() > 0,
    ensures
        v == 0 ==> feed(f, v, limit) == Ok::<(Front, bool), Fault>(
            (Front { run: f.run + f.weight, weight: 2 * f.weight, ..f }, false),
        ),
        v == 1 ==> feed(f, v, limit) == Ok::<(Front, bool), Fault>(
            (Front { run: f.run + 2 * f.weight, weight: 2 * f.weight, ..f }, false),
        ),
        2 <= v <= f.list.len() ==> (feed(f, v, limit) matches Ok((g, ended)) && !ended && g.run == 0
            && g.weight == 1 && g.out == f.out + Seq::new(f.run as nat, |i: int| f.list[0]) + seq![
            f.list[v - 1],
        ] && g.list == seq![f.list[v - 1]] + f.list.take(v - 1) + f.list.skip(v)),
        v == f.list.len() + 1 ==> (feed(f, v, limit) matches Ok((g, ended)) && ended && g.out
            == f.out + Seq::new(f.run as nat, |i: int| f.list[0])),
        v > f.list.len() + 1 ==> feed(f, v, limit) == Err::<(Front, bool), Fault>(
            Fault::InvalidSymbol,
        ),
{
    assert(repeated(f.list[0], f.run as nat) =~= Seq::new(f.run as nat, |i: int| f.list[0]));
    let run = Seq::new(f.run as nat, |i: int| f.list[0]);
    if f.run == 0 {
        assert(f.out + run =~= f.out);
    }
    if v == 0 {
        assert((v + 1) * f.weight == f.weight) by (nonlinear_arith)
            requires
                v == 0,
        ;
    }
    if v == 1 {
        assert((v + 1) * f.weight == 2 * f.weight) by (nonlinear_arith)
            requires
                v == 1,
        ;
    }
    if 2 <= v <= f.list.len() {
        assert(fronted(f.list, v - 1) =~= seq![f.list[v - 1]] + f.list.take(v - 1) + f.list.skip(
            v,
        ));
        assert(f.out + run + seq![f.list[v - 1]] =~= (f.out + run).push(f.list[v - 1]));
    }
}

/// What digits of one and two in base two stand for, least significant first; symbol zero is the
/// digit one, symbol one the digit two.
pub open spec fn digits_value(digits: Seq<int>) -> int
    decreases digits.len(),
{
    if digits.len() == 0 {
        0
    } else {
        digits[0] + 1 + 2 * digits_value(digits.drop_first())
    }
}

/// The digits of a run stand for its length.
pub proof fn lemma_run_digits(run: int)
    requires
        0 <= run,
    ensures
        digits_value(run_digits(run)) == run,
        forall|i: int|
            0 <= i < run_digits(run).len() ==> #[trigger] run_digits(run)[i] == 0
                || run_digits(run)[i] == 1,
    decreases run,
{
    if run > 0 {
        lemma_run_digits((run - 1) / 2);
        assert(run_digits(run).drop_first() =~= run_digits((run - 1) / 2));
    }
}

/// In the first run-length step four equal bytes are followed by a count of more of them; fewer
/// stand for themselves.
pub proof fn lemma_runs_read(byte: u8, count: u8, run: nat, rest: Seq<u8>, out: Seq<u8>, limit: int)
    requires
        1 <= run < 4,
        rest.len() > 0 ==> rest[0] != byte,
        out.len() + 259 <= limit,
    ensures
        unrle1(seq![byte, byte, byte, byte, count] + rest, out, limit) == unrle1(
            rest,
            out + Seq::new((4 + count) as nat, |i: int| byte),
            limit,
        ),
        unrle1(Seq::new(run, |i: int| byte) + rest, out, limit) == unrle1(
            rest,
            out + Seq::new(run, |i: int| byte),
            limit,
        ),
        unrle1(seq![byte, byte, byte, byte], out, limit) == Err::<Seq<u8>, Fault>(
            Fault::TruncatedRun,
        ),
{
    reveal_with_fuel(lead, 5);
    let five = seq![byte, byte, byte, byte, count] + rest;
    assert(lead(five, 1, 4) == 4);
    assert(five.skip(5) =~= rest);
    assert(repeated(byte, (4 + count) as nat) =~= Seq::new((4 + count) as nat, |i: int| byte));
    let few = Seq::new(run, |i: int| byte) + rest;
    assert(lead(few, 1, 4) == run);
    assert(few.skip(run as int) =~= rest);
    assert(repeated(byte, run) =~= Seq::new(run, |i: int| byte));
    let four = seq![byte, byte, byte, byte];
    assert(lead(four, 1, 4) == 4);
}

proof fn lemma_run_found(s: Seq<u8>, n: int, run: int, max: int)
    requires
        1 <= n <= run <= max,
        run <= s.len(),
        forall|i: int| 0 <= i < run ==> #[trigger] s[i] == s[0],
        run == max || run == s.len() || s[run] != s[0],
    ensures
        lead(s, n, max) == run,
    decreases run - n,
{
    if n < run {
        assert(s[n] == s[0]);
        lemma_run_found(s, n + 1, run, max);
    }
}

/// The first run-length step writes four to 259 equal bytes as four of them and the number of
/// the others, and fewer as they are.
pub proof fn lemma_runs_written(byte: u8, run: nat, rest: Seq<u8>)
    requires
        1 <= run <= 259,
        run == 259 || rest.len() == 0 || rest[0] != byte,
    ensures
        run < 4 ==> rle1(Seq::new(run, |i: int| byte) + rest) == Seq::new(run, |i: int| byte)
            + rle1(rest),
        run >= 4 ==> rle1(Seq::new(run, |i: int| byte) + rest) == seq![
            byte,
            byte,
            byte,
            byte,
            (run - 4) as u8,
        ] + rle1(rest),
{
    let s = Seq::new(run, |i: int| byte) + rest;
    lemma_run_found(s, 1, run as int, 259);
    assert(s.skip(run as int) =~= rest);
    assert(repeated(byte, run) =~= Seq::new(run, |i: int| byte));
    assert(repeated(byte, 4).push((run - 4) as u8) =~= seq![
        byte,
        byte,
        byte,
        byte,
        (run - 4) as u8,
    ]);
}

/// The transform lists the bytes before the rotations of a string in ascending order of these:
/// the bytes that the rotations begin with never descend.
pub proof fn lemma_rotations_ascend(s: Seq<u8>, a: int, b: int)
    requires
        0 <= a < b < s.len(),
    ensures
        rotation_order(s).len() == s.len(),
        0 <= rotation_order(s)[a] < s.len(),
        0 <= rotation_order(s)[b] < s.len(),
        s[rotation_order(s)[a]] <= s[rotation_order(s)[b]],
        transformed(s)[a] == s[(rotation_order(s)[a] + s.len() - 1) % (s.len() as int)],
{
    lemma_rotation_order(s);
    let i = rotation_order(s)[a];
    let j = rotation_order(s)[b];
    vstd::arithmetic::div_mod::lemma_small_mod(i as nat, s.len());
    vstd::arithmetic::div_mod::lemma_small_mod(j as nat, s.len());
    assert(crate::codecs::bzip::rotations::precedes(s, i, j));
}

/// Undoing the transform goes along the bytes in ascending order, equal ones in the order in
/// which they stand.
pub proof fn lemma_links_ascend(column: Seq<u8>, a: int, b: int)
    requires
        0 <= a < b < column.len(),
    ensures
        0 <= links_of(column)[a] < column.len(),
        0 <= links_of(column)[b] < column.len(),
        column[links_of(column)[a]] < column[links_of(column)[b]] || (column[links_of(column)[a]]
            == column[links_of(column)[b]] && links_of(column)[a] < links_of(column)[b]),
        untransformed(column, a).len() > 0,
        untransformed(column, a)[0] == column[links_of(column)[a]],
{
    lemma_links_exist(column);
    let links = links_of(column);
    let x = links[a];
    let y = links[b];
    assert(links[sorted_place(column, x)] == x);
    assert(links[sorted_place(column, y)] == y);
    if column[y] < column[x] || (column[y] == column[x] && y < x) {
        lemma_place_order(column, y, x);
    }
}

/// The memory that the codec is taken to need: to decode three words and five bytes for each byte
/// of a block, to encode six words and six bytes for each byte that a block holds; 256 KiB more.
pub proof fn lemma_workspace(n: int, block_size: u8)
    ensures
        crate::codecs::bzip::options::decode_workspace_size(block_size as int) == 262144 + (100_000
            * block_size) * (usize::BITS as int / 8 * 3 + 5),
        0 <= n <= 100_000 * block_size ==> crate::codecs::bzip::options::encode_workspace_size(
            n,
            block_size,
        ) == 262144 + n * (usize::BITS as int / 8 * 6 + 6),
        n >= 100_000 * block_size ==> crate::codecs::bzip::options::encode_workspace_size(
            n,
            block_size,
        ) == 262144 + (100_000 * block_size) * (usize::BITS as int / 8 * 6 + 6),
{
}

/// The encoder's code: lengths that differ by one at most, the shorter ones first, that leave no
/// code unused.
pub proof fn lemma_balanced(count: int, bits: int, i: int)
    requires
        2 <= bits <= 9,
        bits_for(count, bits),
        0 <= i < count,
    ensures
        balanced_lengths(count, bits).len() == count,
        vstd::arithmetic::power2::pow2((bits - 1) as nat) < count
            <= vstd::arithmetic::power2::pow2(bits as nat),
        i < vstd::arithmetic::power2::pow2(bits as nat) - count ==> balanced_lengths(
            count,
            bits,
        )[i] == bits - 1,
        i >= vstd::arithmetic::power2::pow2(bits as nat) - count ==> balanced_lengths(
            count,
            bits,
        )[i] == bits,
{
}

/// What is refused before any work, and nothing else is: an input or output beyond its limit, and
/// work in more memory than allowed.
pub proof fn lemma_refusals(
    encoder: EncoderOptions,
    decoder: DecoderOptions,
    input: Seq<u8>,
    data: Seq<u8>,
)
    ensures
        encode_refusal(encoder, input) is Some <==> input.len() > encoder.limits.max_input_size
            || crate::codecs::bzip::options::encode_workspace_size(
            input.len() as int,
            encoder.block_size,
        ) > encoder.limits.max_workspace_size,
        encoded(encoder, input) matches Ok(stream) ==> stream.len()
            <= encoder.limits.max_output_size,
        decoder_refusal(decoder) is Some <==> decoder.expected_size
            > decoder.limits.max_output_size,
        data.len() > decoder.limits.max_input_size ==> decoded(decoder, data) is Err,
{
}

/// The category of every fault: limits by what they limit, ends that come too early, options that
/// are out of range, and otherwise invalid data.
pub proof fn lemma_fault_kinds(fault: Fault)
    ensures
        fault.kind() == ErrorKind::InputLimitExceeded <==> fault is InputLimit,
        fault.kind() == ErrorKind::OutputLimitExceeded <==> fault is DeclaredOutputLimit
            || fault is OutputLimit,
        fault.kind() == ErrorKind::WorkspaceLimitExceeded <==> fault is WorkspaceLimit
            || fault is WorkspaceOverflow,
        fault.kind() == ErrorKind::TruncatedData <==> fault is TruncatedStream
            || fault is TruncatedRun || fault is SelectorsExhausted,
        fault.kind() == ErrorKind::InvalidOptions <==> fault is BlockSizeOption,
        fault.kind() != ErrorKind::UnsupportedFeature,
{
}

/// Streams follow one another at whole bytes: behind the last bit of one the next begins with the
/// next byte, or the data end.
pub proof fn lemma_streams_follow(
    data: Seq<u8>,
    offset: int,
    out: Seq<u8>,
    expected: int,
    workspace: int,
    q: int,
    longer: Seq<u8>,
)
    requires
        0 <= offset < data.len(),
        header_ok(data.skip(offset)),
        crate::codecs::bzip::options::decode_workspace_size(data[offset + 3] - 48) <= workspace,
        blocks_at(
            data.skip(offset + 4),
            0,
            100_000 * (data[offset + 3] - 48),
            out,
            expected,
            0,
        ) == Ok::<(int, Seq<u8>), Fault>((q, longer)),
    ensures
        streams_at(data, offset, out, expected, workspace) == streams_at(
            data,
            offset + 4 + (q + 7) / 8,
            longer,
            expected,
            workspace,
        ),
        streams_at(data, data.len() as int, out, expected, workspace) == Ok::<Seq<u8>, Fault>(out),
{
    let stream = data.skip(offset);
    assert(stream[3] == data[offset + 3]);
    assert(stream.skip(4) =~= data.skip(offset + 4));
}

/// How much of the code space the codes that are shorter than `length` take, in units of codes
/// of twenty bits.
pub open spec fn space_below(lengths: Seq<u8>, length: nat) -> int
    decreases length,
{
    if length <= 1 {
        0
    } else {
        space_below(lengths, (length - 1) as nat) + symbols_of_length(
            lengths,
            lengths.len(),
            length - 1,
        ) * vstd::arithmetic::power2::pow2((21 - length) as nat)
    }
}

proof fn lemma_space_below(lengths: Seq<u8>, length: nat)
    requires
        1 <= length <= 20,
    ensures
        first_code(lengths, length) * vstd::arithmetic::power2::pow2((20 - length) as nat)
            == space_below(lengths, length),
    decreases length,
{
    let unit = vstd::arithmetic::power2::pow2((20 - length) as nat) as int;
    if length == 1 {
        assert(first_code(lengths, 0) == 0);
        assert(code_count(lengths, 0) == 0);
        assert(0 * unit == 0) by (nonlinear_arith);
    } else {
        lemma_space_below(lengths, (length - 1) as nat);
        crate::math::lemma_pow2_step((20 - length) as nat);
        let first = first_code(lengths, (length - 1) as nat) as int;
        let count = code_count(lengths, (length - 1) as nat) as int;
        let double = vstd::arithmetic::power2::pow2((21 - length) as nat) as int;
        assert((2 * (first + count)) * unit == first * double + count * double)
            by (nonlinear_arith)
            requires
                double == 2 * unit,
        ;
    }
}

proof fn lemma_space_grows(lengths: Seq<u8>, a: nat, b: nat)
    requires
        a <= b,
    ensures
        space_below(lengths, a) <= space_below(lengths, b),
    decreases b,
{
    if a < b {
        lemma_space_grows(lengths, a, (b - 1) as nat);
        if b > 1 {
            let count = symbols_of_length(lengths, lengths.len(), b - 1) as int;
            let unit = vstd::arithmetic::power2::pow2((21 - b) as nat) as int;
            assert(count * unit >= 0) by (nonlinear_arith)
                requires
                    count >= 0,
                    unit >= 0,
            ;
        }
    }
}

proof fn lemma_length_fits(lengths: Seq<u8>, length: nat)
    requires
        1 <= length <= 20,
    ensures
        codes_fit(lengths, length) <==> space_below(lengths, length + 1) <= 1048576,
{
    lemma_space_below(lengths, length);
    vstd::arithmetic::power2::lemma2_to64();
    vstd::arithmetic::power2::lemma_pow2_pos((20 - length) as nat);
    vstd::arithmetic::power2::lemma_pow2_adds(length, (20 - length) as nat);
    let unit = vstd::arithmetic::power2::pow2((20 - length) as nat) as int;
    let whole = vstd::arithmetic::power2::pow2(length) as int;
    let first = first_code(lengths, length) as int;
    let count = code_count(lengths, length) as int;
    assert(space_below(lengths, length + 1) == space_below(lengths, length) + count * unit);
    assert((first + count) * unit == first * unit + count * unit) by (nonlinear_arith);
    assert((first + count <= whole) == ((first + count) * unit <= whole * unit))
        by (nonlinear_arith)
        requires
            unit > 0,
    ;
}

/// Lengths make a code if all lie between one and twenty and together they take no more than the
/// whole code space.
pub proof fn lemma_code_space(lengths: Seq<u8>)
    ensures
        (exists|i: int|
            0 <= i < lengths.len() && ((#[trigger] lengths[i]) < 1 || lengths[i] > 20))
            ==> tree_fault(lengths) == Some(Fault::HuffmanLength),
        (forall|i: int| 0 <= i < lengths.len() ==> 1 <= #[trigger] lengths[i] <= 20) ==> tree_fault(
            lengths,
        ) == (if space_below(lengths, 21) <= 1048576 {
            None
        } else {
            Some(Fault::OversubscribedTree)
        }),
{
    lemma_length_fits(lengths, 20);
    assert forall|l: nat| 1 <= l <= 20 && space_below(lengths, 21) <= 1048576 implies #[trigger]
        codes_fit(lengths, l) by {
        lemma_length_fits(lengths, l);
        lemma_space_grows(lengths, l + 1, 21);
    }
}

} // verus!
