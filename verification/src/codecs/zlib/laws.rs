//! What holds of DEFLATE and zlib streams, in the formats' own numbers.

use vstd::arithmetic::power2::{lemma2_to64, lemma_pow2_adds, pow2};
use vstd::prelude::*;

use crate::codecs::error::ErrorKind;
use crate::codecs::zlib::bitstream::{
    bit_at, bits_at, lemma_bits_at_bound, lemma_bits_at_byte, lemma_bits_at_divide,
    lemma_bits_at_split, lemma_pack_holds, lemma_pack_len, pack,
};
use crate::codecs::zlib::checksum::{adler, adler_sums};
use crate::codecs::zlib::codec::{decoded, decoder_refusal, encode_refusal, encoded};
use crate::codecs::zlib::deflate::{
    deflate, distance_index, element_bits, header_bits, length_index, search_limits,
};
use crate::codecs::zlib::engine::{unzlib, zlib_stream};
use crate::codecs::zlib::fault::Fault;
use crate::codecs::zlib::fixed::{
    lemma_fixed_distance_rank, lemma_fixed_first_codes, lemma_fixed_literal_rank,
};
use crate::codecs::zlib::huffman::{
    code_count, code_of, codes_fault, codes_fit, first_code, reversed, symbol_at,
    symbols_of_length, tree_fault,
};
use crate::codecs::zlib::inflate::{
    block_at, blocks_at, code_length_at, code_length_lengths, code_length_order, code_lengths_at,
    copy_match, distance_base, distance_extra, distance_tree, dynamic_trees_at, element_at, fixed_distances,
    fixed_literals, inflate, length_base, length_extra, match_at, stored_at,
};
use crate::codecs::zlib::options::{encode_workspace_size, DecoderOptions, EncoderOptions};
use crate::math::{lemma_pow2_monotonic, lemma_pow2_step};

verus! {

/// The match lengths of the length symbols: the shortest one and the number of extra bits of
/// each.
pub proof fn lemma_length_table(index: int)
    requires
        0 <= index < 29,
    ensures
        length_base(index) == seq![
            3int, 4, 5, 6, 7, 8, 9, 10, 11, 13, 15, 17, 19, 23, 27, 31, 35, 43, 51, 59, 67, 83, 99,
            115, 131, 163, 195, 227, 258,
        ][index],
        length_extra(index) == seq![
            0nat, 0, 0, 0, 0, 0, 0, 0, 1, 1, 1, 1, 2, 2, 2, 2, 3, 3, 3, 3, 4, 4, 4, 4, 5, 5, 5, 5, 0,
        ][index],
{
    lemma2_to64();
    assert(4 * pow2(length_extra(8)) == 8);
    assert(5 * pow2(length_extra(9)) == 10);
    assert(6 * pow2(length_extra(10)) == 12);
    assert(7 * pow2(length_extra(11)) == 14);
    assert(4 * pow2(length_extra(12)) == 16);
    assert(5 * pow2(length_extra(13)) == 20);
    assert(6 * pow2(length_extra(14)) == 24);
    assert(7 * pow2(length_extra(15)) == 28);
    assert(4 * pow2(length_extra(16)) == 32);
    assert(5 * pow2(length_extra(17)) == 40);
    assert(6 * pow2(length_extra(18)) == 48);
    assert(7 * pow2(length_extra(19)) == 56);
    assert(4 * pow2(length_extra(20)) == 64);
    assert(5 * pow2(length_extra(21)) == 80);
    assert(6 * pow2(length_extra(22)) == 96);
    assert(7 * pow2(length_extra(23)) == 112);
    assert(4 * pow2(length_extra(24)) == 128);
    assert(5 * pow2(length_extra(25)) == 160);
    assert(6 * pow2(length_extra(26)) == 192);
    assert(7 * pow2(length_extra(27)) == 224);
}

/// The distances of the distance symbols: the shortest one and the number of extra bits of each.
pub proof fn lemma_distance_table(index: int)
    requires
        0 <= index < 30,
    ensures
        distance_base(index) == seq![
            1int, 2, 3, 4, 5, 7, 9, 13, 17, 25, 33, 49, 65, 97, 129, 193, 257, 385, 513, 769, 1025,
            1537, 2049, 3073, 4097, 6145, 8193, 12289, 16385, 24577,
        ][index],
        distance_extra(index) == seq![
            0nat, 0, 0, 0, 1, 1, 2, 2, 3, 3, 4, 4, 5, 5, 6, 6, 7, 7, 8, 8, 9, 9, 10, 10, 11, 11, 12,
            12, 13, 13,
        ][index],
{
    lemma2_to64();
    assert(2 * pow2(distance_extra(4)) == 4);
    assert(3 * pow2(distance_extra(5)) == 6);
    assert(2 * pow2(distance_extra(6)) == 8);
    assert(3 * pow2(distance_extra(7)) == 12);
    assert(2 * pow2(distance_extra(8)) == 16);
    assert(3 * pow2(distance_extra(9)) == 24);
    assert(2 * pow2(distance_extra(10)) == 32);
    assert(3 * pow2(distance_extra(11)) == 48);
    assert(2 * pow2(distance_extra(12)) == 64);
    assert(3 * pow2(distance_extra(13)) == 96);
    assert(2 * pow2(distance_extra(14)) == 128);
    assert(3 * pow2(distance_extra(15)) == 192);
    assert(2 * pow2(distance_extra(16)) == 256);
    assert(3 * pow2(distance_extra(17)) == 384);
    assert(2 * pow2(distance_extra(18)) == 512);
    assert(3 * pow2(distance_extra(19)) == 768);
    assert(2 * pow2(distance_extra(20)) == 1024);
    assert(3 * pow2(distance_extra(21)) == 1536);
    assert(2 * pow2(distance_extra(22)) == 2048);
    assert(3 * pow2(distance_extra(23)) == 3072);
    assert(2 * pow2(distance_extra(24)) == 4096);
    assert(3 * pow2(distance_extra(25)) == 6144);
    assert(2 * pow2(distance_extra(26)) == 8192);
    assert(3 * pow2(distance_extra(27)) == 12288);
    assert(2 * pow2(distance_extra(28)) == 16384);
    assert(3 * pow2(distance_extra(29)) == 24576);
}

/// The lengths of the code-length code come in the order of the format.
pub proof fn lemma_code_length_table(i: int)
    requires
        0 <= i < 19,
    ensures
        0 <= code_length_order(i) < 19,
        i < 3 ==> code_length_order(i) == 16 + i,
        i == 3 ==> code_length_order(i) == 0,
        4 <= i && i % 2 == 0 ==> code_length_order(i) == 6 + i / 2,
        5 <= i && i % 2 == 1 ==> code_length_order(i) == 9 - i / 2,
{
}

/// The codes of a fixed block.
pub proof fn lemma_fixed_literal_code(symbol: int)
    requires
        0 <= symbol < 288,
    ensures
        symbol <= 143 ==> fixed_literals()[symbol] == 8 && code_of(fixed_literals(), symbol)
            == 0b0011_0000 + symbol,
        144 <= symbol <= 255 ==> fixed_literals()[symbol] == 9 && code_of(fixed_literals(), symbol)
            == 0b1_1001_0000 + (symbol - 144),
        256 <= symbol <= 279 ==> fixed_literals()[symbol] == 7 && code_of(fixed_literals(), symbol)
            == symbol - 256,
        280 <= symbol ==> fixed_literals()[symbol] == 8 && code_of(fixed_literals(), symbol)
            == 0b1100_0000 + (symbol - 280),
        fixed_literals().len() == 288,
{
    lemma_fixed_first_codes();
    lemma_fixed_literal_rank(symbol as nat, fixed_literals()[symbol] as int);
    let length = fixed_literals()[symbol] as nat;
    assert(first_code(fixed_literals(), length) == (if length <= 7 {
        0
    } else if length == 8 {
        48
    } else if length == 9 {
        400
    } else {
        pow2(length)
    }));
}

/// The distance codes of a fixed block are numbers of five bits.
pub proof fn lemma_fixed_distance_code(symbol: int)
    requires
        0 <= symbol < 32,
    ensures
        fixed_distances()[symbol] == 5,
        code_of(fixed_distances(), symbol) == symbol,
        fixed_distances().len() == 32,
{
    lemma_fixed_first_codes();
    lemma_fixed_distance_rank(symbol as nat, 5);
    assert(first_code(fixed_distances(), 5) == 0);
}

/// How much of the code space the codes that are shorter than `length` take, in units of codes
/// of fifteen bits.
pub open spec fn space_below(lengths: Seq<u8>, length: nat) -> int
    decreases length,
{
    if length <= 1 {
        0
    } else {
        space_below(lengths, (length - 1) as nat) + symbols_of_length(
            lengths,
            lengths.len(),
            length - 1,
        ) * pow2((16 - length) as nat)
    }
}

/// Codes are given out in the order of their lengths, those of one length in the order of the
/// symbols, without gaps: a code begins where the codes before it end.
pub proof fn lemma_canonical(lengths: Seq<u8>, symbol: int)
    requires
        0 <= symbol < lengths.len(),
        1 <= lengths[symbol] <= 15,
    ensures
        code_of(lengths, symbol) * pow2((15 - lengths[symbol]) as nat) == space_below(
            lengths,
            lengths[symbol] as nat,
        ) + symbols_of_length(lengths, symbol as nat, lengths[symbol] as int) * pow2(
            (15 - lengths[symbol]) as nat,
        ),
{
    let length = lengths[symbol] as nat;
    lemma_space_below(lengths, length);
    let unit = pow2((15 - length) as nat) as int;
    let rank = symbols_of_length(lengths, symbol as nat, length as int) as int;
    let first = first_code(lengths, length) as int;
    assert((first + rank) * unit == first * unit + rank * unit) by (nonlinear_arith);
}

proof fn lemma_space_below(lengths: Seq<u8>, length: nat)
    requires
        1 <= length <= 15,
    ensures
        first_code(lengths, length) * pow2((15 - length) as nat) == space_below(lengths, length),
    decreases length,
{
    let unit = pow2((15 - length) as nat) as int;
    if length == 1 {
        assert(first_code(lengths, 0) == 0);
        assert(code_count(lengths, 0) == 0);
        assert(0 * unit == 0) by (nonlinear_arith);
    } else {
        lemma_space_below(lengths, (length - 1) as nat);
        lemma_pow2_step((15 - length) as nat);
        let first = first_code(lengths, (length - 1) as nat) as int;
        let count = code_count(lengths, (length - 1) as nat) as int;
        let double = pow2((16 - length) as nat) as int;
        assert((2 * (first + count)) * unit == first * double + count * double)
            by (nonlinear_arith)
            requires
                double == 2 * unit,
        ;
    }
}

/// Codes stand in the stream with their most significant bit first.
pub proof fn lemma_code_bits(code: int, length: nat, k: nat)
    requires
        k < length,
        code >= 0,
    ensures
        reversed(code, length) / (pow2(k) as int) % 2 == code / (pow2((length - 1 - k) as nat) as int)
            % 2,
    decreases length,
{
    let half = pow2((length - 1) as nat) as int;
    let rest = reversed(code / 2, (length - 1) as nat);
    crate::codecs::zlib::huffman::lemma_reversed_bound(code / 2, (length - 1) as nat);
    lemma_pow2_monotonic(k, (length - 1) as nat);
    let w = pow2(k) as int;
    if k == length - 1 {
        lemma2_to64();
        assert(((code % 2) * half + rest) / half == code % 2) by (nonlinear_arith)
            requires
                0 <= rest < half,
        ;
        assert(code / 1 == code);
    } else {
        lemma_code_bits(code / 2, (length - 1) as nat, k);
        lemma_pow2_adds(k, (length - 1 - k) as nat);
        let more = pow2((length - 1 - k) as nat) as int;
        lemma_pow2_step((length - 2 - k) as nat);
        let less = pow2((length - 2 - k) as nat) as int;
        let c = code % 2;
        assert((c * half + rest) / w == rest / w + c * more) by {
            assert(c * half == (c * more) * w) by (nonlinear_arith)
                requires
                    half == w * more,
            ;
            vstd::arithmetic::div_mod::lemma_hoist_over_denominator(rest, c * more, w as nat);
        }
        assert(c * more == 2 * (c * less)) by (nonlinear_arith)
            requires
                more == 2 * less,
        ;
        assert((rest / w + c * more) % 2 == rest / w % 2);
        assert(code / 2 / less == code / more) by {
            vstd::arithmetic::div_mod::lemma_div_denominator(code, 2, less);
        }
    }
}

/// Numbers begin with their least significant bit, and bytes are filled from theirs.
pub proof fn lemma_numbers(data: Seq<u8>, k: int)
    requires
        0 <= k,
        k + 1 < data.len(),
    ensures
        bits_at(data, 8 * k, 1) == data[k] % 2,
        bits_at(data, 8 * k + 1, 2) == data[k] / 2 % 4,
        bits_at(data, 8 * k, 8) == data[k],
        bits_at(data, 8 * k, 16) == data[k] + 256 * data[k + 1],
{
    lemma2_to64();
    lemma_bits_at_byte(data, k);
    lemma_bits_at_byte(data, k + 1);
    lemma_bits_at_divide(data, 8 * k, 1, 7);
    lemma_bits_at_divide(data, 8 * k + 1, 2, 5);
    lemma_bits_at_split(data, 8 * k, 8, 8);
    assert(bits_at(data, 8 * k, 8) % 2 == bits_at(data, 8 * k, 1));
    assert(data[k] as int / 2 % 4 == bits_at(data, 8 * k + 1, 2));
}

/// A stored block holds its length twice, once with all bits flipped, and then its bytes as they
/// are.
pub proof fn lemma_stored_block(
    data: Seq<u8>,
    k: int,
    content: Seq<u8>,
    out: Seq<u8>,
    limit: int,
)
    requires
        0 <= k,
        content.len() <= 0xffff,
        k + 5 + content.len() <= data.len(),
        data[k] == 0 || data[k] == 1,
        data[k + 1] == content.len() % 256,
        data[k + 2] == content.len() / 256,
        data[k + 3] == 255 - data[k + 1],
        data[k + 4] == 255 - data[k + 2],
        data.subrange(k + 5, k + 5 + content.len()) == content,
        out.len() + content.len() <= limit,
    ensures
        data[k] == 1 ==> blocks_at(data, 8 * k, out, limit) == Ok::<Seq<u8>, Fault>(out + content),
        data[k] == 0 ==> blocks_at(data, 8 * k, out, limit) == blocks_at(
            data,
            8 * (k + 5 + content.len()),
            out + content,
            limit,
        ),
{
    lemma_numbers(data, k);
    let n = content.len() as int;
    let end = 8 * (k + 5 + n);
    lemma_stored_part(data, k, content, out, limit);
    assert(block_at(data, 8 * k, out, limit) == Ok::<(bool, int, Seq<u8>), Fault>(
        (data[k] == 1, end, out + content),
    ));
}

proof fn lemma_stored_part(data: Seq<u8>, k: int, content: Seq<u8>, out: Seq<u8>, limit: int)
    requires
        0 <= k,
        content.len() <= 0xffff,
        k + 5 + content.len() <= data.len(),
        data[k + 1] == content.len() % 256,
        data[k + 2] == content.len() / 256,
        data[k + 3] == 255 - data[k + 1],
        data[k + 4] == 255 - data[k + 2],
        data.subrange(k + 5, k + 5 + content.len()) == content,
        out.len() + content.len() <= limit,
    ensures
        stored_at(data, 8 * k + 3, out, limit) == Ok::<(int, Seq<u8>), Fault>(
            (8 * (k + 5 + content.len()), out + content),
        ),
{
    lemma_numbers(data, k + 1);
    lemma_numbers(data, k + 3);
    let n = content.len() as int;
    let start = (8 * k + 3 + 7) / 8 * 8;
    assert(start == 8 * (k + 1));
    assert(bits_at(data, start, 16) == n);
    assert(start + 16 == 8 * (k + 3));
    assert(bits_at(data, start + 16, 16) == 0xffff - n);
    assert(start / 8 + 4 == k + 5);
}

/// A whole stream of one stored block.
pub proof fn lemma_stored_stream(content: Seq<u8>)
    requires
        content.len() <= 0xffff,
    ensures
        ({
            let low = (content.len() % 256) as u8;
            let high = (content.len() / 256) as u8;
            inflate(
                seq![1u8, low, high, (255 - low) as u8, (255 - high) as u8] + content,
                content.len() as usize,
            )
        }) == Ok::<Seq<u8>, Fault>(content),
{
    let low = (content.len() % 256) as u8;
    let high = (content.len() / 256) as u8;
    let data = seq![1u8, low, high, (255 - low) as u8, (255 - high) as u8] + content;
    assert(data.subrange(5, 5 + content.len() as int) =~= content);
    lemma_stored_block(data, 0, content, Seq::empty(), content.len() as int);
    assert(Seq::<u8>::empty() + content =~= content);
}

/// The three first bits of a block say whether it is the last one and how it is coded: stored,
/// by the fixed codes, by its own codes; the fourth value means nothing.
pub proof fn lemma_block_kinds(data: Seq<u8>, k: int, out: Seq<u8>, limit: int)
    requires
        0 <= k,
        k + 1 < data.len(),
    ensures
        block_at(data, 8 * k, out, limit) matches Ok((last, _, _)) ==> last == (data[k] % 2 == 1),
        data[k] / 2 % 4 == 3 ==> block_at(data, 8 * k, out, limit) == Err::<
            (bool, int, Seq<u8>),
            Fault,
        >(Fault::ReservedBlockType),
        data[k] / 2 % 4 == 1 ==> (block_at(data, 8 * k, out, limit) matches Ok((_, q, longer))
            ==> crate::codecs::zlib::inflate::elements_at(
            data,
            8 * k + 3,
            out,
            limit,
            fixed_literals(),
            Some(fixed_distances()),
        ) == Ok::<(int, Seq<u8>), Fault>((q, longer))),
{
    lemma_numbers(data, k);
}

/// What the encoder makes is one last block by the fixed codes.
pub proof fn lemma_encoder_block(input: Seq<u8>)
    ensures
        deflate(input).len() > 0,
        deflate(input)[0] % 8 == 3,
{
    let bits = header_bits() + element_bits(input, 0);
    lemma2_to64();
    reveal_with_fuel(crate::codecs::zlib::bitstream::low_bits, 4);
    assert(header_bits() =~= seq![true, true, false]);
    lemma_pack_holds(Seq::empty(), bits, Seq::empty());
    assert(Seq::<u8>::empty() + pack(bits) + Seq::<u8>::empty() =~= pack(bits));
    lemma_pack_len(bits);
    let data = pack(bits);
    assert(bits.len() >= 3);
    assert(bits[0] && bits[1] && !bits[2]);
    assert(bit_at(data, 0int + 0) == 1);
    assert(bit_at(data, 0int + 1) == 1);
    assert(bit_at(data, 0int + 2) == 0);
    lemma_bits_at_byte(data, 0);
    lemma_bits_at_divide(data, 0, 3, 5);
    reveal_with_fuel(bits_at, 4);
    assert(bits_at(data, 0, 3) == 3);
}

/// The lists of a block with its own codes have the lengths that its header gives: at least 257
/// literal codes and one distance code.
pub proof fn lemma_dynamic_counts(data: Seq<u8>, p: int)
    ensures
        dynamic_trees_at(data, p) matches Ok((_, (literals, distances))) ==> {
            &&& literals.len() == 257 + bits_at(data, p, 5)
            &&& distances matches Some(distances) ==> distances.len() == 1 + bits_at(data, p + 5, 5)
            &&& literals[256] != 0
        },
{
    if let Ok((_, (literals, distances))) = dynamic_trees_at(data, p) {
        let l = bits_at(data, p, 5);
        let d = bits_at(data, p + 5, 5);
        let c = bits_at(data, p + 10, 4);
        lemma_bits_at_bound(data, p, 5);
        lemma_bits_at_bound(data, p + 5, 5);
        let (q, tree) = code_length_lengths(
            data,
            p + 14,
            0,
            c + 4,
            Seq::new(19, |i: int| 0u8),
        )->Ok_0;
        lemma_code_lengths_total(data, q, tree, l + d + 258, Seq::empty());
    }
}

proof fn lemma_code_lengths_total(
    data: Seq<u8>,
    p: int,
    tree: Seq<u8>,
    total: int,
    lengths: Seq<u8>,
)
    requires
        lengths.len() <= total,
    ensures
        code_lengths_at(data, p, tree, total, lengths) matches Ok((_, list)) ==> list.len()
            == total,
    decreases 8 * data.len() - p,
{
    if lengths.len() < total {
        if let Ok((q, longer)) = code_length_at(data, p, tree, total, lengths) {
            lemma_code_length_kinds(data, p, tree, total, lengths);
            lemma_code_lengths_total(data, q, tree, total, longer);
        }
    }
}

/// The symbols of the code-length code: a length, the last length three to six times, and three
/// to ten or eleven to 138 zeros.
pub proof fn lemma_code_length_kinds(
    data: Seq<u8>,
    p: int,
    tree: Seq<u8>,
    total: int,
    lengths: Seq<u8>,
)
    requires
        lengths.len() < total,
    ensures
        code_length_at(data, p, tree, total, lengths) matches Ok((q, longer)) ==> {
            let (symbol, r) = symbol_at(tree, data, p)->Ok_0;
            let more = longer.len() - lengths.len();
            &&& lengths.len() < longer.len() <= total
            &&& longer.take(lengths.len() as int) == lengths
            &&& symbol <= 15 ==> q == r && longer == lengths.push(symbol as u8)
            &&& symbol == 16 ==> q == r + 2 && more == 3 + bits_at(data, r, 2) && lengths.len() > 0
            &&& symbol == 17 ==> q == r + 3 && more == 3 + bits_at(data, r, 3)
            &&& symbol == 18 ==> q == r + 7 && more == 11 + bits_at(data, r, 7)
            &&& symbol == 16 ==> forall|i: int|
                lengths.len() <= i < longer.len() ==> #[trigger] longer[i] == lengths.last()
            &&& symbol >= 17 ==> forall|i: int|
                lengths.len() <= i < longer.len() ==> #[trigger] longer[i] == 0
        },
{
    if let Ok((q, longer)) = code_length_at(data, p, tree, total, lengths) {
        let (symbol, r) = symbol_at(tree, data, p)->Ok_0;
        lemma_bits_at_bound(data, r, 2);
        lemma_bits_at_bound(data, r, 3);
        lemma_bits_at_bound(data, r, 7);
        assert(longer.take(lengths.len() as int) =~= lengths);
    }
}

/// The length of each code of the code-length code is a number of three bits; those that are not
/// listed are zero.
pub proof fn lemma_code_length_fields(
    data: Seq<u8>,
    p: int,
    i: int,
    count: int,
    lengths: Seq<u8>,
)
    requires
        0 <= i <= count <= 19,
        lengths.len() == 19,
    ensures
        code_length_lengths(data, p, i, count, lengths) matches Ok((q, list)) ==> {
            &&& q == p + 3 * (count - i)
            &&& list.len() == 19
            &&& forall|k: int|
                i <= k < count ==> list[#[trigger] code_length_order(k)] == bits_at(
                    data,
                    p + 3 * (k - i),
                    3,
                )
            &&& forall|k: int|
                0 <= k < 19 && !(i <= k < count) ==> list[#[trigger] code_length_order(k)]
                    == lengths[code_length_order(k)]
        },
    decreases count - i,
{
    if i < count {
        if let Ok((q, list)) = code_length_lengths(data, p, i, count, lengths) {
            let length = bits_at(data, p, 3);
            lemma_bits_at_bound(data, p, 3);
            lemma2_to64();
            lemma_code_length_table(i);
            let longer = lengths.update(code_length_order(i), length as u8);
            lemma_code_length_fields(data, p + 3, i + 1, count, longer);
            assert forall|k: int| 0 <= k < 19 && k != i implies #[trigger] code_length_order(k)
                != code_length_order(i) by {
                lemma_code_length_table(k);
            }
            assert forall|k: int| i <= k < count implies list[#[trigger] code_length_order(k)]
                == bits_at(data, p + 3 * (k - i), 3) by {
                if k == i {
                    assert(list[code_length_order(i)] == longer[code_length_order(i)]);
                } else {
                    assert(p + 3 + 3 * (k - (i + 1)) == p + 3 * (k - i));
                }
            }
        }
    }
}

/// A match repeats the bytes `distance` places before each of its bytes.
pub proof fn lemma_match_copies(out: Seq<u8>, distance: int, n: nat)
    requires
        1 <= distance <= out.len(),
    ensures
        ({
            let longer = copy_match(out, distance, n);
            &&& longer.len() == out.len() + n
            &&& longer.take(out.len() as int) == out
            &&& forall|i: int|
                out.len() <= i < longer.len() ==> #[trigger] longer[i] == longer[i - distance]
        }),
    decreases n,
{
    if n > 0 {
        let next = out.push(out[out.len() - distance]);
        lemma_match_copies(next, distance, (n - 1) as nat);
        let longer = copy_match(out, distance, n);
        assert(longer.take(out.len() as int) =~= out) by {
            assert(longer.take(next.len() as int) =~= next);
            assert forall|i: int| 0 <= i < out.len() implies longer[i] == out[i] by {
                assert(longer.take(next.len() as int)[i] == next[i]);
            }
        }
        assert forall|i: int| out.len() <= i < longer.len() implies #[trigger] longer[i]
            == longer[i - distance] by {
            if i == out.len() {
                assert(longer.take(next.len() as int)[i] == next[i]);
                assert(longer.take(next.len() as int)[i - distance] == next[i - distance]);
            }
        }
    } else {
        assert(copy_match(out, distance, n).take(out.len() as int) =~= out);
    }
}

/// The sum of the first `n` bytes.
pub open spec fn byte_sum(data: Seq<u8>, n: nat) -> int
    decreases n,
{
    if n == 0 {
        0
    } else {
        byte_sum(data, (n - 1) as nat) + data[n - 1]
    }
}

/// The sum of the sums of all beginnings of the first `n` bytes.
pub open spec fn sum_of_sums(data: Seq<u8>, n: nat) -> int
    decreases n,
{
    if n == 0 {
        0
    } else {
        sum_of_sums(data, (n - 1) as nat) + byte_sum(data, n)
    }
}

/// The checksum holds one more than the sum of the bytes, and above it the sum of those sums for
/// all beginnings, both modulo 65521.
pub proof fn lemma_adler(data: Seq<u8>)
    ensures
        adler(data) as int % 65536 == (1 + byte_sum(data, data.len())) % 65521,
        adler(data) as int / 65536 == (data.len() + sum_of_sums(data, data.len())) % 65521,
{
    lemma_adler_sums(data, data.len());
    assert(data.take(data.len() as int) =~= data);
}

proof fn lemma_adler_sums(data: Seq<u8>, n: nat)
    requires
        n <= data.len(),
    ensures
        adler_sums(data.take(n as int)) == (
            (1 + byte_sum(data, n)) % 65521,
            (n + sum_of_sums(data, n)) % 65521,
        ),
    decreases n,
{
    if n > 0 {
        let part = data.take(n as int);
        assert(part.drop_last() =~= data.take(n - 1));
        lemma_adler_sums(data, (n - 1) as nat);
        let a = 1 + byte_sum(data, (n - 1) as nat);
        let b = n - 1 + sum_of_sums(data, (n - 1) as nat);
        let c = data[n - 1] as int;
        let m = 65521int;
        assert(part.last() == c);
        vstd::arithmetic::div_mod::lemma_add_mod_noop(a, c, m);
        vstd::arithmetic::div_mod::lemma_mod_twice(a, m);
        vstd::arithmetic::div_mod::lemma_add_mod_noop(a % m, c, m);
        assert((a % m + c) % m == (a + c) % m);
        vstd::arithmetic::div_mod::lemma_add_mod_noop(b, a + c, m);
        vstd::arithmetic::div_mod::lemma_mod_twice(b, m);
        vstd::arithmetic::div_mod::lemma_mod_twice(a + c, m);
        vstd::arithmetic::div_mod::lemma_add_mod_noop(b % m, (a + c) % m, m);
        assert((b % m + (a + c) % m) % m == (b + (a + c)) % m);
        assert(a + c == 1 + byte_sum(data, n));
        assert(b + (a + c) == n + sum_of_sums(data, n));
    } else {
        assert(data.take(0).len() == 0);
    }
}

/// A zlib stream begins with the method, a window of at most 32 KiB and a check on both, has no
/// preset dictionary, and ends with the checksum, the most significant byte first. Every stream
/// of that form is taken.
pub proof fn lemma_zlib_frame(data: Seq<u8>, expected: usize)
    ensures
        unzlib(data, expected) matches Ok(out) ==> {
            let n = data.len();
            &&& n >= 6
            &&& data[0] % 16 == 8
            &&& data[0] < 0x80
            &&& (256 * data[0] + data[1]) % 31 == 0
            &&& data[1] / 32 % 2 == 0
            &&& inflate(data.subrange(2, n - 4), expected) == Ok::<Seq<u8>, Fault>(out)
            &&& 0x100_0000 * data[n - 4] + 0x1_0000 * data[n - 3] + 0x100 * data[n - 2] + data[n - 1]
                == adler(out)
        },
        data.len() >= 6 && data[0] % 16 == 8 && data[0] < 0x80 && (256 * data[0] + data[1]) % 31
            == 0 && data[1] / 32 % 2 == 0 ==> (inflate(data.subrange(2, data.len() - 4), expected)
            matches Ok(out) ==> (0x100_0000 * data[data.len() - 4] + 0x1_0000 * data[data.len() - 3]
            + 0x100 * data[data.len() - 2] + data[data.len() - 1] == adler(out) ==> unzlib(
            data,
            expected,
        ) == Ok::<Seq<u8>, Fault>(out))),
{
    if data.len() >= 6 {
        let n = data.len();
        let tail = data.skip(n - 4);
        assert(tail =~= seq![data[n - 4], data[n - 3], data[n - 2], data[n - 1]]);
        if let Ok(out) = inflate(data.subrange(2, n - 4), expected) {
            lemma_big_endian(adler(out), data[n - 4], data[n - 3], data[n - 2], data[n - 1]);
        }
    }
}

/// Four bytes are those of a number if they add up to it.
proof fn lemma_big_endian(value: u32, a: u8, b: u8, c: u8, d: u8)
    ensures
        crate::codecs::zlib::engine::big_endian(value) == seq![a, b, c, d] <==> 0x100_0000 * a
            + 0x1_0000 * b + 0x100 * c + d == value,
{
    let bytes = crate::codecs::zlib::engine::big_endian(value);
    let given = seq![a, b, c, d];
    assert(given[0] == a && given[1] == b && given[2] == c && given[3] == d);
    lemma_four_digits(
        value as int,
        bytes[0] as int,
        bytes[1] as int,
        bytes[2] as int,
        bytes[3] as int,
    );
    lemma_four_digits(value as int, a as int, b as int, c as int, d as int);
    if 0x100_0000 * a + 0x1_0000 * b + 0x100 * c + d == value {
        assert(bytes =~= given);
    }
}

#[verifier::spinoff_prover]
proof fn lemma_four_digits(v: int, a: int, b: int, c: int, d: int)
    requires
        0 <= v < 0x1_0000_0000,
        0 <= a < 256,
        0 <= b < 256,
        0 <= c < 256,
        0 <= d < 256,
    ensures
        0x100_0000 * a + 0x1_0000 * b + 0x100 * c + d == v <==> a == v / 0x100_0000 && b == v
            / 0x1_0000 % 0x100 && c == v / 0x100 % 0x100 && d == v % 0x100,
{
    let x = v / 0x100;
    let y = x / 0x100;
    assert(y == v / 0x1_0000);
    assert(y / 0x100 == v / 0x100_0000);
    assert(v == 0x100 * x + v % 0x100);
    assert(x == 0x100 * y + x % 0x100);
    assert(y == 0x100 * (y / 0x100) + y % 0x100);
    if 0x100_0000 * a + 0x1_0000 * b + 0x100 * c + d == v {
        assert(v == 0x100 * (0x1_0000 * a + 0x100 * b + c) + d);
        assert(x == 0x1_0000 * a + 0x100 * b + c);
        assert(x == 0x100 * (0x100 * a + b) + c);
        assert(y == 0x100 * a + b);
    }
}

/// The encoder writes the header of a 32 KiB window and the usual compression.
pub proof fn lemma_zlib_header(input: Seq<u8>)
    ensures
        zlib_stream(input).len() == deflate(input).len() + 6,
        zlib_stream(input)[0] == 0x78,
        zlib_stream(input)[1] == 0x9c,
        zlib_stream(input).subrange(2, deflate(input).len() as int + 2) == deflate(input),
{
    assert(zlib_stream(input).subrange(2, deflate(input).len() as int + 2) =~= deflate(input));
}

/// The memory that the codec is taken to need: 320 KiB to decode, and to encode a word for each
/// byte and for 65536 more, and 64 KiB.
pub proof fn lemma_workspace(n: int)
    ensures
        crate::codecs::zlib::options::decode_workspace_size() == 327680,
        crate::codecs::zlib::options::encode_workspace_size(n) == 65536 + (n + 65536) * (
        usize::BITS as int / 8),
{
}

/// Literal symbols below 256 are bytes, 256 ends the block, 257 to 285 begin a match, and the two
/// above mean nothing.
pub proof fn lemma_element_kinds(
    data: Seq<u8>,
    p: int,
    out: Seq<u8>,
    limit: int,
    literals: Seq<u8>,
    distances: Option<Seq<u8>>,
    symbol: int,
    q: int,
)
    requires
        symbol_at(literals, data, p) == Ok::<(int, int), Fault>((symbol, q)),
        0 <= symbol,
    ensures
        ({
            let found = element_at(data, p, out, limit, literals, distances);
            &&& symbol < 256 && out.len() != limit ==> found == Ok::<
                (int, Option<Seq<u8>>),
                Fault,
            >((q, Some(out.push(symbol as u8))))
            &&& symbol < 256 && out.len() == limit ==> found == Err::<
                (int, Option<Seq<u8>>),
                Fault,
            >(Fault::OutputExceedsLength)
            &&& symbol == 256 ==> found == Ok::<(int, Option<Seq<u8>>), Fault>((q, None))
            &&& 257 <= symbol <= 285 ==> (match_at(
                data,
                q,
                out,
                limit,
                symbol - 257,
                distances,
            ) matches Ok((r, longer)) ==> found == Ok::<(int, Option<Seq<u8>>), Fault>(
                (r, Some(longer)),
            ))
            &&& symbol >= 286 ==> found == Err::<(int, Option<Seq<u8>>), Fault>(
                Fault::ReservedLiteral,
            )
        }),
{
}

/// A match: the extra bits of its length, a distance symbol below 30, and the extra bits of the
/// distance. It may not reach behind the output nor beyond the limit.
pub proof fn lemma_match_fields(
    data: Seq<u8>,
    p: int,
    out: Seq<u8>,
    limit: int,
    index: int,
    tree: Seq<u8>,
    symbol: int,
    r: int,
)
    requires
        p + length_extra(index) <= 8 * data.len(),
        symbol_at(tree, data, p + length_extra(index)) == Ok::<(int, int), Fault>((symbol, r)),
        r + distance_extra(symbol) <= 8 * data.len(),
    ensures
        ({
            let found = match_at(data, p, out, limit, index, Some(tree));
            let length = length_base(index) + bits_at(data, p, length_extra(index));
            let distance = distance_base(symbol) + bits_at(data, r, distance_extra(symbol));
            &&& symbol >= 30 ==> found == Err::<(int, Seq<u8>), Fault>(Fault::ReservedDistance)
            &&& symbol < 30 && distance > out.len() ==> found == Err::<(int, Seq<u8>), Fault>(
                Fault::MatchPrecedesWindow,
            )
            &&& symbol < 30 && distance <= out.len() && out.len() + length > limit ==> found
                == Err::<(int, Seq<u8>), Fault>(Fault::OutputExceedsLength)
            &&& symbol < 30 && distance <= out.len() && out.len() + length <= limit ==> found
                == Ok::<(int, Seq<u8>), Fault>(
                (r + distance_extra(symbol), copy_match(out, distance, length as nat)),
            )
            &&& match_at(data, p, out, limit, index, None) == Err::<(int, Seq<u8>), Fault>(
                Fault::EmptyDistanceTree,
            )
        }),
{
}

/// The encoder takes the first symbol that reaches a length or a distance, so that no earlier one
/// does.
pub proof fn lemma_first_symbols(length: int, distance: int, index: int)
    requires
        0 <= index <= 28,
    ensures
        index <= length_index(length, index) <= 28,
        length_index(length, index) < 28 ==> length < length_base(length_index(length, index))
            + pow2(length_extra(length_index(length, index))),
        forall|i: int|
            index <= i < length_index(length, index) ==> length >= #[trigger] length_base(i) + pow2(
                length_extra(i),
            ),
        index <= distance_index(distance, index) <= 29,
        distance_index(distance, index) < 29 ==> distance < distance_base(
            distance_index(distance, index),
        ) + pow2(distance_extra(distance_index(distance, index))),
        forall|i: int|
            index <= i < distance_index(distance, index) ==> distance >= #[trigger] distance_base(i)
                + pow2(distance_extra(i)),
    decreases 28 - index,
{
    if index < 28 {
        lemma_first_symbols(length, distance, index + 1);
    } else {
        reveal_with_fuel(distance_index, 3);
    }
}

/// The encoder looks for matches of up to 258 bytes up to 32 KiB back, at 96 places at most.
pub proof fn lemma_search()
    ensures
        search_limits().length == 258,
        search_limits().window == 32768,
        search_limits().attempts == 96,
        search_limits().nice == 258,
{
}

/// What is refused before any work, and nothing else is: an input or output beyond its limit, and
/// work in more memory than allowed.
pub proof fn lemma_refusals(
    encoder: EncoderOptions,
    decoder: DecoderOptions,
    input: Seq<u8>,
    data: Seq<u8>,
)
    ensures
        encode_refusal(encoder, input) is Some <==> input.len() > encoder.limits.max_input_size
            || encode_workspace_size(input.len() as int) > encoder.limits.max_workspace_size,
        encoded(encoder, input) matches Ok(stream) ==> stream.len()
            <= encoder.limits.max_output_size,
        decoder_refusal(decoder) is Some <==> decoder.expected_size
            > decoder.limits.max_output_size || 327680 > decoder.limits.max_workspace_size,
        data.len() > decoder.limits.max_input_size ==> decoded(decoder, data) is Err,
{
}

/// The category of every fault: limits by what they limit, ends that come too early, what is not
/// supported, and otherwise invalid data.
pub proof fn lemma_fault_kinds(fault: Fault)
    ensures
        fault.kind() == ErrorKind::InputLimitExceeded <==> fault is InputLimit,
        fault.kind() == ErrorKind::OutputLimitExceeded <==> fault is DeclaredOutputLimit
            || fault is OutputLimit,
        fault.kind() == ErrorKind::WorkspaceLimitExceeded <==> fault is WorkspaceLimit
            || fault is WorkspaceOverflow,
        fault.kind() == ErrorKind::TruncatedData <==> fault is TruncatedStream
            || fault is TruncatedCode || fault is TruncatedZlib,
        fault.kind() == ErrorKind::UnsupportedFeature <==> fault is UnsupportedMethod
            || fault is PresetDictionary,
        fault.kind() != ErrorKind::InvalidOptions,
{
}

/// Lengths make a code if none passes fifteen and together they take no more than the whole code
/// space; a tree to decode by needs a code at all.
pub proof fn lemma_code_space(lengths: Seq<u8>)
    ensures
        (exists|i: int| 0 <= i < lengths.len() && #[trigger] lengths[i] > 15) ==> codes_fault(
            lengths,
        ) == Some(Fault::CodeTooLong),
        (forall|i: int| 0 <= i < lengths.len() ==> #[trigger] lengths[i] <= 15) ==> codes_fault(
            lengths,
        ) == (if space_below(lengths, 16) <= 32768 {
            None
        } else {
            Some(Fault::OversubscribedTree)
        }),
        (forall|i: int| 0 <= i < lengths.len() ==> #[trigger] lengths[i] == 0) ==> tree_fault(
            lengths,
        ) == Some(Fault::EmptyTree),
        (exists|i: int| 0 <= i < lengths.len() && #[trigger] lengths[i] > 0) ==> tree_fault(lengths)
            == codes_fault(lengths),
{
    lemma_length_fits(lengths, 15);
    assert forall|l: nat| 1 <= l <= 15 && space_below(lengths, 16) <= 32768 implies #[trigger]
        codes_fit(lengths, l) by {
        lemma_length_fits(lengths, l);
        lemma_space_grows(lengths, l + 1, 16);
    }
}

proof fn lemma_space_grows(lengths: Seq<u8>, a: nat, b: nat)
    requires
        a <= b,
    ensures
        space_below(lengths, a) <= space_below(lengths, b),
    decreases b,
{
    if a < b {
        lemma_space_grows(lengths, a, (b - 1) as nat);
        if b > 1 {
            let count = symbols_of_length(lengths, lengths.len(), b - 1) as int;
            let unit = pow2((16 - b) as nat) as int;
            assert(count * unit >= 0) by (nonlinear_arith)
                requires
                    count >= 0,
                    unit >= 0,
            ;
        }
    }
}

proof fn lemma_length_fits(lengths: Seq<u8>, length: nat)
    requires
        1 <= length <= 15,
    ensures
        codes_fit(lengths, length) <==> space_below(lengths, length + 1) <= 32768,
{
    lemma_space_below(lengths, length);
    lemma2_to64();
    vstd::arithmetic::power2::lemma_pow2_pos((15 - length) as nat);
    lemma_pow2_adds(length, (15 - length) as nat);
    let unit = pow2((15 - length) as nat) as int;
    let whole = pow2(length) as int;
    let first = first_code(lengths, length) as int;
    let count = code_count(lengths, length) as int;
    assert(space_below(lengths, length + 1) == space_below(lengths, length) + count * unit);
    assert((first + count) * unit == first * unit + count * unit) by (nonlinear_arith);
    assert((first + count <= whole) == ((first + count) * unit <= whole * unit))
        by (nonlinear_arith)
        requires
            unit > 0,
    ;
}

/// The distances of a block may have no code if there is just one of them.
pub proof fn lemma_no_distances(lengths: Seq<u8>)
    requires
        forall|i: int| 0 <= i < lengths.len() ==> #[trigger] lengths[i] == 0,
    ensures
        lengths.len() == 1 ==> distance_tree(lengths) == Ok::<Option<Seq<u8>>, Fault>(None),
        lengths.len() != 1 ==> distance_tree(lengths) == Err::<Option<Seq<u8>>, Fault>(
            Fault::EmptyDistanceTreeTooLong,
        ),
{
}

} // verus!
