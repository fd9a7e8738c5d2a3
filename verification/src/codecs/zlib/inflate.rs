//! The DEFLATE decoder.

use vstd::arithmetic::power2::{lemma2_to64, pow2};
use vstd::prelude::*;

use crate::codecs::zlib::bitstream::{
    bits_at, lemma_bits_at_bound, lemma_bits_at_byte, BitReader,
};
use crate::codecs::zlib::fault::Fault;
use crate::codecs::zlib::fixed::lemma_fixed_trees;
use crate::codecs::zlib::huffman::{symbol_at, tree_fault, Huffman};
use crate::math::{lemma_pow2_monotonic, power_of_two};
use crate::codecs::zlib::laws::{lemma_distance_table, lemma_length_table};

verus! {

/// The number of extra bits behind length symbol `257 + index`.
pub open spec fn length_extra(index: int) -> nat {
    if index < 8 || index == 28 {
        0
    } else {
        (index / 4 - 1) as nat
    }
}

/// The shortest match length of length symbol `257 + index`.
pub open spec fn length_base(index: int) -> int {
    if index < 8 {
        3 + index
    } else if index == 28 {
        258
    } else {
        3 + (4 + index % 4) * pow2(length_extra(index))
    }
}

/// The number of extra bits behind distance symbol `index`.
pub open spec fn distance_extra(index: int) -> nat {
    if index < 4 {
        0
    } else {
        (index / 2 - 1) as nat
    }
}

/// The shortest distance of distance symbol `index`.
pub open spec fn distance_base(index: int) -> int {
    if index < 4 {
        1 + index
    } else {
        1 + (2 + index % 2) * pow2(distance_extra(index))
    }
}

/// The base and the number of extra bits of a length symbol.
pub fn length_parameters(index: usize) -> (parameters: (usize, usize))
    requires
        index < 29,
    ensures
        parameters.0 == length_base(index as int),
        parameters.1 == length_extra(index as int),
        3 <= parameters.0 <= 258,
        parameters.1 <= 5,
        parameters.0 == seq![
            3int, 4, 5, 6, 7, 8, 9, 10, 11, 13, 15, 17, 19, 23, 27, 31, 35, 43, 51, 59, 67, 83,
            99, 115, 131, 163, 195, 227, 258,
        ][index as int],
        parameters.1 == seq![
            0int, 0, 0, 0, 0, 0, 0, 0, 1, 1, 1, 1, 2, 2, 2, 2, 3, 3, 3, 3, 4, 4, 4, 4, 5, 5, 5,
            5, 0,
        ][index as int],
{
    proof {
        lemma_length_table(index as int);
    }
    if index < 8 {
        (3 + index, 0)
    } else if index == 28 {
        (258, 0)
    } else {
        let extra: usize = index / 4 - 1;
        proof {
            lemma2_to64();
            lemma_pow2_monotonic(extra as nat, 5);
            let w = pow2(extra as nat) as int;
            let m = 4 + index as int % 4;
            assert(0 < m * w <= 224) by (nonlinear_arith)
                requires
                    4 <= m <= 7,
                    0 < w <= 32,
            ;
        }
        (3 + (4 + index % 4) * power_of_two(extra) as usize, extra)
    }
}

/// The base and the number of extra bits of a distance symbol.
pub fn distance_parameters(index: usize) -> (parameters: (usize, usize))
    requires
        index < 30,
    ensures
        parameters.0 == distance_base(index as int),
        parameters.1 == distance_extra(index as int),
        1 <= parameters.0 <= 24577,
        parameters.1 <= 13,
        parameters.0 == seq![
            1int, 2, 3, 4, 5, 7, 9, 13, 17, 25, 33, 49, 65, 97, 129, 193, 257, 385, 513, 769,
            1025, 1537, 2049, 3073, 4097, 6145, 8193, 12289, 16385, 24577,
        ][index as int],
        parameters.1 == seq![
            0int, 0, 0, 0, 1, 1, 2, 2, 3, 3, 4, 4, 5, 5, 6, 6, 7, 7, 8, 8, 9, 9, 10, 10, 11, 11,
            12, 12, 13, 13,
        ][index as int],
{
    proof {
        lemma_distance_table(index as int);
    }
    if index < 4 {
        (1 + index, 0)
    } else {
        let extra: usize = index / 2 - 1;
        proof {
            lemma2_to64();
            lemma_pow2_monotonic(extra as nat, 13);
            let w = pow2(extra as nat) as int;
            let m = 2 + index as int % 2;
            assert(0 < m * w <= 24576) by (nonlinear_arith)
                requires
                    2 <= m <= 3,
                    0 < w <= 8192,
            ;
        }
        (1 + (2 + index % 2) * power_of_two(extra) as usize, extra)
    }
}

/// `out` followed by `n` bytes, each the one `distance` places before it.
pub open spec fn copy_match(out: Seq<u8>, distance: int, n: nat) -> Seq<u8>
    decreases n,
{
    if n == 0 {
        out
    } else {
        copy_match(out.push(out[out.len() - distance]), distance, (n - 1) as nat)
    }
}

/// An `n`-bit number at position `p`.
pub open spec fn field(data: Seq<u8>, p: int, n: nat) -> Result<int, Fault> {
    if p + n <= 8 * data.len() {
        Ok(bits_at(data, p, n))
    } else {
        Err(Fault::TruncatedStream)
    }
}

/// The match behind length symbol `257 + index`: the position behind it and the longer output.
pub open spec fn match_at(
    data: Seq<u8>,
    p: int,
    out: Seq<u8>,
    limit: int,
    index: int,
    distances: Option<Seq<u8>>,
) -> Result<(int, Seq<u8>), Fault> {
    match field(data, p, length_extra(index)) {
        Err(fault) => Err(fault),
        Ok(extra) => {
            let length = length_base(index) + extra;
            let q = p + length_extra(index);
            match distances {
                None => Err(Fault::EmptyDistanceTree),
                Some(tree) => match symbol_at(tree, data, q) {
                    Err(fault) => Err(fault),
                    Ok((symbol, r)) => if symbol >= 30 {
                        Err(Fault::ReservedDistance)
                    } else {
                        match field(data, r, distance_extra(symbol)) {
                            Err(fault) => Err(fault),
                            Ok(more) => {
                                let distance = distance_base(symbol) + more;
                                if distance > out.len() {
                                    Err(Fault::MatchPrecedesWindow)
                                } else if out.len() + length > limit {
                                    Err(Fault::OutputExceedsLength)
                                } else {
                                    Ok(
                                        (
                                            r + distance_extra(symbol),
                                            copy_match(out, distance, length as nat),
                                        ),
                                    )
                                }
                            },
                        }
                    },
                },
            }
        },
    }
}

/// One element of a compressed block: the position behind it and the longer output, or no
/// output at the end of the block.
pub open spec fn element_at(
    data: Seq<u8>,
    p: int,
    out: Seq<u8>,
    limit: int,
    literals: Seq<u8>,
    distances: Option<Seq<u8>>,
) -> Result<(int, Option<Seq<u8>>), Fault> {
    match symbol_at(literals, data, p) {
        Err(fault) => Err(fault),
        Ok((symbol, q)) => if symbol <= 255 {
            if out.len() == limit {
                Err(Fault::OutputExceedsLength)
            } else {
                Ok((q, Some(out.push(symbol as u8))))
            }
        } else if symbol == 256 {
            Ok((q, None))
        } else if symbol <= 285 {
            match match_at(data, q, out, limit, symbol - 257, distances) {
                Err(fault) => Err(fault),
                Ok((r, longer)) => Ok((r, Some(longer))),
            }
        } else {
            Err(Fault::ReservedLiteral)
        },
    }
}

/// The rest of a compressed block: the position behind it and the longer output.
pub open spec fn elements_at(
    data: Seq<u8>,
    p: int,
    out: Seq<u8>,
    limit: int,
    literals: Seq<u8>,
    distances: Option<Seq<u8>>,
) -> Result<(int, Seq<u8>), Fault>
    decreases 8 * data.len() - p,
{
    match element_at(data, p, out, limit, literals, distances) {
        Err(fault) => Err(fault),
        Ok((q, None)) => Ok((q, out)),
        Ok((q, Some(longer))) => elements_at(data, q, longer, limit, literals, distances),
    }
}

/// A stored block behind its three header bits.
pub open spec fn stored_at(data: Seq<u8>, p: int, out: Seq<u8>, limit: int) -> Result<
    (int, Seq<u8>),
    Fault,
> {
    let start = (p + 7) / 8 * 8;
    match field(data, start, 16) {
        Err(fault) => Err(fault),
        Ok(length) => match field(data, start + 16, 16) {
            Err(fault) => Err(fault),
            Ok(complement) => if length + complement != 0xffff {
                Err(Fault::StoredComplement)
            } else if out.len() + length > limit {
                Err(Fault::OutputExceedsLength)
            } else if start + 32 + 8 * length > 8 * data.len() {
                Err(Fault::TruncatedStream)
            } else {
                let first = start / 8 + 4;
                Ok((start + 32 + 8 * length, out + data.subrange(first, first + length)))
            },
        },
    }
}

/// The order in which a dynamic block lists the lengths of its code-length code.
pub open spec fn code_length_order(i: int) -> int {
    seq![16int, 17, 18, 0, 8, 7, 9, 6, 10, 5, 11, 4, 12, 3, 13, 2, 14, 1, 15][i]
}

/// The three-bit lengths `i` up to `count` of the code-length code.
pub open spec fn code_length_lengths(
    data: Seq<u8>,
    p: int,
    i: int,
    count: int,
    lengths: Seq<u8>,
) -> Result<(int, Seq<u8>), Fault>
    decreases count - i,
{
    if i >= count {
        Ok((p, lengths))
    } else {
        match field(data, p, 3) {
            Err(fault) => Err(fault),
            Ok(length) => code_length_lengths(
                data,
                p + 3,
                i + 1,
                count,
                lengths.update(code_length_order(i), length as u8),
            ),
        }
    }
}

/// `count` copies of `length` behind `lengths`, at most `total` in all.
pub open spec fn repeat_length(lengths: Seq<u8>, length: u8, count: int, total: int) -> Result<
    Seq<u8>,
    Fault,
> {
    if lengths.len() + count > total {
        Err(Fault::RepeatExceedsTree)
    } else {
        Ok(lengths + Seq::new(count as nat, |i: int| length))
    }
}

/// One element of the list of code lengths.
pub open spec fn code_length_at(
    data: Seq<u8>,
    p: int,
    tree: Seq<u8>,
    total: int,
    lengths: Seq<u8>,
) -> Result<(int, Seq<u8>), Fault> {
    match symbol_at(tree, data, p) {
        Err(fault) => Err(fault),
        Ok((symbol, q)) => if symbol <= 15 {
            Ok((q, lengths.push(symbol as u8)))
        } else if symbol == 16 && lengths.len() == 0 {
            Err(Fault::RepeatWithoutPredecessor)
        } else {
            let bits: nat = if symbol == 16 {
                2
            } else if symbol == 17 {
                3
            } else {
                7
            };
            let least: int = if symbol == 18 {
                11
            } else {
                3
            };
            let value: u8 = if symbol == 16 {
                lengths.last()
            } else {
                0
            };
            match field(data, q, bits) {
                Err(fault) => Err(fault),
                Ok(more) => match repeat_length(lengths, value, least + more, total) {
                    Err(fault) => Err(fault),
                    Ok(longer) => Ok((q + bits, longer)),
                },
            }
        },
    }
}

/// The list of `total` code lengths.
pub open spec fn code_lengths_at(
    data: Seq<u8>,
    p: int,
    tree: Seq<u8>,
    total: int,
    lengths: Seq<u8>,
) -> Result<(int, Seq<u8>), Fault>
    decreases 8 * data.len() - p,
{
    if lengths.len() >= total {
        Ok((p, lengths))
    } else {
        match code_length_at(data, p, tree, total, lengths) {
            Err(fault) => Err(fault),
            Ok((q, longer)) => code_lengths_at(data, q, tree, total, longer),
        }
    }
}

/// The distance tree that a list of code lengths describes; a single absent code stands for
/// no tree.
pub open spec fn distance_tree(lengths: Seq<u8>) -> Result<Option<Seq<u8>>, Fault> {
    if forall|i: int| 0 <= i < lengths.len() ==> #[trigger] lengths[i] == 0 {
        if lengths.len() != 1 {
            Err(Fault::EmptyDistanceTreeTooLong)
        } else {
            Ok(None)
        }
    } else {
        match tree_fault(lengths) {
            Some(fault) => Err(fault),
            None => Ok(Some(lengths)),
        }
    }
}

/// The trees that a complete list of code lengths describes.
pub open spec fn split_trees(lengths: Seq<u8>, literal_count: int) -> Result<
    (Seq<u8>, Option<Seq<u8>>),
    Fault,
> {
    let literals = lengths.take(literal_count);
    if literals[256] == 0 {
        Err(Fault::MissingEndOfBlock)
    } else {
        match distance_tree(lengths.skip(literal_count)) {
            Err(fault) => Err(fault),
            Ok(distances) => match tree_fault(literals) {
                Some(fault) => Err(fault),
                None => Ok((literals, distances)),
            },
        }
    }
}

/// The trees of a dynamic block, and the position behind them.
pub open spec fn dynamic_trees_at(data: Seq<u8>, p: int) -> Result<
    (int, (Seq<u8>, Option<Seq<u8>>)),
    Fault,
> {
    match (field(data, p, 5), field(data, p + 5, 5), field(data, p + 10, 4)) {
        (Ok(l), Ok(d), Ok(c)) => match code_length_lengths(
            data,
            p + 14,
            0,
            c + 4,
            Seq::new(19, |i: int| 0u8),
        ) {
            Err(fault) => Err(fault),
            Ok((q, tree)) => match tree_fault(tree) {
                Some(fault) => Err(fault),
                None => match code_lengths_at(data, q, tree, l + d + 258, Seq::empty()) {
                    Err(fault) => Err(fault),
                    Ok((r, lengths)) => match split_trees(lengths, l + 257) {
                        Err(fault) => Err(fault),
                        Ok(trees) => Ok((r, trees)),
                    },
                },
            },
        },
        _ => Err(Fault::TruncatedStream),
    }
}

/// The literal code of a fixed block.
pub open spec fn fixed_literals() -> Seq<u8> {
    Seq::new(
        288,
        |i: int|
            if i <= 143 {
                8u8
            } else if i <= 255 {
                9
            } else if i <= 279 {
                7
            } else {
                8
            },
    )
}

/// The distance code of a fixed block.
pub open spec fn fixed_distances() -> Seq<u8> {
    Seq::new(32, |i: int| 5u8)
}

/// One block: whether it is the last one, the position behind it and the longer output.
pub open spec fn block_at(data: Seq<u8>, p: int, out: Seq<u8>, limit: int) -> Result<
    (bool, int, Seq<u8>),
    Fault,
> {
    match (field(data, p, 1), field(data, p + 1, 2)) {
        (Ok(last), Ok(kind)) => {
            let content = if kind == 0 {
                stored_at(data, p + 3, out, limit)
            } else if kind == 1 {
                elements_at(
                    data,
                    p + 3,
                    out,
                    limit,
                    fixed_literals(),
                    Some(fixed_distances()),
                )
            } else if kind == 2 {
                match dynamic_trees_at(data, p + 3) {
                    Err(fault) => Err(fault),
                    Ok((q, (literals, distances))) => elements_at(
                        data,
                        q,
                        out,
                        limit,
                        literals,
                        distances,
                    ),
                }
            } else {
                Err(Fault::ReservedBlockType)
            };
            match content {
                Err(fault) => Err(fault),
                Ok((q, longer)) => Ok((last != 0, q, longer)),
            }
        },
        _ => Err(Fault::TruncatedStream),
    }
}

/// What the blocks from bit `p` on add to `out`.
pub open spec fn blocks_at(data: Seq<u8>, p: int, out: Seq<u8>, limit: int) -> Result<
    Seq<u8>,
    Fault,
>
    decreases 8 * data.len() - p,
{
    match block_at(data, p, out, limit) {
        Err(fault) => Err(fault),
        Ok((last, q, longer)) => if last {
            Ok(longer)
        } else {
            proof {
                lemma_block_advances(data, p, out, limit);
            }
            blocks_at(data, q, longer, limit)
        },
    }
}

/// What the raw DEFLATE stream `data` decodes to, given that it must be `expected` bytes.
pub open spec fn inflate(data: Seq<u8>, expected: usize) -> Result<Seq<u8>, Fault> {
    match blocks_at(data, 0, Seq::empty(), expected as int) {
        Err(fault) => Err(fault),
        Ok(out) => if out.len() != expected {
            Err(Fault::LengthMismatch { expected, actual: out.len() as usize })
        } else {
            Ok(out)
        },
    }
}

pub proof fn lemma_copy_match_len(out: Seq<u8>, distance: int, n: nat)
    ensures
        copy_match(out, distance, n).len() == out.len() + n,
    decreases n,
{
    if n > 0 {
        lemma_copy_match_len(out.push(out[out.len() - distance]), distance, (n - 1) as nat);
    }
}

proof fn lemma_code_length_lengths_position(
    data: Seq<u8>,
    p: int,
    i: int,
    count: int,
    lengths: Seq<u8>,
)
    ensures
        code_length_lengths(data, p, i, count, lengths) matches Ok((q, longer)) ==> p <= q,
    decreases count - i,
{
    if i < count && field(data, p, 3) is Ok {
        lemma_code_length_lengths_position(
            data,
            p + 3,
            i + 1,
            count,
            lengths.update(code_length_order(i), field(data, p, 3)->Ok_0 as u8),
        );
    }
}

/// Every block takes at least its three header bits.
pub proof fn lemma_block_advances(data: Seq<u8>, p: int, out: Seq<u8>, limit: int)
    ensures
        block_at(data, p, out, limit) matches Ok((last, q, longer)) ==> q > p && q <= 8
            * data.len(),
{
    if let Ok((last, q, longer)) = block_at(data, p, out, limit) {
        let kind = bits_at(data, p + 1, 2);
        if kind == 0 {
            let start = (p + 10) / 8 * 8;
            lemma_bits_at_bound(data, start, 16);
        } else if kind == 1 {
            lemma_elements_position(
                data,
                p + 3,
                out,
                limit,
                fixed_literals(),
                Some(fixed_distances()),
            );
        } else {
            let (r, (literals, distances)) = dynamic_trees_at(data, p + 3)->Ok_0;
            lemma_dynamic_trees_position(data, p + 3);
            lemma_elements_position(data, r, out, limit, literals, distances);
        }
    }
}

proof fn lemma_elements_position(
    data: Seq<u8>,
    p: int,
    out: Seq<u8>,
    limit: int,
    literals: Seq<u8>,
    distances: Option<Seq<u8>>,
)
    ensures
        elements_at(data, p, out, limit, literals, distances) matches Ok((q, longer)) ==> q > p
            && q <= 8 * data.len(),
    decreases 8 * data.len() - p,
{
    match element_at(data, p, out, limit, literals, distances) {
        Ok((q, Some(longer))) => {
            lemma_elements_position(data, q, longer, limit, literals, distances);
        },
        _ => {},
    }
}

proof fn lemma_code_lengths_position(
    data: Seq<u8>,
    p: int,
    tree: Seq<u8>,
    total: int,
    lengths: Seq<u8>,
)
    ensures
        code_lengths_at(data, p, tree, total, lengths) matches Ok((q, longer)) ==> p <= q,
    decreases 8 * data.len() - p,
{
    if lengths.len() < total {
        match code_length_at(data, p, tree, total, lengths) {
            Ok((q, longer)) => {
                lemma_code_lengths_position(data, q, tree, total, longer);
            },
            _ => {},
        }
    }
}

proof fn lemma_dynamic_trees_position(data: Seq<u8>, p: int)
    ensures
        dynamic_trees_at(data, p) matches Ok((q, trees)) ==> p < q,
{
    if let Ok((q, trees)) = dynamic_trees_at(data, p) {
        let l = bits_at(data, p, 5);
        let d = bits_at(data, p + 5, 5);
        let c = bits_at(data, p + 10, 4);
        let zeros = Seq::new(19, |i: int| 0u8);
        lemma_code_length_lengths_position(data, p + 14, 0, c + 4, zeros);
        let (r, tree) = code_length_lengths(data, p + 14, 0, c + 4, zeros)->Ok_0;
        lemma_code_lengths_position(data, r, tree, l + d + 258, Seq::empty());
    }
}

/// The order in which a dynamic block lists the lengths of its code-length code.
fn code_length_position(i: usize) -> (position: usize)
    requires
        i < 19,
    ensures
        position == code_length_order(i as int),
        position < 19,
{
    let order: [usize; 19] = [16, 17, 18, 0, 8, 7, 9, 6, 10, 5, 11, 4, 12, 3, 13, 2, 14, 1, 15];
    order[i]
}

/// The literal code lengths of a fixed block.
pub fn fixed_literal_lengths() -> (lengths: Vec<u8>)
    ensures
        lengths@ == fixed_literals(),
{
    let mut lengths: Vec<u8> = Vec::with_capacity(288);
    let mut i: usize = 0;
    while i < 288
        invariant
            i <= 288,
            lengths@.len() == i,
            forall|k: int| 0 <= k < i ==> #[trigger] lengths@[k] == fixed_literals()[k],
        decreases 288 - i,
    {
        let length: u8 = if i <= 143 {
            8
        } else if i <= 255 {
            9
        } else if i <= 279 {
            7
        } else {
            8
        };
        lengths.push(length);
        i += 1;
    }
    assert(lengths@ =~= fixed_literals());
    lengths
}

/// The distance code lengths of a fixed block.
pub fn fixed_distance_lengths() -> (lengths: Vec<u8>)
    ensures
        lengths@ == fixed_distances(),
{
    let lengths: Vec<u8> = vec![5; 32];
    assert(lengths@ =~= fixed_distances());
    lengths
}

/// Decodes a stored block behind its header bits.
fn decode_stored(reader: &mut BitReader<'_>, output: &mut Vec<u8>, limit: usize) -> (result: Result<
    (),
    Fault,
>)
    requires
        old(reader).wf(),
        old(output)@.len() <= limit,
    ensures
        final(reader).wf(),
        final(reader).data() == old(reader).data(),
        match stored_at(old(reader).data(), old(reader).at(), old(output)@, limit as int) {
            Ok((q, longer)) => result is Ok && final(reader).at() == q && final(output)@ == longer
                && longer.len() <= limit,
            Err(fault) => result == Err::<(), Fault>(fault),
        },
{
    reader.align_to_byte();
    let ghost start = reader.at();
    let ghost data = reader.data();
    proof {
        lemma2_to64();
        lemma_bits_at_bound(data, start, 16);
        lemma_bits_at_bound(data, start + 16, 16);
    }
    let length: usize = match reader.read_bits(16) {
        Some(bits) => bits as usize,
        None => return Err(Fault::TruncatedStream),
    };
    let complement: usize = match reader.read_bits(16) {
        Some(bits) => bits as usize,
        None => return Err(Fault::TruncatedStream),
    };
    if length + complement != 0xffff {
        return Err(Fault::StoredComplement);
    }
    if length > limit - output.len() {
        return Err(Fault::OutputExceedsLength);
    }
    let mut i: usize = 0;
    let ghost first = start / 8 + 4;
    proof {
        assert(output@ + data.subrange(first, first) =~= output@);
        reader.lemma_at_in_range();
    }
    while i < length
        invariant
            i <= length,
            reader.wf(),
            reader.data() == data,
            reader.at() == 8 * (first + i),
            start + 32 == 8 * first,
            first >= 0,
            first + i <= data.len(),
            output@ == old(output)@ + data.subrange(first, first + i),
            length <= limit - old(output)@.len(),
            old(reader).data() == data,
            start == (old(reader).at() + 7) / 8 * 8,
            field(data, start, 16) == Ok::<int, Fault>(length as int),
            field(data, start + 16, 16) == Ok::<int, Fault>(0xffff - length),
        decreases length - i,
    {
        match reader.read_bits(8) {
            Some(bits) => {
                proof {
                    lemma_bits_at_byte(data, first + i);
                    assert(data.subrange(first, first + i + 1) =~= data.subrange(
                        first,
                        first + i,
                    ).push(data[first + i]));
                }
                output.push(bits as u8);
            },
            None => return Err(Fault::TruncatedStream),
        }
        i += 1;
    }
    Ok(())
}

/// Appends `length` bytes, each the one `distance` places before it.
pub fn append_match(output: &mut Vec<u8>, distance: usize, length: usize)
    requires
        1 <= distance <= old(output)@.len(),
        old(output)@.len() + length <= usize::MAX,
    ensures
        final(output)@ == copy_match(old(output)@, distance as int, length as nat),
        final(output)@.len() == old(output)@.len() + length,
{
    let mut i: usize = 0;
    while i < length
        invariant
            i <= length,
            1 <= distance <= output@.len(),
            output@.len() == old(output)@.len() + i,
            copy_match(output@, distance as int, (length - i) as nat) == copy_match(
                old(output)@,
                distance as int,
                length as nat,
            ),
        decreases length - i,
    {
        let byte: u8 = output[output.len() - distance];
        output.push(byte);
        i += 1;
    }
}

/// Decodes the match behind length symbol `257 + index`.
fn decode_match(
    reader: &mut BitReader<'_>,
    output: &mut Vec<u8>,
    limit: usize,
    index: usize,
    distance: Option<&Huffman>,
) -> (result: Result<(), Fault>)
    requires
        index < 29,
        old(reader).wf(),
        old(output)@.len() <= limit,
        distance matches Some(tree) ==> tree.wf(),
    ensures
        final(reader).wf(),
        final(reader).data() == old(reader).data(),
        match match_at(
            old(reader).data(),
            old(reader).at(),
            old(output)@,
            limit as int,
            index as int,
            tree_lengths(distance),
        ) {
            Ok((q, longer)) => result is Ok && final(reader).at() == q && final(output)@ == longer
                && longer.len() <= limit,
            Err(fault) => result == Err::<(), Fault>(fault),
        },
{
    let (base, extra) = length_parameters(index);
    let ghost data = reader.data();
    proof {
        lemma2_to64();
        lemma_pow2_monotonic(extra as nat, 5);
        lemma_bits_at_bound(data, reader.at(), extra as nat);
    }
    let length: usize = match reader.read_bits(extra) {
        Some(bits) => base + bits as usize,
        None => return Err(Fault::TruncatedStream),
    };
    let tree = match distance {
        Some(tree) => tree,
        None => return Err(Fault::EmptyDistanceTree),
    };
    let symbol: usize = match tree.decode(reader) {
        Ok(symbol) => symbol as usize,
        Err(fault) => return Err(fault),
    };
    proof {
        tree.lemma_valid();
    }
    if symbol >= 30 {
        return Err(Fault::ReservedDistance);
    }
    let (distance_start, distance_bits) = distance_parameters(symbol);
    proof {
        lemma_pow2_monotonic(distance_bits as nat, 13);
        lemma_bits_at_bound(data, reader.at(), distance_bits as nat);
    }
    let back: usize = match reader.read_bits(distance_bits) {
        Some(bits) => distance_start + bits as usize,
        None => return Err(Fault::TruncatedStream),
    };
    if back > output.len() {
        return Err(Fault::MatchPrecedesWindow);
    }
    if length > limit - output.len() {
        return Err(Fault::OutputExceedsLength);
    }
    append_match(output, back, length);
    Ok(())
}

/// The code lengths of an optional tree.
pub open spec fn tree_lengths(tree: Option<&Huffman>) -> Option<Seq<u8>> {
    match tree {
        Some(tree) => Some(tree.lengths()),
        None => None,
    }
}

/// Decodes the elements of a compressed block up to its end.
fn decode_huffman_block(
    reader: &mut BitReader<'_>,
    output: &mut Vec<u8>,
    limit: usize,
    literal: &Huffman,
    distance: Option<&Huffman>,
) -> (result: Result<(), Fault>)
    requires
        old(reader).wf(),
        old(output)@.len() <= limit,
        literal.wf(),
        distance matches Some(tree) ==> tree.wf(),
    ensures
        final(reader).wf(),
        final(reader).data() == old(reader).data(),
        match elements_at(
            old(reader).data(),
            old(reader).at(),
            old(output)@,
            limit as int,
            literal.lengths(),
            tree_lengths(distance),
        ) {
            Ok((q, longer)) => result is Ok && final(reader).at() == q && final(output)@ == longer
                && longer.len() <= limit,
            Err(fault) => result == Err::<(), Fault>(fault),
        },
{
    let ghost data = reader.data();
    let ghost whole = elements_at(
        data,
        reader.at(),
        output@,
        limit as int,
        literal.lengths(),
        tree_lengths(distance),
    );
    loop
        invariant
            reader.wf(),
            reader.data() == data,
            old(reader).data() == data,
            output@.len() <= limit,
            literal.wf(),
            distance matches Some(tree) ==> tree.wf(),
            whole == elements_at(
                data,
                old(reader).at(),
                old(output)@,
                limit as int,
                literal.lengths(),
                tree_lengths(distance),
            ),
            whole == elements_at(
                data,
                reader.at(),
                output@,
                limit as int,
                literal.lengths(),
                tree_lengths(distance),
            ),
        decreases 8 * data.len() - reader.at(),
    {
        let ghost p = reader.at();
        let symbol: usize = match literal.decode(reader) {
            Ok(symbol) => symbol as usize,
            Err(fault) => return Err(fault),
        };
        proof {
            literal.lemma_valid();
            reader.lemma_at_in_range();
        }
        if symbol <= 255 {
            if output.len() == limit {
                return Err(Fault::OutputExceedsLength);
            }
            output.push(symbol as u8);
        } else if symbol == 256 {
            return Ok(());
        } else if symbol <= 285 {
            match decode_match(reader, output, limit, symbol - 257, distance) {
                Ok(()) => {},
                Err(fault) => return Err(fault),
            }
            proof {
                reader.lemma_at_in_range();
            }
        } else {
            return Err(Fault::ReservedLiteral);
        }
    }
}

/// Appends `count` copies of `value`, at most `total` lengths in all.
fn extend_lengths(lengths: &mut Vec<u8>, value: u8, count: usize, total: usize) -> (result: Result<
    (),
    Fault,
>)
    requires
        old(lengths)@.len() <= total,
    ensures
        match repeat_length(old(lengths)@, value, count as int, total as int) {
            Ok(longer) => result is Ok && final(lengths)@ == longer,
            Err(fault) => result == Err::<(), Fault>(fault),
        },
{
    if count > total - lengths.len() {
        return Err(Fault::RepeatExceedsTree);
    }
    let mut i: usize = 0;
    while i < count
        invariant
            i <= count,
            lengths@ =~= old(lengths)@ + Seq::new(i as nat, |k: int| value),
        decreases count - i,
    {
        lengths.push(value);
        i += 1;
    }
    assert(lengths@ =~= old(lengths)@ + Seq::new(count as nat, |k: int| value));
    Ok(())
}

/// Reads one element of the list of code lengths.
fn read_code_length(
    reader: &mut BitReader<'_>,
    code_tree: &Huffman,
    lengths: &mut Vec<u8>,
    total: usize,
) -> (result: Result<(), Fault>)
    requires
        old(reader).wf(),
        code_tree.wf(),
        code_tree.lengths().len() == 19,
        old(lengths)@.len() < total <= 0xffff,
    ensures
        final(reader).wf(),
        final(reader).data() == old(reader).data(),
        match code_length_at(
            old(reader).data(),
            old(reader).at(),
            code_tree.lengths(),
            total as int,
            old(lengths)@,
        ) {
            Ok((q, longer)) => result is Ok && final(reader).at() == q && q > old(reader).at()
                && final(lengths)@ == longer && longer.len() <= total,
            Err(fault) => result == Err::<(), Fault>(fault),
        },
{
    let symbol: u16 = match code_tree.decode(reader) {
        Ok(symbol) => symbol,
        Err(fault) => return Err(fault),
    };
    if symbol <= 15 {
        lengths.push(symbol as u8);
        return Ok(());
    }
    if symbol == 16 && lengths.len() == 0 {
        return Err(Fault::RepeatWithoutPredecessor);
    }
    let bits: usize = if symbol == 16 {
        2
    } else if symbol == 17 {
        3
    } else {
        7
    };
    let least: usize = if symbol == 18 {
        11
    } else {
        3
    };
    let value: u8 = if symbol == 16 {
        lengths[lengths.len() - 1]
    } else {
        0
    };
    proof {
        lemma2_to64();
        lemma_bits_at_bound(reader.data(), reader.at(), bits as nat);
    }
    let more: usize = match reader.read_bits(bits) {
        Some(more) => more as usize,
        None => return Err(Fault::TruncatedStream),
    };
    extend_lengths(lengths, value, least + more, total)
}

/// Reads a list of `total` code lengths.
fn read_code_lengths(reader: &mut BitReader<'_>, code_tree: &Huffman, total: usize) -> (result:
    Result<Vec<u8>, Fault>)
    requires
        old(reader).wf(),
        code_tree.wf(),
        code_tree.lengths().len() == 19,
        total <= 0xffff,
    ensures
        final(reader).wf(),
        final(reader).data() == old(reader).data(),
        match code_lengths_at(
            old(reader).data(),
            old(reader).at(),
            code_tree.lengths(),
            total as int,
            Seq::empty(),
        ) {
            Ok((q, longer)) => result is Ok && final(reader).at() == q && result->Ok_0@ == longer
                && longer.len() == total,
            Err(fault) => result == Err::<Vec<u8>, Fault>(fault),
        },
{
    let ghost data = reader.data();
    let ghost whole = code_lengths_at(
        data,
        reader.at(),
        code_tree.lengths(),
        total as int,
        Seq::empty(),
    );
    let mut lengths: Vec<u8> = Vec::with_capacity(total);
    assert(lengths@ =~= Seq::<u8>::empty());
    while lengths.len() < total
        invariant
            reader.wf(),
            reader.data() == data,
            code_tree.wf(),
            code_tree.lengths().len() == 19,
            lengths@.len() <= total <= 0xffff,
            old(reader).data() == data,
            whole == code_lengths_at(
                data,
                old(reader).at(),
                code_tree.lengths(),
                total as int,
                Seq::empty(),
            ),
            whole == code_lengths_at(
                data,
                reader.at(),
                code_tree.lengths(),
                total as int,
                lengths@,
            ),
        decreases 8 * data.len() - reader.at(),
    {
        match read_code_length(reader, code_tree, &mut lengths, total) {
            Ok(()) => {},
            Err(fault) => return Err(fault),
        }
        proof {
            reader.lemma_at_in_range();
        }
    }
    Ok(lengths)
}

/// Reads the code-length code of a dynamic block.
fn read_code_tree(reader: &mut BitReader<'_>, count: usize) -> (result: Result<Vec<u8>, Fault>)
    requires
        old(reader).wf(),
        count <= 19,
    ensures
        final(reader).wf(),
        final(reader).data() == old(reader).data(),
        match code_length_lengths(
            old(reader).data(),
            old(reader).at(),
            0,
            count as int,
            Seq::new(19, |i: int| 0u8),
        ) {
            Ok((q, lengths)) => result is Ok && final(reader).at() == q && result->Ok_0@ == lengths
                && lengths.len() == 19,
            Err(fault) => result == Err::<Vec<u8>, Fault>(fault),
        },
{
    let ghost data = reader.data();
    let ghost whole = code_length_lengths(
        data,
        reader.at(),
        0,
        count as int,
        Seq::new(19, |i: int| 0u8),
    );
    let mut lengths: Vec<u8> = vec![0; 19];
    assert(lengths@ =~= Seq::new(19, |i: int| 0u8));
    let mut i: usize = 0;
    while i < count
        invariant
            reader.wf(),
            reader.data() == data,
            i <= count <= 19,
            lengths@.len() == 19,
            old(reader).data() == data,
            whole == code_length_lengths(
                data,
                old(reader).at(),
                0,
                count as int,
                Seq::new(19, |i: int| 0u8),
            ),
            whole == code_length_lengths(data, reader.at(), i as int, count as int, lengths@),
        decreases count - i,
    {
        proof {
            lemma2_to64();
            lemma_bits_at_bound(data, reader.at(), 3);
        }
        match reader.read_bits(3) {
            Some(bits) => {
                lengths.set(code_length_position(i), bits as u8);
            },
            None => return Err(Fault::TruncatedStream),
        }
        i += 1;
    }
    Ok(lengths)
}

/// Builds the trees that a complete list of code lengths describes.
fn build_trees(lengths: &Vec<u8>, literal_count: usize) -> (result: Result<
    (Huffman, Option<Huffman>),
    Fault,
>)
    requires
        257 <= literal_count < lengths@.len() <= 0xffff,
    ensures
        match split_trees(lengths@, literal_count as int) {
            Ok((literals, distances)) => {
                &&& result is Ok
                &&& result->Ok_0.0.wf()
                &&& result->Ok_0.0.lengths() == literals
                &&& match result->Ok_0.1 {
                    Some(tree) => tree.wf() && distances == Some(tree.lengths()),
                    None => distances is None,
                }
            },
            Err(fault) => result == Err::<(Huffman, Option<Huffman>), Fault>(fault),
        },
{
    let literal_lengths = vstd::slice::slice_subrange(lengths.as_slice(), 0, literal_count);
    let distance_lengths = vstd::slice::slice_subrange(
        lengths.as_slice(),
        literal_count,
        lengths.len(),
    );
    assert(literal_lengths@ =~= lengths@.take(literal_count as int));
    assert(distance_lengths@ =~= lengths@.skip(literal_count as int));
    if literal_lengths[256] == 0 {
        return Err(Fault::MissingEndOfBlock);
    }
    let mut empty: bool = true;
    let mut i: usize = 0;
    while i < distance_lengths.len()
        invariant
            i <= distance_lengths@.len(),
            empty == (forall|k: int| 0 <= k < i ==> #[trigger] distance_lengths@[k] == 0),
        decreases distance_lengths.len() - i,
    {
        if distance_lengths[i] != 0 {
            empty = false;
        }
        i += 1;
    }
    let distance = if empty {
        if distance_lengths.len() != 1 {
            return Err(Fault::EmptyDistanceTreeTooLong);
        }
        None
    } else {
        match Huffman::new(distance_lengths) {
            Ok(tree) => Some(tree),
            Err(fault) => return Err(fault),
        }
    };
    match Huffman::new(literal_lengths) {
        Ok(tree) => Ok((tree, distance)),
        Err(fault) => Err(fault),
    }
}

/// Reads the trees of a dynamic block.
fn read_dynamic_trees(reader: &mut BitReader<'_>) -> (result: Result<
    (Huffman, Option<Huffman>),
    Fault,
>)
    requires
        old(reader).wf(),
    ensures
        final(reader).wf(),
        final(reader).data() == old(reader).data(),
        match dynamic_trees_at(old(reader).data(), old(reader).at()) {
            Ok((q, (literals, distances))) => {
                &&& result is Ok
                &&& final(reader).at() == q
                &&& result->Ok_0.0.wf()
                &&& result->Ok_0.0.lengths() == literals
                &&& match result->Ok_0.1 {
                    Some(tree) => tree.wf() && distances == Some(tree.lengths()),
                    None => distances is None,
                }
            },
            Err(fault) => result == Err::<(Huffman, Option<Huffman>), Fault>(fault),
        },
{
    let ghost data = reader.data();
    let ghost p = reader.at();
    proof {
        lemma2_to64();
        lemma_bits_at_bound(data, p, 5);
        lemma_bits_at_bound(data, p + 5, 5);
        lemma_bits_at_bound(data, p + 10, 4);
    }
    let literal_count: usize = match reader.read_bits(5) {
        Some(bits) => bits as usize + 257,
        None => return Err(Fault::TruncatedStream),
    };
    let distance_count: usize = match reader.read_bits(5) {
        Some(bits) => bits as usize + 1,
        None => return Err(Fault::TruncatedStream),
    };
    let code_count: usize = match reader.read_bits(4) {
        Some(bits) => bits as usize + 4,
        None => return Err(Fault::TruncatedStream),
    };
    let code_lengths = match read_code_tree(reader, code_count) {
        Ok(lengths) => lengths,
        Err(fault) => return Err(fault),
    };
    let code_tree = match Huffman::new(code_lengths.as_slice()) {
        Ok(tree) => tree,
        Err(fault) => return Err(fault),
    };
    let lengths = match read_code_lengths(reader, &code_tree, literal_count + distance_count) {
        Ok(lengths) => lengths,
        Err(fault) => return Err(fault),
    };
    build_trees(&lengths, literal_count)
}

/// Decodes one block; reports whether it is the last one.
fn decode_block(reader: &mut BitReader<'_>, output: &mut Vec<u8>, limit: usize) -> (result: Result<
    bool,
    Fault,
>)
    requires
        old(reader).wf(),
        old(output)@.len() <= limit,
    ensures
        final(reader).wf(),
        final(reader).data() == old(reader).data(),
        match block_at(old(reader).data(), old(reader).at(), old(output)@, limit as int) {
            Ok((last, q, longer)) => result == Ok::<bool, Fault>(last) && final(reader).at() == q
                && final(output)@ == longer && longer.len() <= limit,
            Err(fault) => result == Err::<bool, Fault>(fault),
        },
{
    let final_block: bool = match reader.read_bits(1) {
        Some(bits) => bits != 0,
        None => return Err(Fault::TruncatedStream),
    };
    let kind: u64 = match reader.read_bits(2) {
        Some(bits) => bits,
        None => return Err(Fault::TruncatedStream),
    };
    let content = if kind == 0 {
        decode_stored(reader, output, limit)
    } else if kind == 1 {
        proof {
            lemma_fixed_trees();
        }
        let literal = match Huffman::new(fixed_literal_lengths().as_slice()) {
            Ok(tree) => tree,
            Err(fault) => return Err(fault),
        };
        let distance = match Huffman::new(fixed_distance_lengths().as_slice()) {
            Ok(tree) => tree,
            Err(fault) => return Err(fault),
        };
        decode_huffman_block(reader, output, limit, &literal, Some(&distance))
    } else if kind == 2 {
        let (literal, distance) = match read_dynamic_trees(reader) {
            Ok(trees) => trees,
            Err(fault) => return Err(fault),
        };
        decode_huffman_block(reader, output, limit, &literal, distance.as_ref())
    } else {
        return Err(Fault::ReservedBlockType);
    };
    match content {
        Ok(()) => Ok(final_block),
        Err(fault) => Err(fault),
    }
}

/// Decodes a raw DEFLATE stream to exactly `expected_length` bytes. The storage of `output` is
/// reused.
pub fn decode_raw_with_buffer(input: &[u8], expected_length: usize, output: Vec<u8>) -> (result:
    Result<Vec<u8>, Fault>)
    ensures
        match inflate(input@, expected_length) {
            Ok(out) => result is Ok && result->Ok_0@ == out,
            Err(fault) => result == Err::<Vec<u8>, Fault>(fault),
        },
{
    let mut reader = BitReader::new(input);
    let mut output = output;
    output.clear();
    let ghost whole = blocks_at(input@, 0, Seq::empty(), expected_length as int);
    assert(output@ =~= Seq::<u8>::empty());
    loop
        invariant_except_break
            whole == blocks_at(input@, reader.at(), output@, expected_length as int),
        invariant
            reader.wf(),
            reader.data() == input@,
            output@.len() <= expected_length,
            whole == blocks_at(input@, 0, Seq::empty(), expected_length as int),
        ensures
            whole == Ok::<Seq<u8>, Fault>(output@),
        decreases 8 * input@.len() - reader.at(),
    {
        let ghost p = reader.at();
        let ghost before = output@;
        match decode_block(&mut reader, &mut output, expected_length) {
            Ok(last) => {
                proof {
                    lemma_block_advances(input@, p, before, expected_length as int);
                }
                if last {
                    break;
                }
            },
            Err(fault) => return Err(fault),
        }
    }
    if output.len() != expected_length {
        return Err(
            Fault::LengthMismatch { expected: expected_length, actual: output.len() },
        );
    }
    Ok(output)
}

} // verus!
