//! The LZMA symbol encoder.

use vstd::arithmetic::power2::{lemma2_to64, lemma_pow2_pos, pow2};
use vstd::prelude::*;

use crate::codecs::lzma::coder::{moderate, Writer};
use crate::codecs::lzma::decoding::{Action, StreamShape};
use crate::codecs::lzma::operations::{
    continues, history_ok, lemma_indices, lemma_literal_fits, model_count, put_end_marker,
    put_literal, put_operation, put_rep_index, shape_ok, History,
};
use crate::codecs::lzma::range::RangeEncoder;
use crate::codecs::lzma::symbols::{
    highest_bit, lemma_highest_bit, lemma_matched_fits_step, lemma_slot_base, lemma_slot_of,
    lemma_tree_fits_step, lemma_whole_tree_fits, matched_fits, put_distance, put_length,
    put_matched, put_reverse, put_tree, slot_of, tree_fits, ALIGN, IS_MATCH, IS_REP, IS_REP0_LONG,
    IS_REP_G0, IS_REP_G1, IS_REP_G2, LEN, LITERAL, POS_SLOT, REP_LEN, SPEC_POS,
};
use crate::math::{lemma_pow2_monotonic, lemma_pow2_step, power_of_two};

verus! {

/// The encoder together with its models.
pub open spec fn writer_of(encoder: RangeEncoder, probs: Seq<u16>) -> Writer {
    Writer { interval: encoder.interval(), probs }
}

/// The encoder and its models are in order.
pub open spec fn in_order(encoder: RangeEncoder, probs: Seq<u16>) -> bool {
    encoder.wf() && moderate(probs)
}

/// Encodes the `bits` lowest bits of `symbol` through a tree, most significant bit first.
pub fn encode_tree(
    encoder: &mut RangeEncoder,
    probs: &mut Vec<u16>,
    base: usize,
    bits: usize,
    start: usize,
    symbol: usize,
)
    requires
        in_order(*old(encoder), old(probs)@),
        bits <= 8,
        base <= 0x1000_0000,
        (start + 1) * pow2(bits as nat) <= 0x1_0000,
        tree_fits(old(probs)@.len(), base as int, bits as nat, start as int),
    ensures
        in_order(*final(encoder), final(probs)@),
        final(probs)@.len() == old(probs)@.len(),
        writer_of(*final(encoder), final(probs)@) == put_tree(
            writer_of(*old(encoder), old(probs)@),
            base as int,
            bits as nat,
            start as int,
            symbol as int,
        ),
{
    let mut m: usize = start;
    let mut left: usize = bits;
    let ghost whole = put_tree(
        writer_of(*encoder, probs@),
        base as int,
        bits as nat,
        start as int,
        symbol as int,
    );
    while left > 0
        invariant
            in_order(*encoder, probs@),
            probs@.len() == old(probs)@.len(),
            left <= bits <= 8,
            base <= 0x1000_0000,
            (m + 1) * pow2(left as nat) <= 0x1_0000,
            tree_fits(probs@.len(), base as int, left as nat, m as int),
            whole == put_tree(
                writer_of(*encoder, probs@),
                base as int,
                left as nat,
                m as int,
                symbol as int,
            ),
        decreases left,
    {
        let weight: usize = power_of_two(left - 1) as usize;
        proof {
            lemma_pow2_monotonic((left - 1) as nat, 7);
            lemma_pow2_step((left - 1) as nat);
            lemma2_to64();
            lemma_tree_fits_step(probs@.len(), base as int, left as nat, m as int, 0);
            lemma_tree_fits_step(probs@.len(), base as int, left as nat, m as int, 1);
            let p = pow2((left - 1) as nat) as int;
            assert((m + 1) * (2 * p) >= 2 * (m + 1)) by (nonlinear_arith)
                requires
                    p >= 1,
            ;
        }
        let bit: usize = (symbol / weight) % 2;
        encoder.encode_bit(probs, base + m, bit as u32);
        proof {
            let p = pow2((left - 1) as nat) as int;
            assert((2 * m + bit + 1) * p <= (m + 1) * (2 * p)) by (nonlinear_arith)
                requires
                    0 <= bit <= 1,
                    p > 0,
            ;
        }
        m = 2 * m + bit;
        left -= 1;
    }
}

/// Encodes the `bits` lowest bits of `symbol` through a tree, least significant bit first.
pub fn encode_reverse(
    encoder: &mut RangeEncoder,
    probs: &mut Vec<u16>,
    base: usize,
    bits: usize,
    symbol: u32,
)
    requires
        in_order(*old(encoder), old(probs)@),
        1 <= bits <= 8,
        base <= 0x1000_0000,
        base + pow2(bits as nat) <= old(probs)@.len(),
    ensures
        in_order(*final(encoder), final(probs)@),
        final(probs)@.len() == old(probs)@.len(),
        writer_of(*final(encoder), final(probs)@) == put_reverse(
            writer_of(*old(encoder), old(probs)@),
            base as int,
            bits as nat,
            1,
            symbol as int,
        ),
{
    let mut m: usize = 1;
    let mut left: usize = bits;
    let mut rest: u32 = symbol;
    let ghost whole = put_reverse(
        writer_of(*encoder, probs@),
        base as int,
        bits as nat,
        1,
        symbol as int,
    );
    proof {
        lemma_whole_tree_fits(probs@.len(), base as int, bits as nat);
        lemma_pow2_monotonic(bits as nat, 8);
        lemma2_to64();
    }
    while left > 0
        invariant
            in_order(*encoder, probs@),
            probs@.len() == old(probs)@.len(),
            left <= bits <= 8,
            base <= 0x1000_0000,
            (m + 1) * pow2(left as nat) <= 0x1_0000,
            tree_fits(probs@.len(), base as int, left as nat, m as int),
            whole == put_reverse(
                writer_of(*encoder, probs@),
                base as int,
                left as nat,
                m as int,
                rest as int,
            ),
        decreases left,
    {
        proof {
            lemma_pow2_monotonic((left - 1) as nat, 7);
            lemma_pow2_step((left - 1) as nat);
            lemma2_to64();
            lemma_tree_fits_step(probs@.len(), base as int, left as nat, m as int, 0);
            lemma_tree_fits_step(probs@.len(), base as int, left as nat, m as int, 1);
            let p = pow2((left - 1) as nat) as int;
            assert((m + 1) * (2 * p) >= 2 * (m + 1)) by (nonlinear_arith)
                requires
                    p >= 1,
            ;
        }
        let bit: u32 = rest % 2;
        encoder.encode_bit(probs, base + m, bit);
        proof {
            let p = pow2((left - 1) as nat) as int;
            assert((2 * m + bit + 1) * p <= (m + 1) * (2 * p)) by (nonlinear_arith)
                requires
                    0 <= bit <= 1,
                    p > 0,
            ;
        }
        m = 2 * m + bit as usize;
        rest = rest / 2;
        left -= 1;
    }
}

/// Encodes a literal beside the byte it is expected to equal.
pub fn encode_matched(
    encoder: &mut RangeEncoder,
    probs: &mut Vec<u16>,
    base: usize,
    byte: u8,
    expected: u8,
)
    requires
        in_order(*old(encoder), old(probs)@),
        base <= 0x1000_0000,
        base + 0x300 <= old(probs)@.len(),
    ensures
        in_order(*final(encoder), final(probs)@),
        final(probs)@.len() == old(probs)@.len(),
        writer_of(*final(encoder), final(probs)@) == put_matched(
            writer_of(*old(encoder), old(probs)@),
            base as int,
            8,
            1,
            byte as int,
            expected as int,
        ),
{
    let mut m: usize = 1;
    let mut left: usize = 8;
    let ghost whole = put_matched(
        writer_of(*encoder, probs@),
        base as int,
        8,
        1,
        byte as int,
        expected as int,
    );
    proof {
        lemma_literal_fits(probs@.len(), base as int);
    }
    while left > 0
        invariant
            in_order(*encoder, probs@),
            probs@.len() == old(probs)@.len(),
            left <= 8,
            base <= 0x1000_0000,
            base + 0x300 <= probs@.len(),
            matched_fits(probs@.len(), base as int, left as nat, m as int),
            whole == put_matched(
                writer_of(*old(encoder), old(probs)@),
                base as int,
                8,
                1,
                byte as int,
                expected as int,
            ),
            whole == put_matched(
                writer_of(*encoder, probs@),
                base as int,
                left as nat,
                m as int,
                byte as int,
                expected as int,
            ),
        decreases left,
    {
        let weight: usize = power_of_two(left - 1) as usize;
        proof {
            lemma_pow2_monotonic((left - 1) as nat, 7);
            lemma2_to64();
            lemma_matched_fits_step(probs@.len(), base as int, left as nat, m as int, 0);
            lemma_matched_fits_step(probs@.len(), base as int, left as nat, m as int, 1);
        }
        let bit: usize = (byte as usize / weight) % 2;
        let guess: usize = (expected as usize / weight) % 2;
        encoder.encode_bit(probs, base + (1 + guess) * 256 + m, bit as u32);
        m = 2 * m + bit;
        left -= 1;
        if bit != guess {
            encode_tree(encoder, probs, base, left, m, byte as usize);
            return;
        }
    }
}

/// Encodes a match length, counted from the shortest one.
pub fn encode_length(
    encoder: &mut RangeEncoder,
    probs: &mut Vec<u16>,
    base: usize,
    pos_state: usize,
    length: usize,
)
    requires
        in_order(*old(encoder), old(probs)@),
        base <= 0x1000,
        base + 514 <= old(probs)@.len(),
        pos_state < 16,
        length < 272,
    ensures
        in_order(*final(encoder), final(probs)@),
        final(probs)@.len() == old(probs)@.len(),
        writer_of(*final(encoder), final(probs)@) == put_length(
            writer_of(*old(encoder), old(probs)@),
            base as int,
            pos_state as int,
            length as int,
        ),
{
    proof {
        lemma2_to64();
        lemma_whole_tree_fits(probs@.len(), base + 2 + pos_state * 8, 3);
        lemma_whole_tree_fits(probs@.len(), base + 130 + pos_state * 8, 3);
        lemma_whole_tree_fits(probs@.len(), base + 258, 8);
    }
    if length < 8 {
        encoder.encode_bit(probs, base, 0);
        encode_tree(encoder, probs, base + 2 + pos_state * 8, 3, 1, length);
    } else if length < 16 {
        encoder.encode_bit(probs, base, 1);
        encoder.encode_bit(probs, base + 1, 0);
        encode_tree(encoder, probs, base + 130 + pos_state * 8, 3, 1, length - 8);
    } else {
        encoder.encode_bit(probs, base, 1);
        encoder.encode_bit(probs, base + 1, 1);
        encode_tree(encoder, probs, base + 258, 8, 1, length - 16);
    }
}

/// The position of the highest one bit.
fn top_bit(value: u32) -> (bit: usize)
    requires
        value >= 1,
    ensures
        bit == highest_bit(value as int),
        bit < 32,
{
    let mut rest: u32 = value;
    let mut bit: usize = 0;
    proof {
        lemma_highest_bit(value as int);
        lemma2_to64();
        if highest_bit(value as int) >= 32 {
            lemma_pow2_monotonic(32, highest_bit(value as int));
        }
    }
    while rest >= 2
        invariant
            rest >= 1,
            bit + highest_bit(rest as int) == highest_bit(value as int),
            highest_bit(value as int) < 32,
        decreases rest,
    {
        rest = rest / 2;
        bit += 1;
    }
    bit
}

/// The slot of a distance.
pub fn get_pos_slot(distance: u32) -> (slot: u32)
    ensures
        slot == slot_of(distance as int),
        slot < 64,
{
    if distance < 4 {
        return distance;
    }
    proof {
        lemma_slot_of(distance as int);
        lemma_highest_bit(distance as int);
        lemma2_to64();
        if highest_bit(distance as int) == 0 {
            assert(pow2(0) == 1);
        }
    }
    let top: usize = top_bit(distance);
    proof {
        lemma_pow2_pos((top - 1) as nat);
        lemma_pow2_monotonic((top - 1) as nat, 31);
    }
    let weight: u64 = power_of_two(top - 1);
    (2 * top as u64 + (distance as u64 / weight) % 2) as u32
}

/// Encodes a distance, counted from the shortest one.
pub fn encode_distance(
    encoder: &mut RangeEncoder,
    probs: &mut Vec<u16>,
    context: usize,
    distance: u32,
)
    requires
        in_order(*old(encoder), old(probs)@),
        LITERAL <= old(probs)@.len(),
        context <= 3,
    ensures
        in_order(*final(encoder), final(probs)@),
        final(probs)@.len() == old(probs)@.len(),
        writer_of(*final(encoder), final(probs)@) == put_distance(
            writer_of(*old(encoder), old(probs)@),
            context as int,
            distance as int,
        ),
{
    let slot: usize = get_pos_slot(distance) as usize;
    proof {
        lemma2_to64();
        lemma_whole_tree_fits(probs@.len(), POS_SLOT + context * 64, 6);
    }
    encode_tree(encoder, probs, POS_SLOT + context * 64, 6, 1, slot);
    if slot >= 4 {
        let bits: usize = slot / 2 - 1;
        proof {
            lemma_slot_of(distance as int);
            lemma_slot_base(slot as int);
            lemma_pow2_monotonic(bits as nat, 30);
        }
        let base: u64 = (2 + slot as u64 % 2) * power_of_two(bits);
        let footer: u32 = (distance as u64 - base) as u32;
        if slot < 14 {
            proof {
                lemma_pow2_monotonic(bits as nat, 5);
            }
            encode_reverse(encoder, probs, SPEC_POS + base as usize, bits, footer);
        } else {
            encoder.encode_direct_bits(footer / 16, (bits - 4) as u32, Ghost(probs@));
            encode_reverse(encoder, probs, ALIGN, 4, footer % 16);
        }
    }
}

/// Encodes which of the last distances is used again.
fn encode_rep_index(
    encoder: &mut RangeEncoder,
    probs: &mut Vec<u16>,
    state: usize,
    pos_state: usize,
    index: usize,
)
    requires
        in_order(*old(encoder), old(probs)@),
        LITERAL <= old(probs)@.len(),
        state < 12,
        pos_state < 16,
        index < 4,
    ensures
        in_order(*final(encoder), final(probs)@),
        final(probs)@.len() == old(probs)@.len(),
        writer_of(*final(encoder), final(probs)@) == put_rep_index(
            writer_of(*old(encoder), old(probs)@),
            state as int,
            pos_state as int,
            index as int,
        ),
{
    if index == 0 {
        encoder.encode_bit(probs, IS_REP_G0 + state, 0);
        encoder.encode_bit(probs, IS_REP0_LONG + state * 16 + pos_state, 1);
    } else {
        encoder.encode_bit(probs, IS_REP_G0 + state, 1);
        if index == 1 {
            encoder.encode_bit(probs, IS_REP_G1 + state, 0);
        } else {
            encoder.encode_bit(probs, IS_REP_G1 + state, 1);
            encoder.encode_bit(probs, IS_REP_G2 + state, (index - 2) as u32);
        }
    }
}

/// Encodes a literal behind `position` bytes of `input`.
pub fn encode_literal(
    encoder: &mut RangeEncoder,
    probs: &mut Vec<u16>,
    shape: &StreamShape,
    state: usize,
    rep0: u32,
    input: &[u8],
    position: usize,
    Ghost(h): Ghost<History>,
)
    requires
        in_order(*old(encoder), old(probs)@),
        shape_ok(shape.shape()),
        old(probs)@.len() == model_count(shape.shape()),
        history_ok(h),
        h.state == state,
        h.reps[0] == rep0,
        position < input@.len(),
        h.out == input@.take(position as int),
        state >= 7 ==> rep0 < position,
    ensures
        in_order(*final(encoder), final(probs)@),
        final(probs)@.len() == old(probs)@.len(),
        writer_of(*final(encoder), final(probs)@) == put_literal(
            shape.shape(),
            writer_of(*old(encoder), old(probs)@),
            h,
            input@[position as int],
        ),
{
    let previous: u8 = if position == 0 {
        0
    } else {
        input[position - 1]
    };
    let base: usize = shape.literal_context(position, previous, Ghost(h.out));
    proof {
        lemma_literal_fits(probs@.len(), base as int);
        lemma2_to64();
    }
    if state < 7 {
        encode_tree(encoder, probs, base, 8, 1, input[position] as usize);
    } else {
        let expected: u8 = input[position - rep0 as usize - 1];
        encode_matched(encoder, probs, base, input[position], expected);
    }
}

/// Encodes an operation behind `position` bytes of `input`.
pub fn encode_operation(
    encoder: &mut RangeEncoder,
    probs: &mut Vec<u16>,
    shape: &StreamShape,
    state: usize,
    rep0: u32,
    input: &[u8],
    position: usize,
    action: Action,
    Ghost(h): Ghost<History>,
)
    requires
        in_order(*old(encoder), old(probs)@),
        shape_ok(shape.shape()),
        old(probs)@.len() == model_count(shape.shape()),
        history_ok(h),
        h.state == state,
        h.reps[0] == rep0,
        position < input@.len(),
        h.out == input@.take(position as int),
        continues(shape.shape(), h, action@, input@),
    ensures
        in_order(*final(encoder), final(probs)@),
        final(probs)@.len() == old(probs)@.len(),
        writer_of(*final(encoder), final(probs)@) == put_operation(
            shape.shape(),
            writer_of(*old(encoder), old(probs)@),
            h,
            action@,
        ),
{
    proof {
        lemma_indices(shape.shape(), h);
    }
    let pos_state: usize = shape.pos_state(position);
    let match_index: usize = IS_MATCH + state * 16 + pos_state;
    match action {
        Action::Literal(_) => {
            encoder.encode_bit(probs, match_index, 0);
            encode_literal(encoder, probs, shape, state, rep0, input, position, Ghost(h));
        },
        Action::ShortRep => {
            encoder.encode_bit(probs, match_index, 1);
            encoder.encode_bit(probs, IS_REP + state, 1);
            encoder.encode_bit(probs, IS_REP_G0 + state, 0);
            encoder.encode_bit(probs, IS_REP0_LONG + state * 16 + pos_state, 0);
        },
        Action::Rep { index, length } => {
            encoder.encode_bit(probs, match_index, 1);
            encoder.encode_bit(probs, IS_REP + state, 1);
            encode_rep_index(encoder, probs, state, pos_state, index);
            encode_length(encoder, probs, REP_LEN, pos_state, length - 2);
        },
        Action::Match { length, distance } => {
            encoder.encode_bit(probs, match_index, 1);
            encoder.encode_bit(probs, IS_REP + state, 0);
            encode_length(encoder, probs, LEN, pos_state, length - 2);
            let context: usize = if length - 2 < 3 {
                length - 2
            } else {
                3
            };
            encode_distance(encoder, probs, context, distance);
        },
    }
}

/// Encodes the end marker behind `position` bytes.
pub fn encode_end_marker(
    encoder: &mut RangeEncoder,
    probs: &mut Vec<u16>,
    shape: &StreamShape,
    state: usize,
    position: usize,
    Ghost(h): Ghost<History>,
)
    requires
        in_order(*old(encoder), old(probs)@),
        shape_ok(shape.shape()),
        old(probs)@.len() == model_count(shape.shape()),
        history_ok(h),
        h.state == state,
        h.out.len() == position,
    ensures
        in_order(*final(encoder), final(probs)@),
        final(probs)@.len() == old(probs)@.len(),
        writer_of(*final(encoder), final(probs)@) == put_end_marker(
            shape.shape(),
            writer_of(*old(encoder), old(probs)@),
            h,
        ),
{
    proof {
        lemma_indices(shape.shape(), h);
    }
    let pos_state: usize = shape.pos_state(position);
    encoder.encode_bit(probs, IS_MATCH + state * 16 + pos_state, 1);
    encoder.encode_bit(probs, IS_REP + state, 0);
    encode_length(encoder, probs, LEN, pos_state, 0);
    encode_distance(encoder, probs, 0, 0xffff_ffff);
}

} // verus!
