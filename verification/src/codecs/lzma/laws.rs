//! What holds of LZMA streams, in the format's own numbers.

use vstd::arithmetic::power2::{lemma2_to64, pow2};
use vstd::prelude::*;

use crate::codecs::error::ErrorKind;
use crate::codecs::lzma::codec::{decoded, decoder_refusal, encode_refusal, encoded};
use crate::codecs::lzma::coder::{
    adapted, get_bit, get_plain, put_bit, whole, Place, Reader, Writer,
};
use crate::codecs::lzma::engine::{best_rep, chosen, fault_of, rep_length, search_limits};
use crate::codecs::lzma::fault::Fault;
use crate::codecs::lzma::operations::{
    advanced, fresh_models, get_literal, get_match, get_operation, get_rep, literal_base,
    model_count, no_history, position_state, refusal, reps_after_match, reps_after_rep, state_after_literal,
    state_after_match, state_after_rep, state_after_short_rep, Defect, History, Operation, Shape,
};
use crate::codecs::lzma::options::{
    encode_workspace_size, model_workspace_size, properties_of, property_bytes, DecoderOptions,
    EncoderOptions, LzmaProps,
};
use crate::codecs::lzma::range::{first_place, get_plain_bits, lemma_number5, put_plain_bits};
use crate::codecs::lzma::symbols::{
    distance_context, get_distance, get_footer, get_length, get_matched, get_reverse, get_tree,
    lemma_slot_of, put_footer, put_reverse, slot_base, slot_bits, slot_of, ALIGN, IS_MATCH, IS_REP,
    IS_REP0_LONG, IS_REP_G0, IS_REP_G1, IS_REP_G2, LEN, LITERAL, POS_SLOT, REP_LEN, SPEC_POS,
};
use crate::codecs::matchfinder::{match_from, SearchLimits};

verus! {

/// The slots of distances, counted from zero: the first four stand for themselves, and from then
/// on every two slots take one bit more and begin where the one before ends.
pub proof fn lemma_slots(slot: int)
    requires
        4 <= slot <= 63,
    ensures
        slot_bits(slot) == slot / 2 - 1,
        slot == 4 ==> slot_base(slot) == 4,
        slot == 5 ==> slot_base(slot) == 6,
        slot == 6 ==> slot_base(slot) == 8,
        slot == 7 ==> slot_base(slot) == 12,
        slot == 8 ==> slot_base(slot) == 16,
        slot == 9 ==> slot_base(slot) == 24,
        slot == 10 ==> slot_base(slot) == 32,
        slot == 11 ==> slot_base(slot) == 48,
        slot == 12 ==> slot_base(slot) == 64,
        slot == 13 ==> slot_base(slot) == 96,
        slot == 14 ==> slot_base(slot) == 128,
        slot_base(slot + 1) == slot_base(slot) + pow2((slot / 2 - 1) as nat),
{
    lemma2_to64();
    let k = slot_bits(slot);
    let p = pow2(k) as int;
    assert((2 + 0) * p == 2 * p && (2 + 1) * p == 3 * p && (2 + 0) * (2 * p) == 4 * p)
        by (nonlinear_arith);
    assert(slot_base(slot) == (if slot % 2 == 0 {
        2 * p
    } else {
        3 * p
    }));
    if slot % 2 == 0 {
        assert((slot + 1) / 2 == slot / 2 && (slot + 1) % 2 == 1);
        assert(slot_bits(slot + 1) == k);
    } else {
        assert((slot + 1) / 2 == slot / 2 + 1 && (slot + 1) % 2 == 0);
        assert(slot_bits(slot + 1) == k + 1);
        vstd::arithmetic::power2::lemma_pow2_unfold(k + 1);
    }
}

/// A distance lies in its slot and in no other one.
pub proof fn lemma_slot_of_distance(distance: int)
    requires
        0 <= distance < 0x1_0000_0000,
    ensures
        distance < 4 ==> slot_of(distance) == distance,
        distance >= 4 ==> 4 <= slot_of(distance) <= 63 && slot_base(slot_of(distance)) <= distance
            < slot_base(slot_of(distance) + 1),
{
    if distance >= 4 {
        lemma_slot_of(distance);
        lemma_slots(slot_of(distance));
    }
}

/// What is read behind a slot: nothing below slot four; all `slot / 2 - 1` bits through the
/// slot's own models, lowest bit first, for slots four to thirteen; from slot fourteen on the
/// upper `slot / 2 - 5` bits, at least two of them, without a model, and the lower four through
/// the models that these slots share.
pub proof fn lemma_footer_read(r: Reader, slot: int)
    requires
        0 <= slot <= 63,
    ensures
        slot < 4 ==> get_footer(r, slot) == Some((slot, r)),
        4 <= slot <= 13 ==> get_footer(r, slot) == (match get_reverse(
            r,
            688 + slot_base(slot),
            (slot / 2 - 1) as nat,
            1,
        ) {
            None => None,
            Some((low, next)) => Some((slot_base(slot) + low, next)),
        }),
        14 <= slot ==> slot / 2 - 5 >= 2 && get_footer(r, slot) == (match get_plain_bits(
            r,
            (slot / 2 - 5) as nat,
            0,
        ) {
            None => None,
            Some((high, between)) => match get_reverse(between, 816, 4, 1) {
                None => None,
                Some((low, next)) => Some((slot_base(slot) + 16 * high + low, next)),
            },
        }),
{
}

/// What is written behind a slot, in the same way.
pub proof fn lemma_footer_written(w: Writer, slot: int, distance: int)
    requires
        0 <= slot <= 63,
    ensures
        slot < 4 ==> put_footer(w, slot, distance) == w,
        4 <= slot <= 13 ==> put_footer(w, slot, distance) == put_reverse(
            w,
            688 + slot_base(slot),
            (slot / 2 - 1) as nat,
            1,
            distance - slot_base(slot),
        ),
        14 <= slot ==> put_footer(w, slot, distance) == put_reverse(
            put_plain_bits(w, (distance - slot_base(slot)) / 16, (slot / 2 - 5) as nat),
            816,
            4,
            1,
            (distance - slot_base(slot)) % 16,
        ),
{
}

/// Only the models of a slot change where its bits are read: the 128 of slots four to thirteen,
/// none of which belongs to two slots, and the 16 that serve from slot fourteen on.
pub proof fn lemma_footer_models(r: Reader, slot: int, i: int)
    requires
        0 <= slot <= 63,
        0 <= i < r.probs.len(),
        1860 <= r.probs.len(),
    ensures
        get_footer(r, slot) matches Some((distance, next)) ==> {
            &&& next.probs.len() == r.probs.len()
            &&& slot < 4 ==> next.probs == r.probs
            &&& 4 <= slot <= 13 && !(688 + slot_base(slot) < i < 688 + slot_base(slot + 1))
                ==> next.probs[i] == r.probs[i]
            &&& 14 <= slot && !(816 < i < 832) ==> next.probs[i] == r.probs[i]
        },
{
    lemma2_to64();
    if 4 <= slot <= 13 {
        lemma_slots(slot);
        let base = 688 + slot_base(slot);
        let n = (slot / 2 - 1) as nat;
        vstd::arithmetic::power2::lemma_pow2_unfold(n);
        lemma_twice(pow2((n - 1) as nat) as int);
        crate::codecs::lzma::symbols::lemma_slot_base(slot);
        lemma_reverse_models(r, base, n, 1, i);
    } else if slot >= 14 {
        lemma_plain_models(r, (slot / 2 - 5) as nat, 0);
        if let Some((high, between)) = get_plain_bits(r, (slot / 2 - 5) as nat, 0) {
            assert(pow2((4 - 1) as nat) == 8);
            lemma_twice(8);
            lemma_reverse_models(between, 816, 4, 1, i);
        }
    }
}

proof fn lemma_twice(x: int)
    ensures
        (1 + 1) * x == 2 * x,
{
    assert((1 + 1) * x == 2 * x) by (nonlinear_arith);
}

proof fn lemma_plain_models(r: Reader, n: nat, value: int)
    ensures
        get_plain_bits(r, n, value) matches Some((found, next)) ==> next.probs == r.probs,
    decreases n,
{
    reveal(get_plain);
    if n > 0 {
        if let Some((bit, next)) = get_plain(r) {
            lemma_plain_models(next, (n - 1) as nat, 2 * value + bit);
        }
    }
}

proof fn lemma_reverse_models(r: Reader, base: int, n: nat, m: int, i: int)
    requires
        0 < n,
        0 <= base,
        1 <= m,
        0 <= i < r.probs.len(),
        base + (m + 1) * pow2((n - 1) as nat) <= r.probs.len(),
    ensures
        get_reverse(r, base, n, m) matches Some((found, next)) ==> next.probs.len() == r.probs.len()
            && (i <= base || base + (m + 1) * pow2((n - 1) as nat) <= i ==> next.probs[i]
            == r.probs[i]),
    decreases n,
{
    reveal(get_bit);
    lemma2_to64();
    let p = pow2((n - 1) as nat) as int;
    vstd::arithmetic::power2::lemma_pow2_pos((n - 1) as nat);
    assert((m + 1) * p >= m + 1) by (nonlinear_arith)
        requires
            m >= 1,
            p >= 1,
    ;
    if let Some((bit, next)) = get_bit(r, base + m) {
        if n > 1 {
            vstd::arithmetic::power2::lemma_pow2_unfold((n - 1) as nat);
            let q = pow2((n - 2) as nat) as int;
            assert((2 * m + bit + 1) * q <= (m + 1) * p) by (nonlinear_arith)
                requires
                    p == 2 * q,
                    q >= 1,
                    0 <= bit <= 1,
            ;
            lemma_reverse_models(next, base, (n - 1) as nat, 2 * m + bit, i);
        } else {
            assert(get_reverse(next, base, 0, 2 * m + bit) == Some((0int, next)));
        }
    }
}

/// The slot of a distance takes six bits, highest first, through the models for the match's
/// length; lengths two, three and four have models of their own and longer ones share.
pub proof fn lemma_distance_read(r: Reader, length: int)
    requires
        2 <= length,
    ensures
        distance_context(length - 2) == (if length <= 4 {
            length - 2
        } else {
            3
        }),
        get_distance(r, distance_context(length - 2)) == (match get_tree(
            r,
            432 + 64 * distance_context(length - 2),
            6,
            1,
        ) {
            None => None,
            Some((m, next)) => get_footer(next, m - 64),
        }),
{
    lemma2_to64();
}

/// A match length behind a choice: a zero and three bits for 2 to 9, a one, a zero and three bits
/// for 10 to 17, two ones and eight bits for 18 to 273. The first two depend on the position.
pub proof fn lemma_length_read(r: Reader, base: int, pos_state: int)
    ensures
        get_bit(r, base) matches Some((choice, r1)) ==> {
            &&& choice == 0 ==> get_length(r, base, pos_state) == (match get_tree(
                r1,
                base + 2 + 8 * pos_state,
                3,
                1,
            ) {
                None => None,
                Some((m, next)) => Some((m - 8, next)),
            })
            &&& choice != 0 ==> (get_bit(r1, base + 1) matches Some((second, r2)) ==> {
                &&& second == 0 ==> get_length(r, base, pos_state) == (match get_tree(
                    r2,
                    base + 130 + 8 * pos_state,
                    3,
                    1,
                ) {
                    None => None,
                    Some((m, next)) => Some((m - 8 + 8, next)),
                })
                &&& second != 0 ==> get_length(r, base, pos_state) == (match get_tree(
                    r2,
                    base + 258,
                    8,
                    1,
                ) {
                    None => None,
                    Some((m, next)) => Some((m - 256 + 16, next)),
                })
            })
        },
{
    lemma2_to64();
}

/// Trees are read highest bit first and, where reversed, lowest bit first; the bits so far, behind
/// a leading one, choose the model.
pub proof fn lemma_tree_bits(r: Reader, base: int)
    ensures
        get_bit(r, base + 1) matches Some((first, r1)) ==> (get_bit(
            r1,
            base + 2 + first,
        ) matches Some((second, r2)) ==> {
            &&& get_tree(r, base, 2, 1) == Some((4 + 2 * first + second, r2))
            &&& get_reverse(r, base, 2, 1) == Some((first + 2 * second, r2))
        }),
{
    reveal_with_fuel(get_tree, 3);
    reveal_with_fuel(get_reverse, 3);
}

/// A literal's bits beside an expected byte: as long as they agree, the expected bit chooses
/// between the second and the third 256 models; behind the first difference the first 256 serve.
pub proof fn lemma_matched_bits(r: Reader, base: int, expected: int)
    requires
        0 <= expected < 256,
    ensures
        get_bit(r, base + (if expected >= 128 {
            513int
        } else {
            257
        })) matches Some((bit, next)) ==> {
            &&& bit != expected / 128 ==> get_matched(r, base, 8, 1, expected) == get_tree(
                next,
                base,
                7,
                2 + bit,
            )
            &&& bit == expected / 128 ==> get_matched(r, base, 8, 1, expected) == get_matched(
                next,
                base,
                7,
                2 + bit,
                expected,
            )
        },
{
    lemma2_to64();
    let guess = crate::codecs::lzma::symbols::binary_digit(expected, 7);
    assert(guess == expected / 128);
}

/// A literal's models: 768 for each of the `2^lc` values of the upper bits of the byte before it,
/// and all of these for each of the `2^lp` values of the lower bits of its position. Other models
/// go by the lower `pb` bits of the position.
pub proof fn lemma_literal_models(shape: Shape, out: Seq<u8>, byte: u8)
    requires
        shape.lc <= 8,
        shape.lp <= 4,
    ensures
        literal_base(shape, out.push(byte)) == 1860 + 768 * (((out.len() as int + 1) % (pow2(
            shape.lp,
        ) as int)) * pow2(shape.lc) + byte as int / (pow2((8 - shape.lc) as nat) as int)),
        model_count(shape) == 1860 + 768 * pow2(shape.lc + shape.lp),
        position_state(shape, out.len() as int) == out.len() as int % (pow2(shape.pb) as int),
        literal_base(shape, Seq::empty()) == 1860,
{
    let p = pow2(shape.lp) as int;
    let q = pow2(shape.lc) as int;
    let s = pow2((8 - shape.lc) as nat) as int;
    vstd::arithmetic::power2::lemma_pow2_pos(shape.lp);
    vstd::arithmetic::power2::lemma_pow2_pos((8 - shape.lc) as nat);
    vstd::arithmetic::div_mod::lemma_small_mod(0, p as nat);
    vstd::arithmetic::div_mod::lemma_div_basics(s);
    assert(0int % p * q == 0) by (nonlinear_arith)
        requires
            0int % p == 0,
    ;
}

/// Literals, matches, repeated matches and repeated bytes move among twelve states: a literal
/// forgets step by step what came before it.
pub proof fn lemma_states(state: int)
    requires
        0 <= state < 12,
    ensures
        state_after_literal(state) == seq![0int, 0, 0, 0, 1, 2, 3, 4, 5, 6, 4, 5][state],
        state_after_match(state) == seq![7int, 7, 7, 7, 7, 7, 7, 10, 10, 10, 10, 10][state],
        state_after_rep(state) == seq![8int, 8, 8, 8, 8, 8, 8, 11, 11, 11, 11, 11][state],
        state_after_short_rep(state) == seq![9int, 9, 9, 9, 9, 9, 9, 11, 11, 11, 11, 11][state],
        no_history().state == 0,
        no_history().reps == seq![0int, 0, 0, 0],
{
}

/// A new distance goes in front of the last four and the oldest drops out; one that is used again
/// moves to the front, and those before it move back by one.
pub proof fn lemma_last_distances(reps: Seq<int>, distance: int, index: int)
    requires
        reps.len() == 4,
        0 <= index < 4,
    ensures
        reps_after_match(reps, distance) == seq![distance] + reps.take(3),
        reps_after_rep(reps, index) == seq![reps[index]] + reps.remove(index),
{
    assert(reps_after_match(reps, distance) =~= seq![distance] + reps.take(3));
    assert(reps_after_rep(reps, index) =~= seq![reps[index]] + reps.remove(index));
}

/// What an operation does: a literal appends its byte; a repeated byte, a repeated match and a
/// match copy from the last distance, the one at their index, and a new one. Distances are counted
/// from zero.
pub proof fn lemma_operations(h: History, byte: u8, index: int, length: int, distance: int)
    requires
        h.reps.len() == 4,
        0 <= index < 4,
        0 <= length,
    ensures
        advanced(h, Operation::Literal(byte)).out == h.out.push(byte),
        advanced(h, Operation::Literal(byte)).reps == h.reps,
        0 <= h.reps[0] < h.out.len() ==> advanced(h, Operation::ShortRep).out == h.out.push(
            h.out[h.out.len() - 1 - h.reps[0]],
        ),
        advanced(h, Operation::ShortRep).reps == h.reps,
        advanced(h, Operation::Rep { index, length }).reps[0] == h.reps[index],
        advanced(h, Operation::Rep { index, length }).out
            == crate::codecs::zlib::inflate::copy_match(
            h.out,
            h.reps[index] + 1,
            length as nat,
        ),
        advanced(h, Operation::Match { length, distance }).reps[0] == distance,
        advanced(h, Operation::Match { length, distance }).out
            == crate::codecs::zlib::inflate::copy_match(h.out, distance + 1, length as nat),
{
    reveal_with_fuel(crate::codecs::zlib::inflate::copy_match, 2);
}

/// The bit that tells a literal from a match depends on the state and the position, the one that
/// tells a new distance from a repeated one on the state alone; zeros stand for literals and new
/// distances.
pub proof fn lemma_operation_kinds(shape: Shape, r: Reader, h: History)
    ensures
        get_bit(r, 16 * h.state + position_state(shape, h.out.len() as int)) matches Some(
            (is_match, r1),
        ) ==> {
            &&& is_match == 0 ==> get_operation(shape, r, h) == get_literal(shape, r1, h)
            &&& is_match != 0 ==> (get_bit(r1, 192 + h.state) matches Some((is_rep, r2)) ==> {
                &&& is_rep == 0 ==> get_operation(shape, r, h) == get_match(
                    r2,
                    position_state(shape, h.out.len() as int),
                )
                &&& is_rep != 0 ==> get_operation(shape, r, h) == get_rep(
                    r2,
                    h.state,
                    position_state(shape, h.out.len() as int),
                )
            })
        },
{
}

/// A literal behind a literal is read plainly; one behind a match beside the byte at the last
/// distance.
pub proof fn lemma_literal_read(shape: Shape, r: Reader, h: History)
    requires
        h.reps.len() == 4,
    ensures
        h.state < 7 ==> (get_tree(r, literal_base(shape, h.out), 8, 1) matches Some((m, next))
            ==> get_literal(shape, r, h) == Ok::<(Operation, Reader), Defect>(
            (Operation::Literal((m - 256) as u8), next),
        )),
        h.state >= 7 && 0 <= h.reps[0] < h.out.len() && h.reps[0] < shape.dict ==> (get_matched(
            r,
            literal_base(shape, h.out),
            8,
            1,
            h.out[h.out.len() - 1 - h.reps[0]] as int,
        ) matches Some((m, next)) ==> get_literal(shape, r, h) == Ok::<
            (Operation, Reader),
            Defect,
        >((Operation::Literal((m - 256) as u8), next))),
{
    assert(h.out.len() - h.reps[0] - 1 == h.out.len() - 1 - h.reps[0]);
}

/// A match counts its length from two; the greatest distance ends the stream.
pub proof fn lemma_match_read(r: Reader, pos_state: int)
    ensures
        get_length(r, 832, pos_state) matches Some((length, r1)) ==> (get_distance(
            r1,
            distance_context(length),
        ) matches Some((distance, next)) ==> get_match(r, pos_state) == (if distance
            == 0xffff_ffff {
            Err::<(Operation, Reader), Defect>(Defect::EndMarker)
        } else {
            Ok((Operation::Match { length: length + 2, distance }, next))
        })),
{
}

/// A repeated match: a zero means the last distance, and then a zero a single byte of it; one and
/// zero mean the second to last, and so on.
pub proof fn lemma_rep_read(r: Reader, state: int, pos_state: int)
    ensures
        get_bit(r, 204 + state) matches Some((g0, r0)) ==> {
            &&& g0 == 0 ==> (get_bit(r0, 240 + 16 * state + pos_state) matches Some((long, r1))
                ==> {
                &&& long == 0 ==> get_rep(r, state, pos_state) == Ok::<(Operation, Reader), Defect>(
                    (Operation::ShortRep, r1),
                )
                &&& long != 0 ==> (get_length(r1, 1346, pos_state) matches Some((length, next))
                    ==> get_rep(r, state, pos_state) == Ok::<(Operation, Reader), Defect>(
                    (Operation::Rep { index: 0, length: length + 2 }, next),
                ))
            })
            &&& g0 != 0 ==> (get_bit(r0, 216 + state) matches Some((g1, r1)) ==> {
                &&& g1 == 0 ==> (get_length(r1, 1346, pos_state) matches Some((length, next))
                    ==> get_rep(r, state, pos_state) == Ok::<(Operation, Reader), Defect>(
                    (Operation::Rep { index: 1, length: length + 2 }, next),
                ))
                &&& g1 != 0 ==> (get_bit(r1, 228 + state) matches Some((g2, r2)) ==> (get_length(
                    r2,
                    1346,
                    pos_state,
                ) matches Some((length, next)) ==> get_rep(r, state, pos_state) == Ok::<
                    (Operation, Reader),
                    Defect,
                >((Operation::Rep { index: 2 + g2, length: length + 2 }, next))))
            })
        },
{
}

/// The models lie one behind the other: no two kinds of bits share one.
pub proof fn lemma_model_tables()
    ensures
        IS_MATCH == 0,
        IS_REP == IS_MATCH + 12 * 16,
        IS_REP_G0 == IS_REP + 12,
        IS_REP_G1 == IS_REP_G0 + 12,
        IS_REP_G2 == IS_REP_G1 + 12,
        IS_REP0_LONG == IS_REP_G2 + 12,
        POS_SLOT == IS_REP0_LONG + 12 * 16,
        SPEC_POS == POS_SLOT + 4 * 64,
        ALIGN == SPEC_POS + 128,
        LEN == ALIGN + 16,
        REP_LEN == LEN + 2 + 2 * 16 * 8 + 256,
        LITERAL == REP_LEN + 2 + 2 * 16 * 8 + 256,
{
}

/// A model begins at 1024 of 2048; a zero raises it by a 32nd of what it lacks, a one lowers it by
/// a 32nd of itself.
pub proof fn lemma_probabilities(shape: Shape, i: int, p: u16)
    requires
        0 <= i < model_count(shape),
        p <= 2048,
    ensures
        fresh_models(shape)[i] == 1024,
        adapted(p, 0) == p + (2048 - p) / 32,
        adapted(p, 1) == p - p / 32,
{
}

/// A modelled bit splits the range in the ratio of its model to 2048, zeros below; a plain one
/// halves it. The range is then brought back above `2^24`, by a byte.
pub proof fn lemma_bits_read(r: Reader, index: int)
    requires
        !r.lazy,
        0 <= index < r.probs.len(),
        0x100_0000 <= r.place.range <= 0xffff_ffff,
        0 <= r.place.code < r.place.range,
        r.place.position < r.data.len(),
    ensures
        ({
            let bound = r.place.range / 2048 * r.probs[index];
            let kept = if r.place.code < bound {
                Place { range: bound, ..r.place }
            } else {
                Place { range: r.place.range - bound, code: r.place.code - bound, ..r.place }
            };
            get_bit(r, index) matches Some((bit, next)) && {
                &&& bit == 0 <==> r.place.code < bound
                &&& next.probs == r.probs.update(index, adapted(r.probs[index], bit))
                &&& kept.range >= 0x100_0000 ==> next.place == kept
                &&& kept.range < 0x100_0000 ==> next.place.range == 256 * kept.range
                    && next.place.position == kept.position + 1 && (0 <= kept.code < kept.range
                    ==> next.place.code == 256 * kept.code + r.data[kept.position])
            }
        }),
        get_plain(r) matches Some((bit, next)) && {
            &&& bit == 0 <==> r.place.code < r.place.range / 2
            &&& next.probs == r.probs
        },
{
    reveal(get_bit);
    reveal(get_plain);
}

/// An encoder splits its range in the same way.
pub proof fn lemma_bits_written(w: Writer, index: int)
    ensures
        ({
            let bound = w.interval.range / 2048 * w.probs[index];
            let zero = put_bit(w, index, 0).interval;
            let one = put_bit(w, index, 1).interval;
            &&& bound >= 0x100_0000 ==> zero.low == w.interval.low && zero.range == bound
                && zero.shifts == w.interval.shifts
            &&& bound < 0x100_0000 ==> zero.low == 256 * w.interval.low && zero.range == 256 * bound
                && zero.shifts == w.interval.shifts + 1
            &&& w.interval.range - bound >= 0x100_0000 ==> one.low == w.interval.low + bound
                && one.range == w.interval.range - bound && one.shifts == w.interval.shifts
        }),
        whole().low == 0,
        whole().range == 0xffff_ffff,
        whole().shifts == 0,
{
    reveal(put_bit);
}

/// The five property bytes: `lc`, `lp` and `pb` packed by nines and fives into the first one, and
/// the dictionary size, lowest byte first. They are read back as they were written.
pub proof fn lemma_properties(props: LzmaProps)
    requires
        props.contexts_ok(),
    ensures
        property_bytes(props).len() == 5,
        property_bytes(props)[0] == 45 * props.pb + 9 * props.lp + props.lc,
        props.dict_size == property_bytes(props)[1] + 256 * property_bytes(props)[2] + 65536
            * property_bytes(props)[3] + 16777216 * property_bytes(props)[4],
        properties_of(property_bytes(props), props.fb, props.mc) == props,
        props.with_dictionary().dict_size == (if props.dict_size < 4096 {
            4096
        } else {
            props.dict_size
        }),
{
    let b = property_bytes(props);
    let packed = 45 * props.pb + 9 * props.lp + props.lc;
    assert((props.pb * 5 + props.lp) * 9 + props.lc == packed);
    assert(packed <= 224);
    assert(packed % 9 == props.lc);
    assert(packed / 9 == 5 * props.pb + props.lp);
    assert((5 * props.pb + props.lp) % 5 == props.lp);
    assert((5 * props.pb + props.lp) / 5 == props.pb as int);
    let t = b.skip(1);
    assert(t[0] == b[1] && t[1] == b[2] && t[2] == b[3] && t[3] == b[4]);
}

/// A stream begins with a zero byte and four bytes of code, the highest first; without them
/// there is no stream.
pub proof fn lemma_start(data: Seq<u8>)
    ensures
        data.len() < 5 ==> first_place(data) is None,
        data.len() >= 5 && data[0] != 0 ==> first_place(data) is None,
        data.len() >= 5 && data[0] == 0 ==> (first_place(data) matches Some(place) && place.range
            == 0xffff_ffff && place.position == 5 && place.code == 0x100_0000 * data[1] + 0x1_0000
            * data[2] + 0x100 * data[3] + data[4]),
{
    if data.len() >= 5 {
        lemma_number5(data);
    }
}

/// What the plain encoder takes at a position: the longest repetition of a last distance if it has
/// two bytes and is no shorter than the best match; else a single repeated byte where there is no
/// match; else a match of at least three bytes; else the byte itself.
pub proof fn lemma_plain_choice(input: Seq<u8>, h: History, limits: SearchLimits)
    ensures
        ({
            let position = h.out.len() as int;
            let (length, distance) = match_from(input, position, limits);
            let (repeated, index) = best_rep(input, position, h.reps, 0, (0, 0));
            let op = chosen(input, h, limits);
            &&& repeated >= 2 && repeated >= length ==> op == (Operation::Rep {
                index,
                length: repeated,
            })
            &&& !(repeated >= 2 && repeated >= length) && repeated == 1 && index == 0 && length < 3
                ==> op == Operation::ShortRep
            &&& !(repeated >= 2 && repeated >= length) && length >= 3 ==> op == (Operation::Match {
                length,
                distance: distance - 1,
            })
            &&& repeated == 0 && length < 3 ==> op == Operation::Literal(input[position])
        }),
{
}

/// The longest repetition of the last four distances; of equally long ones the first.
pub proof fn lemma_best_repetition(
    input: Seq<u8>,
    position: int,
    reps: Seq<int>,
    index: int,
    best: (int, int),
)
    requires
        0 <= index <= 4,
        0 <= best.1 < 4,
    ensures
        ({
            let found = best_rep(input, position, reps, index, best);
            &&& found.0 >= best.0
            &&& forall|i: int|
                index <= i < 4 ==> #[trigger] rep_length(input, position, reps[i]) <= found.0
            &&& found == best || (index <= found.1 < 4 && found.0 == rep_length(
                input,
                position,
                reps[found.1],
            ) && found.0 > best.0 && forall|i: int|
                index <= i < found.1 ==> #[trigger] rep_length(input, position, reps[i])
                    < found.0)
        }),
    decreases 4 - index,
{
    if index < 4 {
        let length = rep_length(input, position, reps[index]);
        let next = if length > best.0 {
            (length, index)
        } else {
            best
        };
        lemma_best_repetition(input, position, reps, index + 1, next);
    }
}

/// The limits of the search: 273 bytes, the dictionary, at least one attempt, and a length that
/// ends the search between five and 273.
pub proof fn lemma_search_limits(props: LzmaProps)
    ensures
        search_limits(props).length == 273,
        search_limits(props).window == props.dict_size,
        search_limits(props).attempts == (if props.mc == 0 {
            1
        } else {
            props.mc
        }),
        5 <= props.fb <= 273 ==> search_limits(props).nice == props.fb,
        props.fb < 5 ==> search_limits(props).nice == 5,
        props.fb > 273 ==> search_limits(props).nice == 273,
{
}

/// The memory of the models: two bytes for each of the 768 models of each of the `2^(lc + lp)`
/// contexts, and 128 KiB; encoding takes a word for each byte and for 65536 more.
pub proof fn lemma_workspace(props: LzmaProps, n: int)
    ensures
        model_workspace_size(props) == 131072 + 1536 * pow2((props.lc + props.lp) as nat),
        encode_workspace_size(n, props) == model_workspace_size(props) + (n + 65536) * (
        usize::BITS as int / 8),
{
}

/// What is refused before any work, and nothing else is: an input or output beyond its limit, and
/// work in more memory than allowed.
pub proof fn lemma_refusals(
    encoder: EncoderOptions,
    decoder: DecoderOptions,
    input: Seq<u8>,
    data: Seq<u8>,
)
    ensures
        encode_refusal(encoder, input) is Some <==> input.len() > encoder.limits.max_input_size
            || encode_workspace_size(input.len() as int, encoder.properties)
            > encoder.limits.max_workspace_size,
        encoded(encoder, input) matches Ok(stream) ==> stream.len()
            <= encoder.limits.max_output_size,
        decoder_refusal(decoder) is Some <==> decoder.properties.lc > 8 || decoder.properties.lp > 4
            || decoder.properties.pb > 4 || decoder.expected_size > decoder.limits.max_output_size
            || model_workspace_size(decoder.properties) > decoder.limits.max_workspace_size,
        data.len() > decoder.limits.max_input_size ==> decoded(decoder, data) is Err,
{
}

/// The category of every fault: limits by what they limit, ends that come too early, options that
/// are out of range, and otherwise invalid data.
pub proof fn lemma_fault_kinds(fault: Fault)
    ensures
        fault.kind() == ErrorKind::InputLimitExceeded <==> fault is InputLimit,
        fault.kind() == ErrorKind::OutputLimitExceeded <==> fault is DeclaredOutputLimit
            || fault is OutputLimit,
        fault.kind() == ErrorKind::WorkspaceLimitExceeded <==> fault is WorkspaceLimit
            || fault is WorkspaceOverflow,
        fault.kind() == ErrorKind::TruncatedData <==> fault is RangePrefix
            || fault is TruncatedStream,
        fault.kind() == ErrorKind::InvalidOptions <==> fault is PropertiesOption
            || fault is ContextOptions,
        fault.kind() != ErrorKind::UnsupportedFeature,
        fault_of(Defect::Truncated) == Fault::TruncatedStream,
        fault_of(Defect::EndMarker) == Fault::EarlyEndMarker,
{
}

/// A match may not reach behind the output, the dictionary or the expected length; a literal may
/// always follow.
pub proof fn lemma_match_refused(shape: Shape, h: History, length: int, distance: int, limit: int)
    requires
        0 <= distance < 0xffff_ffff,
        2 <= length <= 273,
        h.out.len() <= limit,
    ensures
        ({
            let op = Operation::Match { length, distance };
            &&& refusal(shape, h, op, limit) is None <==> distance < h.out.len() && distance
                < shape.dict && h.out.len() + length <= limit
            &&& distance >= h.out.len() || distance >= shape.dict ==> (refusal(
                shape,
                h,
                op,
                limit,
            ) matches Some(Defect::MatchDistance { distance: d, position: p }) && d == distance + 1)
            &&& refusal(shape, h, Operation::Literal(0), limit) is None
        }),
{
}

} // verus!
