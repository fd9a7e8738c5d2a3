//! The LZMA decoding loop, shared by eager and lazy range decoders.

use vstd::arithmetic::power2::{lemma2_to64, lemma_pow2_pos, pow2};
use vstd::prelude::*;

use crate::codecs::lzma::coder::moderate;
use crate::codecs::lzma::operations::{
    advanced, fresh_models, get_literal, get_match, get_operation, get_rep, get_rep_length,
    history_ok, lemma_indices, lemma_literal_fits, lemma_operation_length, literal_base,
    model_count, no_history, position_state, previous_byte, reps_after_rep, shape_ok,
    state_after_literal, state_after_match, state_after_rep, state_after_short_rep, steps, Defect,
    History, Operation, Shape,
};
use crate::codecs::lzma::range::RangeDecoder;
use crate::codecs::lzma::symbols::{
    get_distance, get_footer, get_length, get_matched, get_reverse, get_tree, get_tree_number,
    lemma_matched_fits_step, lemma_slot_base, lemma_tree_fits_step, lemma_whole_tree_fits,
    matched_fits, tree_fits, ALIGN, IS_MATCH, IS_REP, IS_REP0_LONG, IS_REP_G0, IS_REP_G1, IS_REP_G2,
    LEN, LITERAL, POS_SLOT, REP_LEN, SPEC_POS,
};
use crate::codecs::zlib::inflate::append_match;
use crate::math::{lemma_pow2_monotonic, lemma_pow2_step, power_of_two};

verus! {

/// Decodes `bits` bits of a tree; the result stands for all bits behind a leading one.
fn decode_tree(
    decoder: &mut RangeDecoder<'_>,
    probs: &mut Vec<u16>,
    base: usize,
    bits: usize,
    start: usize,
) -> (value: Option<usize>)
    requires
        old(decoder).wf(),
        moderate(old(probs)@),
        bits <= 8,
        start < 0x100,
        base <= 0x1000_0000,
        tree_fits(old(probs)@.len(), base as int, bits as nat, start as int),
    ensures
        match get_tree(
            old(decoder).reader(old(probs)@),
            base as int,
            bits as nat,
            start as int,
        ) {
            Some((m, reader)) => value == Some(m as usize) && start * pow2(bits as nat) <= m < (
            start + 1) * pow2(bits as nat) && final(decoder).reader(final(probs)@) == reader
                && final(decoder).wf() && moderate(final(probs)@) && final(probs)@.len() == old(
                probs,
            )@.len(),
            None => value is None,
        },
{
    let mut m: usize = start;
    let mut left: usize = bits;
    let ghost whole = get_tree(decoder.reader(probs@), base as int, bits as nat, start as int);
    proof {
        lemma2_to64();
        assert(start * pow2(0) == start && (start + 1) * pow2(0) == start + 1) by (nonlinear_arith)
            requires
                pow2(0) == 1,
        ;
    }
    while left > 0
        invariant
            decoder.wf(),
            moderate(probs@),
            probs@.len() == old(probs)@.len(),
            left <= bits <= 8,
            start < 0x100,
            base <= 0x1000_0000,
            tree_fits(probs@.len(), base as int, left as nat, m as int),
            start * pow2((bits - left) as nat) <= m < (start + 1) * pow2((bits - left) as nat),
            whole == get_tree(
                old(decoder).reader(old(probs)@),
                base as int,
                bits as nat,
                start as int,
            ),
            whole == get_tree(decoder.reader(probs@), base as int, left as nat, m as int),
        decreases left,
    {
        proof {
            lemma_pow2_monotonic((bits - left) as nat, 8);
            lemma2_to64();
            let p = pow2((bits - left) as nat) as int;
            assert((start + 1) * p <= 0x1_0000) by (nonlinear_arith)
                requires
                    start < 0x100,
                    p <= 0x100,
                    p >= 0,
            ;
            lemma_tree_fits_step(probs@.len(), base as int, left as nat, m as int, 0);
            lemma_tree_fits_step(probs@.len(), base as int, left as nat, m as int, 1);
        }
        let bit: usize = match decoder.decode_bit(probs, base + m) {
            Some(bit) => bit as usize,
            None => return None,
        };
        proof {
            let j = (bits - left) as nat;
            lemma_pow2_step(j);
            let p = pow2(j) as int;
            assert(start * (2 * p) == 2 * (start * p)) by (nonlinear_arith);
            assert((start + 1) * (2 * p) == 2 * ((start + 1) * p)) by (nonlinear_arith);
        }
        m = 2 * m + bit;
        left -= 1;
    }
    Some(m)
}

/// Decodes a tree of `bits` bits as a plain number.
fn decode_tree_number(
    decoder: &mut RangeDecoder<'_>,
    probs: &mut Vec<u16>,
    base: usize,
    bits: usize,
) -> (value: Option<usize>)
    requires
        old(decoder).wf(),
        moderate(old(probs)@),
        1 <= bits <= 8,
        base <= 0x1000_0000,
        base + pow2(bits as nat) <= old(probs)@.len(),
    ensures
        match get_tree_number(old(decoder).reader(old(probs)@), base as int, bits as nat, 0) {
            Some((m, reader)) => value == Some(m as usize) && 0 <= m < pow2(bits as nat)
                && final(decoder).reader(final(probs)@) == reader && final(decoder).wf()
                && moderate(final(probs)@) && final(probs)@.len() == old(probs)@.len(),
            None => value is None,
        },
{
    proof {
        lemma_whole_tree_fits(probs@.len(), base as int, bits as nat);
        lemma_pow2_monotonic(bits as nat, 8);
        lemma2_to64();
    }
    match decode_tree(decoder, probs, base, bits, 1) {
        Some(m) => {
            let size: usize = power_of_two(bits) as usize;
            Some(m - size)
        },
        None => None,
    }
}

/// Decodes a number of `bits` bits through a tree, least significant bit first.
fn decode_reverse(
    decoder: &mut RangeDecoder<'_>,
    probs: &mut Vec<u16>,
    base: usize,
    bits: usize,
    start: usize,
) -> (value: Option<usize>)
    requires
        old(decoder).wf(),
        moderate(old(probs)@),
        bits <= 8,
        base <= 0x1000_0000,
        (start + 1) * pow2(bits as nat) <= 0x1_0000,
        tree_fits(old(probs)@.len(), base as int, bits as nat, start as int),
    ensures
        match get_reverse(
            old(decoder).reader(old(probs)@),
            base as int,
            bits as nat,
            start as int,
        ) {
            Some((v, reader)) => value == Some(v as usize) && 0 <= v < pow2(bits as nat)
                && final(decoder).reader(final(probs)@) == reader && final(decoder).wf()
                && moderate(final(probs)@) && final(probs)@.len() == old(probs)@.len(),
            None => value is None,
        },
    decreases bits,
{
    proof {
        lemma2_to64();
    }
    if bits == 0 {
        return Some(0);
    }
    proof {
        lemma_tree_fits_step(probs@.len(), base as int, bits as nat, start as int, 0);
        lemma_tree_fits_step(probs@.len(), base as int, bits as nat, start as int, 1);
        lemma_pow2_step((bits - 1) as nat);
        lemma_pow2_monotonic((bits - 1) as nat, 7);
        let p = pow2((bits - 1) as nat) as int;
        assert((start + 1) * (2 * p) >= 2 * (start + 1)) by (nonlinear_arith)
            requires
                p >= 1,
        ;
    }
    let bit: usize = match decoder.decode_bit(probs, base + start) {
        Some(bit) => bit as usize,
        None => return None,
    };
    proof {
        let p = pow2((bits - 1) as nat) as int;
        assert((2 * start + bit + 1) * p <= (start + 1) * (2 * p)) by (nonlinear_arith)
            requires
                0 <= bit <= 1,
                p > 0,
        ;
    }
    match decode_reverse(decoder, probs, base, bits - 1, 2 * start + bit) {
        Some(rest) => Some(bit + 2 * rest),
        None => None,
    }
}

/// Decodes a literal beside the byte it is expected to equal.
fn decode_matched(
    decoder: &mut RangeDecoder<'_>,
    probs: &mut Vec<u16>,
    base: usize,
    expected: u8,
) -> (value: Option<usize>)
    requires
        old(decoder).wf(),
        moderate(old(probs)@),
        base <= 0x1000_0000,
        base + 0x300 <= old(probs)@.len(),
    ensures
        match get_matched(old(decoder).reader(old(probs)@), base as int, 8, 1, expected as int) {
            Some((m, reader)) => value == Some(m as usize) && 256 <= m < 512
                && final(decoder).reader(final(probs)@) == reader && final(decoder).wf()
                && moderate(final(probs)@) && final(probs)@.len() == old(probs)@.len(),
            None => value is None,
        },
{
    let mut m: usize = 1;
    let mut left: usize = 8;
    let ghost whole = get_matched(decoder.reader(probs@), base as int, 8, 1, expected as int);
    proof {
        lemma_literal_fits(probs@.len(), base as int);
        lemma2_to64();
    }
    while left > 0
        invariant
            decoder.wf(),
            moderate(probs@),
            probs@.len() == old(probs)@.len(),
            left <= 8,
            base <= 0x1000_0000,
            base + 0x300 <= probs@.len(),
            matched_fits(probs@.len(), base as int, left as nat, m as int),
            m * pow2(left as nat) >= 256,
            whole == get_matched(
                old(decoder).reader(old(probs)@),
                base as int,
                8,
                1,
                expected as int,
            ),
            whole == get_matched(
                decoder.reader(probs@),
                base as int,
                left as nat,
                m as int,
                expected as int,
            ),
        decreases left,
    {
        let weight: usize = power_of_two(left - 1) as usize;
        proof {
            lemma_pow2_monotonic((left - 1) as nat, 7);
            lemma_pow2_step((left - 1) as nat);
            lemma2_to64();
            lemma_matched_fits_step(probs@.len(), base as int, left as nat, m as int, 0);
            lemma_matched_fits_step(probs@.len(), base as int, left as nat, m as int, 1);
        }
        let guess: usize = (expected as usize / weight) % 2;
        let index: usize = base + (1 + guess) * 256 + m;
        let bit: usize = match decoder.decode_bit(probs, index) {
            Some(bit) => bit as usize,
            None => return None,
        };
        left -= 1;
        proof {
            let p = pow2(left as nat) as int;
            assert((2 * m + bit) * p >= m * (2 * p)) by (nonlinear_arith)
                requires
                    bit >= 0,
                    p > 0,
            ;
        }
        m = 2 * m + bit;
        if bit != guess {
            assert(m < 0x200) by {
                lemma_pow2_pos(left as nat);
                let p = pow2(left as nat) as int;
                assert((m + 1) * p >= m + 1) by (nonlinear_arith)
                    requires
                        p >= 1,
                ;
            }
            return decode_tree_tail(decoder, probs, base, left, m);
        }
    }
    proof {
        lemma2_to64();
        assert(m * pow2(0) == m && (m + 1) * pow2(0) == m + 1) by (nonlinear_arith)
            requires
                pow2(0) == 1,
        ;
    }
    Some(m)
}

/// Decodes the rest of a literal once its models no longer depend on the expected byte.
fn decode_tree_tail(
    decoder: &mut RangeDecoder<'_>,
    probs: &mut Vec<u16>,
    base: usize,
    left: usize,
    start: usize,
) -> (value: Option<usize>)
    requires
        old(decoder).wf(),
        moderate(old(probs)@),
        left <= 7,
        base <= 0x1000_0000,
        start < 0x200,
        matched_fits(old(probs)@.len(), base as int, left as nat, start as int),
        tree_fits(old(probs)@.len(), base as int, left as nat, start as int),
        start * pow2(left as nat) >= 256,
    ensures
        match get_tree(
            old(decoder).reader(old(probs)@),
            base as int,
            left as nat,
            start as int,
        ) {
            Some((m, reader)) => value == Some(m as usize) && 256 <= m < 512
                && final(decoder).reader(final(probs)@) == reader && final(decoder).wf()
                && moderate(final(probs)@) && final(probs)@.len() == old(probs)@.len(),
            None => value is None,
        },
{
    if left == 0 {
        proof {
            lemma2_to64();
            assert(start * pow2(0) == start && (start + 1) * pow2(0) == start + 1)
                by (nonlinear_arith)
                requires
                    pow2(0) == 1,
            ;
        }
        return Some(start);
    }
    proof {
        lemma_matched_fits_step(probs@.len(), base as int, left as nat, start as int, 0);
    }
    decode_tree(decoder, probs, base, left, start)
}

/// Decodes a match length, counted from the shortest one.
fn decode_length(
    decoder: &mut RangeDecoder<'_>,
    probs: &mut Vec<u16>,
    base: usize,
    pos_state: usize,
) -> (value: Option<usize>)
    requires
        old(decoder).wf(),
        moderate(old(probs)@),
        base <= 0x1000,
        base + 514 <= old(probs)@.len(),
        pos_state < 16,
    ensures
        match get_length(old(decoder).reader(old(probs)@), base as int, pos_state as int) {
            Some((v, reader)) => value == Some(v as usize) && 0 <= v < 272
                && final(decoder).reader(final(probs)@) == reader && final(decoder).wf()
                && moderate(final(probs)@) && final(probs)@.len() == old(probs)@.len(),
            None => value is None,
        },
{
    proof {
        lemma2_to64();
    }
    match decoder.decode_bit(probs, base) {
        None => return None,
        Some(choice) => {
            if choice == 0 {
                return decode_tree_number(decoder, probs, base + 2 + pos_state * 8, 3);
            }
        },
    }
    match decoder.decode_bit(probs, base + 1) {
        None => None,
        Some(choice) => {
            if choice == 0 {
                match decode_tree_number(decoder, probs, base + 130 + pos_state * 8, 3) {
                    Some(value) => Some(8 + value),
                    None => None,
                }
            } else {
                match decode_tree_number(decoder, probs, base + 258, 8) {
                    Some(value) => Some(16 + value),
                    None => None,
                }
            }
        },
    }
}

/// Decodes what follows the slot of a distance.
fn decode_footer(decoder: &mut RangeDecoder<'_>, probs: &mut Vec<u16>, slot: usize) -> (value:
    Option<u32>)
    requires
        old(decoder).wf(),
        moderate(old(probs)@),
        LITERAL <= old(probs)@.len(),
        slot < 64,
    ensures
        match get_footer(old(decoder).reader(old(probs)@), slot as int) {
            Some((v, reader)) => value == Some(v as u32) && 0 <= v <= 0xffff_ffff
                && final(decoder).reader(final(probs)@) == reader && final(decoder).wf()
                && moderate(final(probs)@) && final(probs)@.len() == old(probs)@.len(),
            None => value is None,
        },
{
    if slot < 4 {
        return Some(slot as u32);
    }
    let bits: usize = slot / 2 - 1;
    proof {
        lemma_slot_base(slot as int);
        lemma2_to64();
        lemma_pow2_monotonic(bits as nat, 30);
    }
    let base: u64 = (2 + slot as u64 % 2) * power_of_two(bits);
    if slot < 14 {
        proof {
            lemma_pow2_monotonic(bits as nat, 5);
            lemma_whole_tree_fits(probs@.len(), SPEC_POS + base as int, bits as nat);
        }
        match decode_reverse(decoder, probs, SPEC_POS + base as usize, bits, 1) {
            Some(footer) => Some((base + footer as u64) as u32),
            None => None,
        }
    } else {
        let high: u32 = match decoder.decode_direct_bits((bits - 4) as u32, Ghost(probs@)) {
            Some(high) => high,
            None => return None,
        };
        proof {
            let n = (bits - 4) as nat;
            vstd::arithmetic::power2::lemma_pow2_adds(n, 4);
            lemma_whole_tree_fits(probs@.len(), ALIGN as int, 4);
        }
        match decode_reverse(decoder, probs, ALIGN, 4, 1) {
            Some(low) => Some((base + high as u64 * 16 + low as u64) as u32),
            None => None,
        }
    }
}

/// Decodes a distance, counted from the shortest one.
fn decode_distance(decoder: &mut RangeDecoder<'_>, probs: &mut Vec<u16>, context: usize) -> (value:
    Option<u32>)
    requires
        old(decoder).wf(),
        moderate(old(probs)@),
        LITERAL <= old(probs)@.len(),
        context <= 3,
    ensures
        match get_distance(old(decoder).reader(old(probs)@), context as int) {
            Some((v, reader)) => value == Some(v as u32) && 0 <= v <= 0xffff_ffff
                && final(decoder).reader(final(probs)@) == reader && final(decoder).wf()
                && moderate(final(probs)@) && final(probs)@.len() == old(probs)@.len(),
            None => value is None,
        },
{
    proof {
        lemma2_to64();
    }
    match decode_tree_number(decoder, probs, POS_SLOT + context * 64, 6) {
        Some(slot) => decode_footer(decoder, probs, slot),
        None => None,
    }
}

/// What a stream does next. Distances are counted from zero.
#[derive(Debug, Clone, Copy, PartialEq, Eq, Structural)]
pub enum Action {
    Literal(u8),
    ShortRep,
    Rep { index: usize, length: usize },
    Match { length: usize, distance: u32 },
}

impl View for Action {
    type V = Operation;

    open spec fn view(&self) -> Operation {
        match *self {
            Action::Literal(byte) => Operation::Literal(byte),
            Action::ShortRep => Operation::ShortRep,
            Action::Rep { index, length } => Operation::Rep {
                index: index as int,
                length: length as int,
            },
            Action::Match { length, distance } => Operation::Match {
                length: length as int,
                distance: distance as int,
            },
        }
    }
}

/// The context and position bits of a stream, and its dictionary size.
#[derive(Debug, Clone, Copy, PartialEq, Eq, Structural)]
pub struct StreamShape {
    pub lc: u32,
    pub lp: u32,
    pub pb: u32,
    pub dict_size: u32,
}

impl StreamShape {
    pub open spec fn shape(self) -> Shape {
        Shape {
            lc: self.lc as nat,
            lp: self.lp as nat,
            pb: self.pb as nat,
            dict: self.dict_size as int,
        }
    }

    /// The part of the position that selects models.
    pub fn pos_state(&self, position: usize) -> (state: usize)
        requires
            shape_ok(self.shape()),
        ensures
            state == position_state(self.shape(), position as int),
            state < 16,
    {
        proof {
            lemma_pow2_monotonic(self.pb as nat, 4);
            lemma2_to64();
        }
        position % power_of_two(self.pb as usize) as usize
    }

    /// Where the models of the literal at `position` begin.
    pub fn literal_context(&self, position: usize, previous: u8, Ghost(out): Ghost<Seq<u8>>) -> (
        base: usize)
        requires
            shape_ok(self.shape()),
            position == out.len(),
            previous == previous_byte(out),
        ensures
            base == literal_base(self.shape(), out),
            base <= 0x1000_0000,
            base + 0x300 <= model_count(self.shape()),
    {
        proof {
            let h = History { state: 0, reps: seq![0int, 0, 0, 0], out };
            lemma_indices(self.shape(), h);
            lemma2_to64();
            lemma_pow2_monotonic(self.lp as nat, 4);
            lemma_pow2_monotonic(self.lc as nat, 8);
            lemma_pow2_monotonic((8 - self.lc) as nat, 8);
            lemma_pow2_monotonic((self.lc + self.lp) as nat, 12);
        }
        let low: usize = position % power_of_two(self.lp as usize) as usize;
        let scale: usize = power_of_two(self.lc as usize) as usize;
        let high: usize = previous as usize / power_of_two((8 - self.lc) as usize) as usize;
        proof {
            assert(0 <= low * scale <= 16 * 256) by (nonlinear_arith)
                requires
                    0 <= low <= 16,
                    0 <= scale <= 256,
            ;
            assert(0 <= high <= 255) by (nonlinear_arith)
                requires
                    high == previous as int / (pow2((8 - self.lc) as nat) as int),
                    0 <= previous <= 255,
                    pow2((8 - self.lc) as nat) >= 1,
            ;
        }
        LITERAL + 0x300 * (low * scale + high)
    }

    /// Fresh models.
    pub fn models(&self) -> (probs: Vec<u16>)
        requires
            shape_ok(self.shape()),
        ensures
            probs@ == fresh_models(self.shape()),
            moderate(probs@),
            probs@.len() == model_count(self.shape()),
            LITERAL <= probs@.len(),
    {
        let bits: usize = (self.lc + self.lp) as usize;
        proof {
            lemma_pow2_monotonic(bits as nat, 12);
            lemma2_to64();
        }
        let probs: Vec<u16> = vec![1024; LITERAL + 0x300 * power_of_two(bits) as usize];
        assert(probs@ =~= fresh_models(self.shape()));
        probs
    }
}

/// Decodes the rest of a literal.
fn decode_literal(
    decoder: &mut RangeDecoder<'_>,
    probs: &mut Vec<u16>,
    shape: &StreamShape,
    state: usize,
    rep0: u32,
    output: &Vec<u8>,
    Ghost(h): Ghost<History>,
) -> (action: Result<Action, Defect>)
    requires
        old(decoder).wf(),
        moderate(old(probs)@),
        shape_ok(shape.shape()),
        old(probs)@.len() == model_count(shape.shape()),
        history_ok(h),
        h.state == state,
        h.reps[0] == rep0,
        h.out == output@,
    ensures
        match get_literal(shape.shape(), old(decoder).reader(old(probs)@), h) {
            Ok((op, reader)) => action is Ok && action->Ok_0@ == op && final(decoder).reader(
                final(probs)@,
            ) == reader && final(decoder).wf() && moderate(final(probs)@) && final(probs)@.len()
                == old(probs)@.len(),
            Err(defect) => action == Err::<Action, Defect>(defect),
        },
{
    let previous: u8 = if output.len() == 0 {
        0
    } else {
        output[output.len() - 1]
    };
    let base: usize = shape.literal_context(output.len(), previous, Ghost(output@));
    proof {
        lemma_literal_fits(probs@.len(), base as int);
        lemma2_to64();
    }
    let symbol = if state < 7 {
        decode_tree(decoder, probs, base, 8, 1)
    } else {
        let distance: u64 = rep0 as u64 + 1;
        if distance > output.len() as u64 || distance > shape.dict_size as u64 {
            return Err(Defect::LiteralDistance { distance, position: output.len() });
        }
        decode_matched(decoder, probs, base, output[output.len() - distance as usize])
    };
    match symbol {
        Some(m) => Ok(Action::Literal((m - 256) as u8)),
        None => Err(Defect::Truncated),
    }
}

/// Decodes the rest of a match at a new distance.
fn decode_match(decoder: &mut RangeDecoder<'_>, probs: &mut Vec<u16>, pos_state: usize) -> (action:
    Result<Action, Defect>)
    requires
        old(decoder).wf(),
        moderate(old(probs)@),
        LITERAL <= old(probs)@.len(),
        pos_state < 16,
    ensures
        match get_match(old(decoder).reader(old(probs)@), pos_state as int) {
            Ok((op, reader)) => action is Ok && action->Ok_0@ == op && final(decoder).reader(
                final(probs)@,
            ) == reader && final(decoder).wf() && moderate(final(probs)@) && final(probs)@.len()
                == old(probs)@.len(),
            Err(defect) => action == Err::<Action, Defect>(defect),
        },
{
    let length: usize = match decode_length(decoder, probs, LEN, pos_state) {
        Some(length) => length,
        None => return Err(Defect::Truncated),
    };
    let context: usize = if length < 3 {
        length
    } else {
        3
    };
    match decode_distance(decoder, probs, context) {
        Some(distance) => {
            if distance == 0xffff_ffff {
                Err(Defect::EndMarker)
            } else {
                Ok(Action::Match { length: length + 2, distance })
            }
        },
        None => Err(Defect::Truncated),
    }
}

/// Decodes the length of a match at a repeated distance.
fn decode_rep_length(
    decoder: &mut RangeDecoder<'_>,
    probs: &mut Vec<u16>,
    index: usize,
    pos_state: usize,
) -> (action: Result<Action, Defect>)
    requires
        old(decoder).wf(),
        moderate(old(probs)@),
        LITERAL <= old(probs)@.len(),
        pos_state < 16,
    ensures
        match get_rep_length(old(decoder).reader(old(probs)@), index as int, pos_state as int) {
            Ok((op, reader)) => action is Ok && action->Ok_0@ == op && final(decoder).reader(
                final(probs)@,
            ) == reader && final(decoder).wf() && moderate(final(probs)@) && final(probs)@.len()
                == old(probs)@.len(),
            Err(defect) => action == Err::<Action, Defect>(defect),
        },
{
    match decode_length(decoder, probs, REP_LEN, pos_state) {
        Some(length) => Ok(Action::Rep { index, length: length + 2 }),
        None => Err(Defect::Truncated),
    }
}

/// Decodes the rest of a match at a repeated distance.
fn decode_rep(
    decoder: &mut RangeDecoder<'_>,
    probs: &mut Vec<u16>,
    state: usize,
    pos_state: usize,
) -> (action: Result<Action, Defect>)
    requires
        old(decoder).wf(),
        moderate(old(probs)@),
        LITERAL <= old(probs)@.len(),
        state < 12,
        pos_state < 16,
    ensures
        match get_rep(old(decoder).reader(old(probs)@), state as int, pos_state as int) {
            Ok((op, reader)) => action is Ok && action->Ok_0@ == op && final(decoder).reader(
                final(probs)@,
            ) == reader && final(decoder).wf() && moderate(final(probs)@) && final(probs)@.len()
                == old(probs)@.len(),
            Err(defect) => action == Err::<Action, Defect>(defect),
        },
{
    let g0: u32 = match decoder.decode_bit(probs, IS_REP_G0 + state) {
        Some(bit) => bit,
        None => return Err(Defect::Truncated),
    };
    if g0 == 0 {
        return match decoder.decode_bit(probs, IS_REP0_LONG + state * 16 + pos_state) {
            Some(long) => if long == 0 {
                Ok(Action::ShortRep)
            } else {
                decode_rep_length(decoder, probs, 0, pos_state)
            },
            None => Err(Defect::Truncated),
        };
    }
    let g1: u32 = match decoder.decode_bit(probs, IS_REP_G1 + state) {
        Some(bit) => bit,
        None => return Err(Defect::Truncated),
    };
    if g1 == 0 {
        return decode_rep_length(decoder, probs, 1, pos_state);
    }
    match decoder.decode_bit(probs, IS_REP_G2 + state) {
        Some(g2) => decode_rep_length(decoder, probs, 2 + g2 as usize, pos_state),
        None => Err(Defect::Truncated),
    }
}

/// Decodes the next operation.
fn decode_operation(
    decoder: &mut RangeDecoder<'_>,
    probs: &mut Vec<u16>,
    shape: &StreamShape,
    state: usize,
    rep0: u32,
    output: &Vec<u8>,
    Ghost(h): Ghost<History>,
) -> (action: Result<Action, Defect>)
    requires
        old(decoder).wf(),
        moderate(old(probs)@),
        shape_ok(shape.shape()),
        old(probs)@.len() == model_count(shape.shape()),
        history_ok(h),
        h.state == state,
        h.reps[0] == rep0,
        h.out == output@,
    ensures
        match get_operation(shape.shape(), old(decoder).reader(old(probs)@), h) {
            Ok((op, reader)) => action is Ok && action->Ok_0@ == op && final(decoder).reader(
                final(probs)@,
            ) == reader && final(decoder).wf() && moderate(final(probs)@) && final(probs)@.len()
                == old(probs)@.len(),
            Err(defect) => action == Err::<Action, Defect>(defect),
        },
{
    let pos_state: usize = shape.pos_state(output.len());
    proof {
        lemma_indices(shape.shape(), h);
    }
    match decoder.decode_bit(probs, IS_MATCH + state * 16 + pos_state) {
        Some(is_match) => {
            if is_match == 0 {
                return decode_literal(decoder, probs, shape, state, rep0, output, Ghost(h));
            }
        },
        None => return Err(Defect::Truncated),
    }
    match decoder.decode_bit(probs, IS_REP + state) {
        Some(is_rep) => if is_rep == 0 {
            decode_match(decoder, probs, pos_state)
        } else {
            decode_rep(decoder, probs, state, pos_state)
        },
        None => Err(Defect::Truncated),
    }
}

/// The last distances as numbers.
pub open spec fn reps_view(reps: (u32, u32, u32, u32)) -> Seq<int> {
    seq![reps.0 as int, reps.1 as int, reps.2 as int, reps.3 as int]
}

/// The last distances after the one at `index` was used again.
pub fn move_rep(reps: (u32, u32, u32, u32), index: usize) -> (result: (u32, u32, u32, u32))
    requires
        index < 4,
    ensures
        reps_view(result) == reps_after_rep(reps_view(reps), index as int),
        result.0 == reps_view(reps)[index as int],
{
    let result = if index == 0 {
        reps
    } else if index == 1 {
        (reps.1, reps.0, reps.2, reps.3)
    } else if index == 2 {
        (reps.2, reps.0, reps.1, reps.3)
    } else {
        (reps.3, reps.0, reps.1, reps.2)
    };
    assert(reps_view(result) =~= reps_after_rep(reps_view(reps), index as int));
    result
}

pub fn update_literal_state(state: usize) -> (next: usize)
    requires
        state < 12,
    ensures
        next == state_after_literal(state as int),
{
    if state < 4 {
        0
    } else if state < 10 {
        state - 3
    } else {
        state - 6
    }
}

pub fn update_match_state(state: usize) -> (next: usize)
    ensures
        next == state_after_match(state as int),
{
    if state < 7 {
        7
    } else {
        10
    }
}

pub fn update_rep_state(state: usize) -> (next: usize)
    ensures
        next == state_after_rep(state as int),
{
    if state < 7 {
        8
    } else {
        11
    }
}

pub fn update_short_rep_state(state: usize) -> (next: usize)
    ensures
        next == state_after_short_rep(state as int),
{
    if state < 7 {
        9
    } else {
        11
    }
}

/// Copies a match, if its source lies within the window and its end within the limit.
fn copy_match_checked(
    output: &mut Vec<u8>,
    distance0: u32,
    length: usize,
    limit: usize,
    dict_size: u32,
) -> (result: Result<(), Defect>)
    requires
        old(output)@.len() <= limit,
        1 <= length <= 273,
    ensures
        ({
            let distance = distance0 + 1;
            if distance > old(output)@.len() || distance > dict_size {
                result == Err::<(), Defect>(
                    Defect::MatchDistance {
                        distance: distance as u64,
                        position: old(output)@.len() as usize,
                    },
                )
            } else if old(output)@.len() + length > limit {
                result == Err::<(), Defect>(
                    Defect::MatchExceedsOutput {
                        length,
                        remaining: (limit - old(output)@.len()) as usize,
                    },
                )
            } else {
                result is Ok && final(output)@ == crate::codecs::zlib::inflate::copy_match(
                    old(output)@,
                    distance,
                    length as nat,
                ) && final(output)@.len() == old(output)@.len() + length
            }
        }),
{
    let distance: u64 = distance0 as u64 + 1;
    if distance > output.len() as u64 || distance > dict_size as u64 {
        return Err(Defect::MatchDistance { distance, position: output.len() });
    }
    let remaining: usize = limit - output.len();
    if length > remaining {
        return Err(Defect::MatchExceedsOutput { length, remaining });
    }
    append_match(output, distance as usize, length);
    Ok(())
}

/// Decodes a stream to exactly `limit` bytes, behind an empty `output`.
pub fn decode_operations(
    decoder: RangeDecoder<'_>,
    shape: &StreamShape,
    limit: usize,
    output: Vec<u8>,
) -> (result: Result<Vec<u8>, Defect>)
    requires
        decoder.wf(),
        shape_ok(shape.shape()),
        output@ == Seq::<u8>::empty(),
    ensures
        match steps(
            shape.shape(),
            decoder.reader(fresh_models(shape.shape())),
            no_history(),
            limit as int,
        ) {
            Ok(out) => result is Ok && result->Ok_0@ == out,
            Err(defect) => result == Err::<Vec<u8>, Defect>(defect),
        },
{
    let mut source = decoder;
    let mut output = output;
    let mut probs = shape.models();
    let mut state: usize = 0;
    let mut reps: (u32, u32, u32, u32) = (0, 0, 0, 0);
    let ghost mut h = no_history();
    let ghost whole = steps(shape.shape(), source.reader(probs@), h, limit as int);
    assert(reps_view(reps) =~= h.reps);
    while output.len() < limit
        invariant
            source.wf(),
            moderate(probs@),
            shape_ok(shape.shape()),
            probs@.len() == model_count(shape.shape()),
            output@.len() <= limit,
            h == (History { state: state as int, reps: reps_view(reps), out: output@ }),
            history_ok(h),
            whole == steps(
                shape.shape(),
                decoder.reader(fresh_models(shape.shape())),
                no_history(),
                limit as int,
            ),
            whole == steps(shape.shape(), source.reader(probs@), h, limit as int),
        decreases limit - output.len(),
    {
        let ghost before = h;
        proof {
            lemma_operation_length(shape.shape(), source.reader(probs@), h);
        }
        let action = match decode_operation(
            &mut source,
            &mut probs,
            shape,
            state,
            reps.0,
            &output,
            Ghost(h),
        ) {
            Ok(action) => action,
            Err(defect) => return Err(defect),
        };
        match action {
            Action::Literal(byte) => {
                output.push(byte);
                state = update_literal_state(state);
            },
            Action::ShortRep => {
                match copy_match_checked(&mut output, reps.0, 1, limit, shape.dict_size) {
                    Ok(()) => {},
                    Err(defect) => return Err(defect),
                }
                state = update_short_rep_state(state);
            },
            Action::Rep { index, length } => {
                let next = move_rep(reps, index);
                match copy_match_checked(&mut output, next.0, length, limit, shape.dict_size) {
                    Ok(()) => {},
                    Err(defect) => return Err(defect),
                }
                reps = next;
                state = update_rep_state(state);
            },
            Action::Match { length, distance } => {
                match copy_match_checked(&mut output, distance, length, limit, shape.dict_size) {
                    Ok(()) => {},
                    Err(defect) => return Err(defect),
                }
                reps = (distance, reps.0, reps.1, reps.2);
                state = update_match_state(state);
            },
        }
        proof {
            h = advanced(before, action@);
            assert(reps_view(reps) =~= h.reps);
        }
    }
    Ok(output)
}

} // verus!
