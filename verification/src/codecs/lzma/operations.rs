//! LZMA streams as sequences of operations: literals, matches and repeated distances.

use vstd::arithmetic::power2::{lemma2_to64, lemma_pow2_adds, lemma_pow2_pos, pow2};
use vstd::prelude::*;

use crate::codecs::lzma::coder::{
    fits, get_bit, lemma_bit_read_back, lemma_put_bit_ok, number, put_bit, reader_at, whole,
    writer_ok, Place, Reader, Writer,
};
use crate::codecs::lzma::range::{first_place, lemma_number5};
use crate::codecs::lzma::symbols::{
    distance_context, get_distance, get_length, get_matched, get_tree, lemma_distance_read_back,
    lemma_length_read_back, lemma_matched_read_back, lemma_put_distance_ok, lemma_put_length_ok,
    lemma_put_matched_ok, lemma_put_tree_ok, lemma_tree_read_back, lemma_whole_tree_fits,
    matched_fits, put_distance, put_length, put_matched, put_tree, tree_fits, IS_MATCH, IS_REP,
    IS_REP0_LONG, IS_REP_G0, IS_REP_G1, IS_REP_G2, LEN, LITERAL, REP_LEN,
};
use crate::codecs::matchfinder::repeats;
use crate::codecs::zlib::deflate::lemma_copy_repeats;
use crate::codecs::zlib::inflate::{copy_match, lemma_copy_match_len};
use crate::math::{lemma_pow2_monotonic, lemma_pow2_step};

verus! {

/// The parameters that shape a stream: how many bits of the previous byte and of the position
/// select the models of a literal, how many bits of the position select other models, and how
/// far back a match may reach.
pub struct Shape {
    pub lc: nat,
    pub lp: nat,
    pub pb: nat,
    pub dict: int,
}

pub open spec fn shape_ok(shape: Shape) -> bool {
    shape.lc <= 8 && shape.lp <= 4 && shape.pb <= 4 && shape.dict >= 1
}

/// The number of models.
pub open spec fn model_count(shape: Shape) -> int {
    LITERAL + 0x300 * pow2(shape.lc + shape.lp)
}

/// The models before the first bit.
pub open spec fn fresh_models(shape: Shape) -> Seq<u16> {
    Seq::new(model_count(shape) as nat, |i: int| 1024u16)
}

/// What a stream may do next. Distances are counted from zero.
pub enum Operation {
    Literal(u8),
    ShortRep,
    Rep { index: int, length: int },
    Match { length: int, distance: int },
}

/// What a decoder has done so far: its state, the last four distances and its output.
pub struct History {
    pub state: int,
    pub reps: Seq<int>,
    pub out: Seq<u8>,
}

pub open spec fn history_ok(h: History) -> bool {
    0 <= h.state < 12 && h.reps.len() == 4
}

/// The history before the first operation.
pub open spec fn no_history() -> History {
    History { state: 0, reps: seq![0int, 0, 0, 0], out: Seq::empty() }
}

/// Why a stream is refused. Distances are counted from one.
#[derive(Debug, Clone, Copy, PartialEq, Eq, Structural)]
pub enum Defect {
    Truncated,
    LiteralDistance { distance: u64, position: usize },
    MatchDistance { distance: u64, position: usize },
    MatchExceedsOutput { length: usize, remaining: usize },
    EndMarker,
}

pub open spec fn state_after_literal(state: int) -> int {
    if state < 4 {
        0
    } else if state < 10 {
        state - 3
    } else {
        state - 6
    }
}

pub open spec fn state_after_match(state: int) -> int {
    if state < 7 {
        7
    } else {
        10
    }
}

pub open spec fn state_after_rep(state: int) -> int {
    if state < 7 {
        8
    } else {
        11
    }
}

pub open spec fn state_after_short_rep(state: int) -> int {
    if state < 7 {
        9
    } else {
        11
    }
}

/// The last distances after the one at `index` was used again.
pub open spec fn reps_after_rep(reps: Seq<int>, index: int) -> Seq<int> {
    if index == 0 {
        reps
    } else if index == 1 {
        seq![reps[1], reps[0], reps[2], reps[3]]
    } else if index == 2 {
        seq![reps[2], reps[0], reps[1], reps[3]]
    } else {
        seq![reps[3], reps[0], reps[1], reps[2]]
    }
}

/// The last distances after a match at a new distance.
pub open spec fn reps_after_match(reps: Seq<int>, distance: int) -> Seq<int> {
    seq![distance, reps[0], reps[1], reps[2]]
}

/// How many bytes an operation appends.
pub open spec fn operation_length(op: Operation) -> int {
    match op {
        Operation::Literal(_) => 1,
        Operation::ShortRep => 1,
        Operation::Rep { index, length } => length,
        Operation::Match { length, distance } => length,
    }
}

/// How far back an operation copies from, counted from zero.
pub open spec fn operation_distance(h: History, op: Operation) -> int {
    match op {
        Operation::Literal(_) => 0,
        Operation::ShortRep => h.reps[0],
        Operation::Rep { index, length } => h.reps[index],
        Operation::Match { length, distance } => distance,
    }
}

/// The history after an operation.
pub open spec fn advanced(h: History, op: Operation) -> History {
    let copied = copy_match(h.out, operation_distance(h, op) + 1, operation_length(op) as nat);
    match op {
        Operation::Literal(byte) => History {
            state: state_after_literal(h.state),
            reps: h.reps,
            out: h.out.push(byte),
        },
        Operation::ShortRep => History {
            state: state_after_short_rep(h.state),
            reps: h.reps,
            out: copied,
        },
        Operation::Rep { index, length } => History {
            state: state_after_rep(h.state),
            reps: reps_after_rep(h.reps, index),
            out: copied,
        },
        Operation::Match { length, distance } => History {
            state: state_after_match(h.state),
            reps: reps_after_match(h.reps, distance),
            out: copied,
        },
    }
}

/// Why an operation cannot be done, if it cannot.
pub open spec fn refusal(shape: Shape, h: History, op: Operation, limit: int) -> Option<Defect> {
    let distance = operation_distance(h, op) + 1;
    let length = operation_length(op);
    if op is Literal {
        None
    } else if distance > h.out.len() || distance > shape.dict {
        Some(
            Defect::MatchDistance { distance: distance as u64, position: h.out.len() as usize },
        )
    } else if h.out.len() + length > limit {
        Some(
            Defect::MatchExceedsOutput {
                length: length as usize,
                remaining: (limit - h.out.len()) as usize,
            },
        )
    } else {
        None
    }
}

/// The part of the position that selects models.
pub open spec fn position_state(shape: Shape, position: int) -> int {
    position % (pow2(shape.pb) as int)
}

/// The byte before the next one.
pub open spec fn previous_byte(out: Seq<u8>) -> int {
    if out.len() == 0 {
        0
    } else {
        out.last() as int
    }
}

/// Where the models of the next literal begin.
pub open spec fn literal_base(shape: Shape, out: Seq<u8>) -> int {
    LITERAL + 0x300 * (out.len() as int % (pow2(shape.lp) as int) * pow2(shape.lc) + previous_byte(
        out,
    ) / (pow2((8 - shape.lc) as nat) as int))
}

/// The byte at the last distance.
pub open spec fn expected_byte(h: History) -> int {
    h.out[h.out.len() - h.reps[0] - 1] as int
}

/// Reads the rest of a literal.
pub open spec fn get_literal(shape: Shape, r: Reader, h: History) -> Result<
    (Operation, Reader),
    Defect,
> {
    let base = literal_base(shape, h.out);
    let distance = h.reps[0] + 1;
    if h.state < 7 {
        match get_tree(r, base, 8, 1) {
            None => Err(Defect::Truncated),
            Some((m, next)) => Ok((Operation::Literal((m - 256) as u8), next)),
        }
    } else if distance > h.out.len() || distance > shape.dict {
        Err(Defect::LiteralDistance { distance: distance as u64, position: h.out.len() as usize })
    } else {
        match get_matched(r, base, 8, 1, expected_byte(h)) {
            None => Err(Defect::Truncated),
            Some((m, next)) => Ok((Operation::Literal((m - 256) as u8), next)),
        }
    }
}

/// Reads the rest of a match at a new distance.
pub open spec fn get_match(r: Reader, pos_state: int) -> Result<(Operation, Reader), Defect> {
    match get_length(r, LEN as int, pos_state) {
        None => Err(Defect::Truncated),
        Some((length, r1)) => match get_distance(r1, distance_context(length)) {
            None => Err(Defect::Truncated),
            Some((distance, next)) => if distance == 0xffff_ffff {
                Err(Defect::EndMarker)
            } else {
                Ok((Operation::Match { length: length + 2, distance }, next))
            },
        },
    }
}

/// Reads the length of a match at a repeated distance.
pub open spec fn get_rep_length(r: Reader, index: int, pos_state: int) -> Result<
    (Operation, Reader),
    Defect,
> {
    match get_length(r, REP_LEN as int, pos_state) {
        None => Err(Defect::Truncated),
        Some((length, next)) => Ok((Operation::Rep { index, length: length + 2 }, next)),
    }
}

/// Reads the rest of a match at a repeated distance.
pub open spec fn get_rep(r: Reader, state: int, pos_state: int) -> Result<
    (Operation, Reader),
    Defect,
> {
    match get_bit(r, IS_REP_G0 + state) {
        None => Err(Defect::Truncated),
        Some((g0, r0)) => if g0 == 0 {
            match get_bit(r0, IS_REP0_LONG + state * 16 + pos_state) {
                None => Err(Defect::Truncated),
                Some((long, r1)) => if long == 0 {
                    Ok((Operation::ShortRep, r1))
                } else {
                    get_rep_length(r1, 0, pos_state)
                },
            }
        } else {
            match get_bit(r0, IS_REP_G1 + state) {
                None => Err(Defect::Truncated),
                Some((g1, r1)) => if g1 == 0 {
                    get_rep_length(r1, 1, pos_state)
                } else {
                    match get_bit(r1, IS_REP_G2 + state) {
                        None => Err(Defect::Truncated),
                        Some((g2, r2)) => get_rep_length(r2, 2 + g2, pos_state),
                    }
                },
            }
        },
    }
}

/// Reads the next operation.
pub open spec fn get_operation(shape: Shape, r: Reader, h: History) -> Result<
    (Operation, Reader),
    Defect,
> {
    let pos_state = position_state(shape, h.out.len() as int);
    match get_bit(r, IS_MATCH + h.state * 16 + pos_state) {
        None => Err(Defect::Truncated),
        Some((is_match, r1)) => if is_match == 0 {
            get_literal(shape, r1, h)
        } else {
            match get_bit(r1, IS_REP + h.state) {
                None => Err(Defect::Truncated),
                Some((is_rep, r2)) => if is_rep == 0 {
                    get_match(r2, pos_state)
                } else {
                    get_rep(r2, h.state, pos_state)
                },
            }
        },
    }
}

/// Reads and does the next operation.
pub open spec fn step(shape: Shape, r: Reader, h: History, limit: int) -> Result<
    (Reader, History),
    Defect,
> {
    match get_operation(shape, r, h) {
        Err(defect) => Err(defect),
        Ok((op, next)) => match refusal(shape, h, op, limit) {
            Some(defect) => Err(defect),
            None => Ok((next, advanced(h, op))),
        },
    }
}

/// An operation that is done appends at least a byte.
pub proof fn lemma_step_advances(shape: Shape, r: Reader, h: History, limit: int)
    requires
        history_ok(h),
        h.out.len() < limit,
    ensures
        step(shape, r, h, limit) matches Ok((next, after)) ==> h.out.len() < after.out.len()
            <= limit,
{
    if let Ok((op, next)) = get_operation(shape, r, h) {
        lemma_operation_length(shape, r, h);
        lemma_copy_match_len(
            h.out,
            operation_distance(h, op) + 1,
            operation_length(op) as nat,
        );
    }
}

/// The rest of a stream: the output of exactly `limit` bytes.
pub open spec fn steps(shape: Shape, r: Reader, h: History, limit: int) -> Result<Seq<u8>, Defect>
    decreases limit - h.out.len(),
{
    if h.out.len() >= limit || !history_ok(h) {
        Ok(h.out)
    } else {
        match step(shape, r, h, limit) {
            Err(defect) => Err(defect),
            Ok((next, after)) => {
                proof {
                    lemma_step_advances(shape, r, h, limit);
                }
                steps(shape, next, after, limit)
            },
        }
    }
}

/// The decoder before the first operation.
pub open spec fn first_reader(shape: Shape, lazy: bool, data: Seq<u8>, place: Place) -> Reader {
    Reader { lazy, data, place, probs: fresh_models(shape) }
}

/// The encoder before the first operation.
pub open spec fn first_writer(shape: Shape) -> Writer {
    Writer { interval: whole(), probs: fresh_models(shape) }
}

/// The lengths of trees are what their bits can express.
proof fn lemma_get_tree_value(r: Reader, base: int, n: nat, m: int)
    requires
        m >= 1,
    ensures
        get_tree(r, base, n, m) matches Some((v, next)) ==> m * pow2(n) <= v < (m + 1) * pow2(n),
    decreases n,
{
    if n == 0 {
        lemma2_to64();
        assert(m * pow2(0) == m && (m + 1) * pow2(0) == m + 1) by (nonlinear_arith)
            requires
                pow2(0) == 1,
        ;
    } else if let Some((bit, next)) = get_bit(r, base + m) {
        reveal(get_bit);
        lemma_get_tree_value(next, base, (n - 1) as nat, 2 * m + bit);
        lemma_pow2_step((n - 1) as nat);
        let p = pow2((n - 1) as nat) as int;
        assert((2 * m + bit) * p == m * (2 * p) + bit * p) by (nonlinear_arith);
        assert((2 * m + bit + 1) * p == m * (2 * p) + bit * p + p) by (nonlinear_arith);
        assert((m + 1) * (2 * p) == m * (2 * p) + p + p) by (nonlinear_arith);
        assert(bit * p == (if bit == 0 {
            0
        } else {
            p
        })) by (nonlinear_arith)
            requires
                bit == 0 || bit == 1,
        ;
    }
}

pub proof fn lemma_get_length_value(r: Reader, base: int, pos_state: int)
    ensures
        get_length(r, base, pos_state) matches Some((v, next)) ==> 0 <= v < 272,
{
    lemma2_to64();
    if let Some((choice, r1)) = get_bit(r, base) {
        lemma_get_tree_value(r1, base + 2 + pos_state * 8, 3, 1);
        if let Some((choice2, r2)) = get_bit(r1, base + 1) {
            lemma_get_tree_value(r2, base + 130 + pos_state * 8, 3, 1);
            lemma_get_tree_value(r2, base + 258, 8, 1);
        }
    }
}

proof fn lemma_rep_length(r: Reader, index: int, pos_state: int)
    ensures
        get_rep_length(r, index, pos_state) matches Ok((op, next)) ==> op is Rep && op->index
            == index && 2 <= operation_length(op) <= 273,
{
    lemma_get_length_value(r, REP_LEN as int, pos_state);
}

/// What is read is of a length that can be written.
pub proof fn lemma_operation_length(shape: Shape, r: Reader, h: History)
    ensures
        get_operation(shape, r, h) matches Ok((op, next)) ==> 1 <= operation_length(op) <= 273 && (
        op is Rep ==> 0 <= op->index < 4),
{
    let pos_state = position_state(shape, h.out.len() as int);
    if let Some((is_match, r1)) = get_bit(r, IS_MATCH + h.state * 16 + pos_state) {
        if is_match != 0 {
            if let Some((is_rep, r2)) = get_bit(r1, IS_REP + h.state) {
                if is_rep == 0 {
                    lemma_get_length_value(r2, LEN as int, pos_state);
                } else if let Some((g0, r3)) = get_bit(r2, IS_REP_G0 + h.state) {
                    if let Some((long, r4)) = get_bit(
                        r3,
                        IS_REP0_LONG + h.state * 16 + pos_state,
                    ) {
                        lemma_rep_length(r4, 0, pos_state);
                    }
                    if let Some((g1, r4)) = get_bit(r3, IS_REP_G1 + h.state) {
                        lemma_rep_length(r4, 1, pos_state);
                        if let Some((g2, r5)) = get_bit(r4, IS_REP_G2 + h.state) {
                            reveal(get_bit);
                            lemma_rep_length(r5, 2 + g2, pos_state);
                        }
                    }
                }
            }
        }
    }
}

/// Writes a literal.
pub open spec fn put_literal(shape: Shape, w: Writer, h: History, byte: u8) -> Writer {
    let base = literal_base(shape, h.out);
    if h.state < 7 {
        put_tree(w, base, 8, 1, byte as int)
    } else {
        put_matched(w, base, 8, 1, byte as int, expected_byte(h))
    }
}

/// Writes which of the last distances is used again.
pub open spec fn put_rep_index(w: Writer, state: int, pos_state: int, index: int) -> Writer {
    if index == 0 {
        put_bit(
            put_bit(w, IS_REP_G0 + state, 0),
            IS_REP0_LONG + state * 16 + pos_state,
            1,
        )
    } else if index == 1 {
        put_bit(put_bit(w, IS_REP_G0 + state, 1), IS_REP_G1 + state, 0)
    } else {
        put_bit(
            put_bit(put_bit(w, IS_REP_G0 + state, 1), IS_REP_G1 + state, 1),
            IS_REP_G2 + state,
            index - 2,
        )
    }
}

/// Writes an operation.
pub open spec fn put_operation(shape: Shape, w: Writer, h: History, op: Operation) -> Writer {
    let pos_state = position_state(shape, h.out.len() as int);
    let match_index = IS_MATCH + h.state * 16 + pos_state;
    let copy = put_bit(w, match_index, 1);
    match op {
        Operation::Literal(byte) => put_literal(shape, put_bit(w, match_index, 0), h, byte),
        Operation::ShortRep => put_bit(
            put_bit(put_bit(copy, IS_REP + h.state, 1), IS_REP_G0 + h.state, 0),
            IS_REP0_LONG + h.state * 16 + pos_state,
            0,
        ),
        Operation::Rep { index, length } => put_length(
            put_rep_index(put_bit(copy, IS_REP + h.state, 1), h.state, pos_state, index),
            REP_LEN as int,
            pos_state,
            length - 2,
        ),
        Operation::Match { length, distance } => put_distance(
            put_length(put_bit(copy, IS_REP + h.state, 0), LEN as int, pos_state, length - 2),
            distance_context(length - 2),
            distance,
        ),
    }
}

/// Writes the marker that ends a stream: a shortest match at the largest distance.
pub open spec fn put_end_marker(shape: Shape, w: Writer, h: History) -> Writer {
    let pos_state = position_state(shape, h.out.len() as int);
    let copy = put_bit(w, IS_MATCH + h.state * 16 + pos_state, 1);
    put_distance(
        put_length(put_bit(copy, IS_REP + h.state, 0), LEN as int, pos_state, 0),
        0,
        0xffff_ffff,
    )
}

/// Writes operations one after another.
pub open spec fn put_operations(
    shape: Shape,
    w: Writer,
    h: History,
    ops: Seq<Operation>,
) -> Writer
    decreases ops.len(),
{
    if ops.len() == 0 {
        w
    } else {
        put_operations(
            shape,
            put_operation(shape, w, h, ops[0]),
            advanced(h, ops[0]),
            ops.drop_first(),
        )
    }
}

/// The history after operations.
pub open spec fn history_after(h: History, ops: Seq<Operation>) -> History
    decreases ops.len(),
{
    if ops.len() == 0 {
        h
    } else {
        history_after(advanced(h, ops[0]), ops.drop_first())
    }
}

/// An operation that continues `input` from what the history holds.
pub open spec fn continues(shape: Shape, h: History, op: Operation, input: Seq<u8>) -> bool {
    let position = h.out.len() as int;
    &&& position < input.len()
    &&& match op {
        Operation::Literal(byte) => byte == input[position] && (h.state >= 7 ==> 0 <= h.reps[0]
            && h.reps[0] < h.out.len() && h.reps[0] < shape.dict),
        Operation::ShortRep => h.reps[0] < shape.dict && repeats(
            input,
            position,
            1,
            h.reps[0] + 1,
        ),
        Operation::Rep { index, length } => 0 <= index < 4 && 2 <= length <= 273 && h.reps[index]
            < shape.dict && repeats(input, position, length, h.reps[index] + 1),
        Operation::Match { length, distance } => 2 <= length <= 273 && distance < shape.dict
            && distance < 0xffff_ffff && repeats(input, position, length, distance + 1),
    }
}

/// Operations that spell out the rest of `input`.
pub open spec fn spells(shape: Shape, h: History, ops: Seq<Operation>, input: Seq<u8>) -> bool
    decreases ops.len(),
{
    if ops.len() == 0 {
        h.out.len() == input.len()
    } else {
        continues(shape, h, ops[0], input) && spells(
            shape,
            advanced(h, ops[0]),
            ops.drop_first(),
            input,
        )
    }
}

/// What an operation appends is what it continues.
pub proof fn lemma_continues(shape: Shape, h: History, op: Operation, input: Seq<u8>)
    requires
        history_ok(h),
        h.out == input.take(h.out.len() as int),
        h.out.len() <= input.len(),
        continues(shape, h, op, input),
    ensures
        history_ok(advanced(h, op)),
        advanced(h, op).out == input.take(h.out.len() + operation_length(op)),
        h.out.len() + operation_length(op) <= input.len(),
        refusal(shape, h, op, input.len() as int) is None,
{
    let position = h.out.len() as int;
    if let Operation::Literal(byte) = op {
        assert(h.out.push(byte) =~= input.take(position + 1));
    } else {
        lemma_copy_repeats(
            input,
            position,
            operation_length(op) as nat,
            operation_distance(h, op) + 1,
        );
    }
}

/// The models of the next operation lie within the table.
pub proof fn lemma_indices(shape: Shape, h: History)
    requires
        shape_ok(shape),
        history_ok(h),
    ensures
        0 <= position_state(shape, h.out.len() as int) < 16,
        0 <= literal_base(shape, h.out),
        literal_base(shape, h.out) + 0x300 <= model_count(shape),
        LITERAL <= model_count(shape),
        LITERAL <= literal_base(shape, h.out),
{
    lemma2_to64();
    lemma_pow2_monotonic(shape.pb, 4);
    lemma_pow2_pos(shape.lp);
    lemma_pow2_pos(shape.lc);
    let a = out_mod(h.out.len() as int, pow2(shape.lp) as int);
    let b = pow2(shape.lc) as int;
    let d = pow2((8 - shape.lc) as nat) as int;
    lemma_pow2_pos((8 - shape.lc) as nat);
    lemma_pow2_adds(shape.lc, (8 - shape.lc) as nat);
    lemma_pow2_adds(shape.lc, shape.lp);
    let c = previous_byte(h.out) / d;
    let e = previous_byte(h.out);
    assert(0 <= c < b) by (nonlinear_arith)
        requires
            c == e / d,
            0 <= e < 256,
            b * d == 256,
            d > 0,
    ;
    let f = pow2(shape.lp) as int;
    assert(0 <= a * b && a * b + b <= b * f) by (nonlinear_arith)
        requires
            0 <= a < f,
            b > 0,
    ;
}

spec fn out_mod(n: int, m: int) -> int {
    n % m
}

pub open spec fn models_ok(shape: Shape, w: Writer) -> bool {
    writer_ok(w) && w.probs.len() == model_count(shape)
}

/// Writing keeps the encoder in order.
pub proof fn lemma_put_operation_ok(
    shape: Shape,
    w: Writer,
    h: History,
    op: Operation,
    input: Seq<u8>,
)
    requires
        shape_ok(shape),
        history_ok(h),
        models_ok(shape, w),
        continues(shape, h, op, input),
    ensures
        models_ok(shape, put_operation(shape, w, h, op)),
{
    lemma_indices(shape, h);
    lemma2_to64();
    let pos_state = position_state(shape, h.out.len() as int);
    let match_index = IS_MATCH + h.state * 16 + pos_state;
    lemma_put_bit_ok(w, match_index, 0);
    lemma_put_bit_ok(w, match_index, 1);
    let copy = put_bit(w, match_index, 1);
    lemma_put_bit_ok(copy, IS_REP + h.state, 0);
    lemma_put_bit_ok(copy, IS_REP + h.state, 1);
    let rep = put_bit(copy, IS_REP + h.state, 1);
    match op {
        Operation::Literal(byte) => {
            let v = put_bit(w, match_index, 0);
            let base = literal_base(shape, h.out);
            lemma_literal_fits(v.probs.len(), base);
            if h.state < 7 {
                lemma_put_tree_ok(v, base, 8, 1, byte as int);
            } else {
                lemma_put_matched_ok(v, base, 8, 1, byte as int, expected_byte(h));
            }
        },
        Operation::ShortRep => {
            lemma_put_bit_ok(rep, IS_REP_G0 + h.state, 0);
            lemma_put_bit_ok(
                put_bit(rep, IS_REP_G0 + h.state, 0),
                IS_REP0_LONG + h.state * 16 + pos_state,
                0,
            );
        },
        Operation::Rep { index, length } => {
            lemma_put_rep_index_ok(rep, h.state, pos_state, index);
            lemma_put_length_ok(
                put_rep_index(rep, h.state, pos_state, index),
                REP_LEN as int,
                pos_state,
                length - 2,
            );
        },
        Operation::Match { length, distance } => {
            let v = put_bit(copy, IS_REP + h.state, 0);
            lemma_put_length_ok(v, LEN as int, pos_state, length - 2);
            lemma_put_distance_ok(
                put_length(v, LEN as int, pos_state, length - 2),
                distance_context(length - 2),
                distance,
            );
        },
    }
}

pub proof fn lemma_literal_fits(size: nat, base: int)
    requires
        0 <= base,
        base + 0x300 <= size,
    ensures
        tree_fits(size, base, 8, 1),
        matched_fits(size, base, 8, 1),
{
    lemma2_to64();
    lemma_whole_tree_fits(size, base, 8);
}

proof fn lemma_put_rep_index_ok(w: Writer, state: int, pos_state: int, index: int)
    requires
        writer_ok(w),
        LITERAL <= w.probs.len(),
        0 <= state < 12,
        0 <= pos_state < 16,
        0 <= index < 4,
    ensures
        writer_ok(put_rep_index(w, state, pos_state, index)),
        put_rep_index(w, state, pos_state, index).probs.len() == w.probs.len(),
{
    lemma_put_bit_ok(w, IS_REP_G0 + state, 0);
    lemma_put_bit_ok(w, IS_REP_G0 + state, 1);
    if index == 0 {
        lemma_put_bit_ok(
            put_bit(w, IS_REP_G0 + state, 0),
            IS_REP0_LONG + state * 16 + pos_state,
            1,
        );
    } else {
        let v = put_bit(w, IS_REP_G0 + state, 1);
        lemma_put_bit_ok(v, IS_REP_G1 + state, 0);
        lemma_put_bit_ok(v, IS_REP_G1 + state, 1);
        if index >= 2 {
            lemma_put_bit_ok(put_bit(v, IS_REP_G1 + state, 1), IS_REP_G2 + state, index - 2);
        }
    }
}

proof fn lemma_rep_read_back(
    lazy: bool,
    data: Seq<u8>,
    w: Writer,
    state: int,
    pos_state: int,
    index: int,
    length: int,
)
    requires
        writer_ok(w),
        LITERAL <= w.probs.len(),
        0 <= state < 12,
        0 <= pos_state < 16,
        0 <= index < 4,
        2 <= length <= 273,
        fits(
            data,
            put_length(
                put_rep_index(w, state, pos_state, index),
                REP_LEN as int,
                pos_state,
                length - 2,
            ).interval,
        ),
    ensures
        fits(data, w.interval),
        get_rep(reader_at(lazy, data, w), state, pos_state) == Ok::<(Operation, Reader), Defect>(
            (
                Operation::Rep { index, length },
                reader_at(
                    lazy,
                    data,
                    put_length(
                        put_rep_index(w, state, pos_state, index),
                        REP_LEN as int,
                        pos_state,
                        length - 2,
                    ),
                ),
            ),
        ),
{
    lemma_put_rep_index_ok(w, state, pos_state, index);
    lemma_length_read_back(
        lazy,
        data,
        put_rep_index(w, state, pos_state, index),
        REP_LEN as int,
        pos_state,
        length - 2,
    );
    if index == 0 {
        lemma_put_bit_ok(w, IS_REP_G0 + state, 0);
        lemma_bit_read_back(
            lazy,
            data,
            put_bit(w, IS_REP_G0 + state, 0),
            IS_REP0_LONG + state * 16 + pos_state,
            1,
        );
        lemma_bit_read_back(lazy, data, w, IS_REP_G0 + state, 0);
    } else {
        lemma_put_bit_ok(w, IS_REP_G0 + state, 1);
        let v = put_bit(w, IS_REP_G0 + state, 1);
        if index == 1 {
            lemma_bit_read_back(lazy, data, v, IS_REP_G1 + state, 0);
        } else {
            lemma_put_bit_ok(v, IS_REP_G1 + state, 1);
            lemma_bit_read_back(
                lazy,
                data,
                put_bit(v, IS_REP_G1 + state, 1),
                IS_REP_G2 + state,
                index - 2,
            );
            lemma_bit_read_back(lazy, data, v, IS_REP_G1 + state, 1);
        }
        lemma_bit_read_back(lazy, data, w, IS_REP_G0 + state, 1);
    }
}

proof fn lemma_literal_read_back(
    shape: Shape,
    lazy: bool,
    data: Seq<u8>,
    w: Writer,
    h: History,
    byte: u8,
)
    requires
        shape_ok(shape),
        history_ok(h),
        models_ok(shape, w),
        h.state >= 7 ==> 0 <= h.reps[0] && h.reps[0] < h.out.len() && h.reps[0] < shape.dict,
        fits(data, put_literal(shape, w, h, byte).interval),
    ensures
        fits(data, w.interval),
        get_literal(shape, reader_at(lazy, data, w), h) == Ok::<(Operation, Reader), Defect>(
            (Operation::Literal(byte), reader_at(lazy, data, put_literal(shape, w, h, byte))),
        ),
{
    lemma_indices(shape, h);
    lemma2_to64();
    let base = literal_base(shape, h.out);
    lemma_literal_fits(w.probs.len(), base);
    if h.state < 7 {
        lemma_tree_read_back(lazy, data, w, base, 8, 1, byte as int);
    } else {
        lemma_matched_read_back(lazy, data, w, base, 8, 1, byte as int, expected_byte(h));
    }
}

/// An operation that was written is read back.
pub proof fn lemma_operation_read_back(
    shape: Shape,
    lazy: bool,
    data: Seq<u8>,
    w: Writer,
    h: History,
    op: Operation,
    input: Seq<u8>,
)
    requires
        shape_ok(shape),
        history_ok(h),
        models_ok(shape, w),
        continues(shape, h, op, input),
        fits(data, put_operation(shape, w, h, op).interval),
    ensures
        fits(data, w.interval),
        get_operation(shape, reader_at(lazy, data, w), h) == Ok::<(Operation, Reader), Defect>(
            (op, reader_at(lazy, data, put_operation(shape, w, h, op))),
        ),
{
    lemma_indices(shape, h);
    let pos_state = position_state(shape, h.out.len() as int);
    let match_index = IS_MATCH + h.state * 16 + pos_state;
    lemma_put_bit_ok(w, match_index, 0);
    lemma_put_bit_ok(w, match_index, 1);
    let copy = put_bit(w, match_index, 1);
    lemma_put_bit_ok(copy, IS_REP + h.state, 0);
    lemma_put_bit_ok(copy, IS_REP + h.state, 1);
    let rep = put_bit(copy, IS_REP + h.state, 1);
    match op {
        Operation::Literal(byte) => {
            let v = put_bit(w, match_index, 0);
            lemma_literal_read_back(shape, lazy, data, v, h, byte);
            lemma_bit_read_back(lazy, data, w, match_index, 0);
        },
        Operation::ShortRep => {
            let v = put_bit(rep, IS_REP_G0 + h.state, 0);
            lemma_put_bit_ok(rep, IS_REP_G0 + h.state, 0);
            lemma_bit_read_back(
                lazy,
                data,
                v,
                IS_REP0_LONG + h.state * 16 + pos_state,
                0,
            );
            lemma_bit_read_back(lazy, data, rep, IS_REP_G0 + h.state, 0);
            lemma_bit_read_back(lazy, data, copy, IS_REP + h.state, 1);
            lemma_bit_read_back(lazy, data, w, match_index, 1);
        },
        Operation::Rep { index, length } => {
            lemma_rep_read_back(lazy, data, rep, h.state, pos_state, index, length);
            lemma_bit_read_back(lazy, data, copy, IS_REP + h.state, 1);
            lemma_bit_read_back(lazy, data, w, match_index, 1);
        },
        Operation::Match { length, distance } => {
            let v = put_bit(copy, IS_REP + h.state, 0);
            lemma_put_length_ok(v, LEN as int, pos_state, length - 2);
            lemma_distance_read_back(
                lazy,
                data,
                put_length(v, LEN as int, pos_state, length - 2),
                distance_context(length - 2),
                distance,
            );
            lemma_length_read_back(lazy, data, v, LEN as int, pos_state, length - 2);
            lemma_bit_read_back(lazy, data, copy, IS_REP + h.state, 0);
            lemma_bit_read_back(lazy, data, w, match_index, 1);
        },
    }
}

/// Operations keep the encoder in order.
pub proof fn lemma_put_operations_ok(
    shape: Shape,
    w: Writer,
    h: History,
    ops: Seq<Operation>,
    input: Seq<u8>,
)
    requires
        shape_ok(shape),
        history_ok(h),
        models_ok(shape, w),
        h.out.len() <= input.len(),
        h.out == input.take(h.out.len() as int),
        spells(shape, h, ops, input),
    ensures
        models_ok(shape, put_operations(shape, w, h, ops)),
        history_ok(history_after(h, ops)),
        history_after(h, ops).out == input,
    decreases ops.len(),
{
    if ops.len() > 0 {
        lemma_continues(shape, h, ops[0], input);
        lemma_put_operation_ok(shape, w, h, ops[0], input);
        lemma_put_operations_ok(
            shape,
            put_operation(shape, w, h, ops[0]),
            advanced(h, ops[0]),
            ops.drop_first(),
            input,
        );
    } else {
        assert(input.take(h.out.len() as int) =~= input);
    }
}

/// Operations that were written are read back and done, by eager and lazy decoders alike.
pub proof fn lemma_operations_read_back(
    shape: Shape,
    lazy: bool,
    data: Seq<u8>,
    w: Writer,
    h: History,
    ops: Seq<Operation>,
    input: Seq<u8>,
)
    requires
        shape_ok(shape),
        history_ok(h),
        models_ok(shape, w),
        h.out.len() <= input.len(),
        h.out == input.take(h.out.len() as int),
        spells(shape, h, ops, input),
        fits(data, put_operations(shape, w, h, ops).interval),
    ensures
        fits(data, w.interval),
        steps(shape, reader_at(lazy, data, w), h, input.len() as int) == Ok::<Seq<u8>, Defect>(
            input,
        ),
    decreases ops.len(),
{
    if ops.len() > 0 {
        let op = ops[0];
        lemma_continues(shape, h, op, input);
        lemma_put_operation_ok(shape, w, h, op, input);
        let next = put_operation(shape, w, h, op);
        lemma_operations_read_back(
            shape,
            lazy,
            data,
            next,
            advanced(h, op),
            ops.drop_first(),
            input,
        );
        lemma_operation_read_back(shape, lazy, data, w, h, op, input);
        assert(step(shape, reader_at(lazy, data, w), h, input.len() as int) == Ok::<
            (Reader, History),
            Defect,
        >((reader_at(lazy, data, next), advanced(h, op))));
    } else {
        assert(input.take(h.out.len() as int) =~= input);
    }
}

/// The end marker keeps the encoder in order, and what comes before it is read as before.
pub proof fn lemma_end_marker(shape: Shape, data: Seq<u8>, w: Writer, h: History)
    requires
        shape_ok(shape),
        history_ok(h),
        models_ok(shape, w),
    ensures
        models_ok(shape, put_end_marker(shape, w, h)),
        fits(data, put_end_marker(shape, w, h).interval) ==> fits(data, w.interval),
{
    lemma_indices(shape, h);
    let pos_state = position_state(shape, h.out.len() as int);
    let match_index = IS_MATCH + h.state * 16 + pos_state;
    lemma_put_bit_ok(w, match_index, 1);
    let copy = put_bit(w, match_index, 1);
    lemma_put_bit_ok(copy, IS_REP + h.state, 0);
    let v = put_bit(copy, IS_REP + h.state, 0);
    lemma_put_length_ok(v, LEN as int, pos_state, 0);
    let u = put_length(v, LEN as int, pos_state, 0);
    lemma_put_distance_ok(u, 0, 0xffff_ffff);
    if fits(data, put_end_marker(shape, w, h).interval) {
        lemma_distance_read_back(false, data, u, 0, 0xffff_ffff);
        lemma_length_read_back(false, data, v, LEN as int, pos_state, 0);
        lemma_bit_read_back(false, data, copy, IS_REP + h.state, 0);
        lemma_bit_read_back(false, data, w, match_index, 1);
    }
}

/// The end marker is read as such.
pub proof fn lemma_end_marker_read_back(
    shape: Shape,
    lazy: bool,
    data: Seq<u8>,
    w: Writer,
    h: History,
)
    requires
        shape_ok(shape),
        history_ok(h),
        models_ok(shape, w),
        fits(data, put_end_marker(shape, w, h).interval),
    ensures
        get_operation(shape, reader_at(lazy, data, w), h) == Err::<(Operation, Reader), Defect>(
            Defect::EndMarker,
        ),
{
    lemma_indices(shape, h);
    let pos_state = position_state(shape, h.out.len() as int);
    let match_index = IS_MATCH + h.state * 16 + pos_state;
    lemma_put_bit_ok(w, match_index, 1);
    let copy = put_bit(w, match_index, 1);
    lemma_put_bit_ok(copy, IS_REP + h.state, 0);
    let v = put_bit(copy, IS_REP + h.state, 0);
    lemma_put_length_ok(v, LEN as int, pos_state, 0);
    let u = put_length(v, LEN as int, pos_state, 0);
    lemma_distance_read_back(lazy, data, u, 0, 0xffff_ffff);
    lemma_length_read_back(lazy, data, v, LEN as int, pos_state, 0);
    lemma_bit_read_back(lazy, data, copy, IS_REP + h.state, 0);
    lemma_bit_read_back(lazy, data, w, match_index, 1);
}

/// Where more bytes are expected than the operations make, reading goes on behind them.
pub proof fn lemma_operations_read_on(
    shape: Shape,
    lazy: bool,
    data: Seq<u8>,
    w: Writer,
    h: History,
    ops: Seq<Operation>,
    input: Seq<u8>,
    limit: int,
)
    requires
        shape_ok(shape),
        history_ok(h),
        models_ok(shape, w),
        h.out.len() <= input.len() < limit,
        h.out == input.take(h.out.len() as int),
        spells(shape, h, ops, input),
        fits(data, put_operations(shape, w, h, ops).interval),
    ensures
        fits(data, w.interval),
        steps(shape, reader_at(lazy, data, w), h, limit) == steps(
            shape,
            reader_at(lazy, data, put_operations(shape, w, h, ops)),
            history_after(h, ops),
            limit,
        ),
    decreases ops.len(),
{
    if ops.len() > 0 {
        let op = ops[0];
        lemma_continues(shape, h, op, input);
        lemma_put_operation_ok(shape, w, h, op, input);
        let next = put_operation(shape, w, h, op);
        lemma_operations_read_on(
            shape,
            lazy,
            data,
            next,
            advanced(h, op),
            ops.drop_first(),
            input,
            limit,
        );
        lemma_operation_read_back(shape, lazy, data, w, h, op, input);
        assert(step(shape, reader_at(lazy, data, w), h, limit) == Ok::<(Reader, History), Defect>(
            (reader_at(lazy, data, next), advanced(h, op)),
        ));
    }
}

/// A stream with an end marker is refused there, where more bytes are expected than it has.
pub proof fn lemma_early_end(
    shape: Shape,
    lazy: bool,
    data: Seq<u8>,
    w: Writer,
    h: History,
    ops: Seq<Operation>,
    input: Seq<u8>,
    limit: int,
)
    requires
        shape_ok(shape),
        history_ok(h),
        models_ok(shape, w),
        h.out.len() <= input.len() < limit,
        h.out == input.take(h.out.len() as int),
        spells(shape, h, ops, input),
        fits(
            data,
            put_end_marker(
                shape,
                put_operations(shape, w, h, ops),
                history_after(h, ops),
            ).interval,
        ),
    ensures
        fits(data, w.interval),
        steps(shape, reader_at(lazy, data, w), h, limit) == Err::<Seq<u8>, Defect>(
            Defect::EndMarker,
        ),
{
    let last = put_operations(shape, w, h, ops);
    lemma_put_operations_ok(shape, w, h, ops, input);
    lemma_end_marker(shape, data, last, history_after(h, ops));
    lemma_end_marker_read_back(shape, lazy, data, last, history_after(h, ops));
    lemma_operations_read_on(shape, lazy, data, w, h, ops, input, limit);
}

/// A stream within the first interval begins as a decoder expects.
pub proof fn lemma_first_place(shape: Shape, lazy: bool, data: Seq<u8>)
    requires
        fits(data, whole()),
    ensures
        first_place(data) is Some,
        first_reader(shape, lazy, data, first_place(data)->Some_0) == reader_at(
            lazy,
            data,
            first_writer(shape),
        ),
{
    lemma_number5(data);
}

/// The first writer is in order.
pub proof fn lemma_first_writer(shape: Shape)
    requires
        shape_ok(shape),
    ensures
        models_ok(shape, first_writer(shape)),
{
    lemma_pow2_pos(shape.lc + shape.lp);
}

} // verus!
