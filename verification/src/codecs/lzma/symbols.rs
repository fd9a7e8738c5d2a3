//! How LZMA spells symbols as modelled bits: trees, lengths, distances and literals.

use vstd::arithmetic::power2::{lemma2_to64, lemma_pow2_adds, lemma_pow2_pos, pow2};
use vstd::prelude::*;

use crate::codecs::lzma::coder::{
    fits, get_bit, lemma_bit_read_back, lemma_plain_read_back, lemma_put_bit_ok,
    lemma_put_plain_ok, put_bit, put_plain, reader_at, writer_ok, Reader, Writer,
};
use crate::codecs::lzma::range::{get_plain_bits, put_plain_bits};
use crate::math::{lemma_pow2_monotonic, lemma_pow2_step};

verus! {

// Where the models of each kind of symbol begin in the table of probabilities.

pub const IS_MATCH: usize = 0;

pub const IS_REP: usize = 192;

pub const IS_REP_G0: usize = 204;

pub const IS_REP_G1: usize = 216;

pub const IS_REP_G2: usize = 228;

pub const IS_REP0_LONG: usize = 240;

pub const POS_SLOT: usize = 432;

pub const SPEC_POS: usize = 688;

pub const ALIGN: usize = 816;

pub const LEN: usize = 832;

pub const REP_LEN: usize = 1346;

pub const LITERAL: usize = 1860;

/// The digit of weight `2^n` of `value`.
pub open spec fn binary_digit(value: int, n: nat) -> int {
    value / (pow2(n) as int) % 2
}

/// Writes the `n` lowest bits of `symbol`, most significant first, each under the model that
/// the bits before it select; `m` stands for those bits behind a leading one.
pub open spec fn put_tree(w: Writer, base: int, n: nat, m: int, symbol: int) -> Writer
    decreases n,
{
    if n == 0 {
        w
    } else {
        let bit = binary_digit(symbol, (n - 1) as nat);
        put_tree(put_bit(w, base + m, bit), base, (n - 1) as nat, 2 * m + bit, symbol)
    }
}

/// Reads `n` bits of a tree; the result stands for all bits behind a leading one.
pub open spec fn get_tree(r: Reader, base: int, n: nat, m: int) -> Option<(int, Reader)>
    decreases n,
{
    if n == 0 {
        Some((m, r))
    } else {
        match get_bit(r, base + m) {
            None => None,
            Some((bit, next)) => get_tree(next, base, (n - 1) as nat, 2 * m + bit),
        }
    }
}

/// Writes the `n` lowest bits of `symbol`, least significant first, through a tree.
pub open spec fn put_reverse(w: Writer, base: int, n: nat, m: int, symbol: int) -> Writer
    decreases n,
{
    if n == 0 {
        w
    } else {
        let bit = symbol % 2;
        put_reverse(put_bit(w, base + m, bit), base, (n - 1) as nat, 2 * m + bit, symbol / 2)
    }
}

/// Reads an `n`-bit number, least significant bit first, through a tree.
pub open spec fn get_reverse(r: Reader, base: int, n: nat, m: int) -> Option<(int, Reader)>
    decreases n,
{
    if n == 0 {
        Some((0, r))
    } else {
        match get_bit(r, base + m) {
            None => None,
            Some((bit, next)) => match get_reverse(next, base, (n - 1) as nat, 2 * m + bit) {
                None => None,
                Some((rest, last)) => Some((bit + 2 * rest, last)),
            },
        }
    }
}

/// Writes the `n` lowest bits of a literal beside the byte it is expected to equal. While the
/// bits agree, the models are chosen by the expected bit as well.
pub open spec fn put_matched(
    w: Writer,
    base: int,
    n: nat,
    m: int,
    symbol: int,
    expected: int,
) -> Writer
    decreases n,
{
    if n == 0 {
        w
    } else {
        let k = (n - 1) as nat;
        let bit = binary_digit(symbol, k);
        let guess = binary_digit(expected, k);
        let next = put_bit(w, base + (1 + guess) * 256 + m, bit);
        if bit == guess {
            put_matched(next, base, k, 2 * m + bit, symbol, expected)
        } else {
            put_tree(next, base, k, 2 * m + bit, symbol)
        }
    }
}

/// Reads `n` bits of a literal beside the byte it is expected to equal.
pub open spec fn get_matched(r: Reader, base: int, n: nat, m: int, expected: int) -> Option<
    (int, Reader),
>
    decreases n,
{
    if n == 0 {
        Some((m, r))
    } else {
        let k = (n - 1) as nat;
        let guess = binary_digit(expected, k);
        match get_bit(r, base + (1 + guess) * 256 + m) {
            None => None,
            Some((bit, next)) => if bit == guess {
                get_matched(next, base, k, 2 * m + bit, expected)
            } else {
                get_tree(next, base, k, 2 * m + bit)
            },
        }
    }
}

/// Writes a match length, counted from the shortest one.
pub open spec fn put_length(w: Writer, base: int, pos_state: int, length: int) -> Writer {
    if length < 8 {
        put_tree(put_bit(w, base, 0), base + 2 + pos_state * 8, 3, 1, length)
    } else if length < 16 {
        put_tree(
            put_bit(put_bit(w, base, 1), base + 1, 0),
            base + 130 + pos_state * 8,
            3,
            1,
            length - 8,
        )
    } else {
        put_tree(put_bit(put_bit(w, base, 1), base + 1, 1), base + 258, 8, 1, length - 16)
    }
}

/// A tree of `n` bits as a plain number, raised by `start`.
pub open spec fn get_tree_number(r: Reader, base: int, n: nat, start: int) -> Option<(int, Reader)> {
    match get_tree(r, base, n, 1) {
        None => None,
        Some((m, next)) => Some((m - pow2(n) + start, next)),
    }
}

/// Reads a match length, counted from the shortest one.
pub open spec fn get_length(r: Reader, base: int, pos_state: int) -> Option<(int, Reader)> {
    match get_bit(r, base) {
        None => None,
        Some((choice, r1)) => if choice == 0 {
            get_tree_number(r1, base + 2 + pos_state * 8, 3, 0)
        } else {
            match get_bit(r1, base + 1) {
                None => None,
                Some((choice2, r2)) => if choice2 == 0 {
                    get_tree_number(r2, base + 130 + pos_state * 8, 3, 8)
                } else {
                    get_tree_number(r2, base + 258, 8, 16)
                },
            }
        },
    }
}

/// The position of the highest one bit.
pub open spec fn highest_bit(value: int) -> nat
    decreases value,
{
    if value < 2 {
        0
    } else {
        1 + highest_bit(value / 2)
    }
}

/// The slot of a distance: its two leading bits and its size.
pub open spec fn slot_of(distance: int) -> int {
    if distance < 4 {
        distance
    } else {
        let h = highest_bit(distance);
        2 * h + distance / (pow2((h - 1) as nat) as int) % 2
    }
}

/// The number of bits that follow a slot.
pub open spec fn slot_bits(slot: int) -> nat {
    (slot / 2 - 1) as nat
}

/// The smallest distance of a slot.
pub open spec fn slot_base(slot: int) -> int {
    (2 + slot % 2) * pow2(slot_bits(slot))
}

/// The models of distances depend on whether the match is short.
pub open spec fn distance_context(length: int) -> int {
    if length < 3 {
        length
    } else {
        3
    }
}

/// Writes what follows the slot of a distance.
pub open spec fn put_footer(w: Writer, slot: int, distance: int) -> Writer {
    if slot < 4 {
        w
    } else {
        let bits = slot_bits(slot);
        let footer = distance - slot_base(slot);
        if slot < 14 {
            put_reverse(w, SPEC_POS + slot_base(slot), bits, 1, footer)
        } else {
            put_reverse(
                put_plain_bits(w, footer / 16, (bits - 4) as nat),
                ALIGN as int,
                4,
                1,
                footer % 16,
            )
        }
    }
}

/// Writes a distance, counted from the shortest one.
pub open spec fn put_distance(w: Writer, context: int, distance: int) -> Writer {
    let slot = slot_of(distance);
    put_footer(put_tree(w, POS_SLOT + context * 64, 6, 1, slot), slot, distance)
}

/// Reads what follows the slot of a distance.
pub open spec fn get_footer(r: Reader, slot: int) -> Option<(int, Reader)> {
    if slot < 4 {
        Some((slot, r))
    } else {
        let bits = slot_bits(slot);
        if slot < 14 {
            match get_reverse(r, SPEC_POS + slot_base(slot), bits, 1) {
                None => None,
                Some((footer, next)) => Some((slot_base(slot) + footer, next)),
            }
        } else {
            match get_plain_bits(r, (bits - 4) as nat, 0) {
                None => None,
                Some((high, r1)) => match get_reverse(r1, ALIGN as int, 4, 1) {
                    None => None,
                    Some((low, next)) => Some((slot_base(slot) + high * 16 + low, next)),
                },
            }
        }
    }
}

/// Reads a distance, counted from the shortest one.
pub open spec fn get_distance(r: Reader, context: int) -> Option<(int, Reader)> {
    match get_tree_number(r, POS_SLOT + context * 64, 6, 0) {
        None => None,
        Some((slot, next)) => get_footer(next, slot),
    }
}

pub proof fn lemma_binary_digit(value: int, n: nat)
    requires
        value >= 0,
    ensures
        0 <= binary_digit(value, n) <= 1,
        value % (pow2(n + 1) as int) == binary_digit(value, n) * pow2(n) + value % (pow2(
            n,
        ) as int),
{
    lemma_pow2_step(n);
    let p = pow2(n) as int;
    vstd::arithmetic::div_mod::lemma_mod_breakdown(value, p, 2);
    assert(p * (value / p % 2) == (value / p % 2) * p) by (nonlinear_arith);
}

/// The models of a subtree lie within a table of the given size.
pub open spec fn tree_fits(size: nat, base: int, n: nat, m: int) -> bool {
    &&& 0 <= base
    &&& 1 <= m
    &&& n > 0 ==> base + (m + 1) * pow2((n - 1) as nat) <= size
}

/// A subtree of a tree that fits fits.
pub proof fn lemma_tree_fits_step(size: nat, base: int, n: nat, m: int, bit: int)
    requires
        n > 0,
        tree_fits(size, base, n, m),
        0 <= bit <= 1,
    ensures
        0 <= base + m < size,
        tree_fits(size, base, (n - 1) as nat, 2 * m + bit),
{
    let k = (n - 1) as nat;
    lemma_pow2_pos(k);
    assert((m + 1) * pow2(k) >= m + 1) by (nonlinear_arith)
        requires
            m >= 0,
            pow2(k) >= 1,
    ;
    if k > 0 {
        lemma_pow2_step((k - 1) as nat);
        let h = pow2((k - 1) as nat) as int;
        assert((2 * m + bit + 1) * h <= (m + 1) * (2 * h)) by (nonlinear_arith)
            requires
                0 <= bit <= 1,
                h > 0,
                m >= 0,
        ;
    }
}

pub proof fn lemma_put_tree_ok(w: Writer, base: int, n: nat, m: int, symbol: int)
    requires
        writer_ok(w),
        symbol >= 0,
        tree_fits(w.probs.len(), base, n, m),
    ensures
        writer_ok(put_tree(w, base, n, m, symbol)),
        put_tree(w, base, n, m, symbol).probs.len() == w.probs.len(),
    decreases n,
{
    if n > 0 {
        let k = (n - 1) as nat;
        let bit = binary_digit(symbol, k);
        lemma_binary_digit(symbol, k);
        let next = put_bit(w, base + m, bit);
        lemma_tree_fits_step(w.probs.len(), base, n, m, bit);
        lemma_put_bit_ok(w, base + m, bit);
        lemma_put_tree_ok(next, base, k, 2 * m + bit, symbol);
    }
}

/// What was written through a tree is read back.
pub proof fn lemma_tree_read_back(
    lazy: bool,
    data: Seq<u8>,
    w: Writer,
    base: int,
    n: nat,
    m: int,
    symbol: int,
)
    requires
        writer_ok(w),
        symbol >= 0,
        tree_fits(w.probs.len(), base, n, m),
        fits(data, put_tree(w, base, n, m, symbol).interval),
    ensures
        fits(data, w.interval),
        get_tree(reader_at(lazy, data, w), base, n, m) == Some(
            (
                m * pow2(n) + symbol % (pow2(n) as int),
                reader_at(lazy, data, put_tree(w, base, n, m, symbol)),
            ),
        ),
    decreases n,
{
    if n == 0 {
        lemma2_to64();
        assert(symbol % 1 == 0);
        assert(m * pow2(0) == m) by (nonlinear_arith)
            requires
                pow2(0) == 1,
        ;
    } else {
        let k = (n - 1) as nat;
        let bit = binary_digit(symbol, k);
        lemma_binary_digit(symbol, k);
        lemma_tree_fits_step(w.probs.len(), base, n, m, bit);
        let next = put_bit(w, base + m, bit);
        lemma_put_bit_ok(w, base + m, bit);
        lemma_tree_read_back(lazy, data, next, base, k, 2 * m + bit, symbol);
        lemma_bit_read_back(lazy, data, w, base + m, bit);
        lemma_pow2_step(k);
        let p = pow2(k) as int;
        assert((2 * m + bit) * p == m * (2 * p) + bit * p) by (nonlinear_arith);
    }
}

pub proof fn lemma_put_reverse_ok(w: Writer, base: int, n: nat, m: int, symbol: int)
    requires
        writer_ok(w),
        symbol >= 0,
        tree_fits(w.probs.len(), base, n, m),
    ensures
        writer_ok(put_reverse(w, base, n, m, symbol)),
        put_reverse(w, base, n, m, symbol).probs.len() == w.probs.len(),
    decreases n,
{
    if n > 0 {
        let k = (n - 1) as nat;
        let bit = symbol % 2;
        let next = put_bit(w, base + m, bit);
        lemma_tree_fits_step(w.probs.len(), base, n, m, bit);
        lemma_put_bit_ok(w, base + m, bit);
        lemma_put_reverse_ok(next, base, k, 2 * m + bit, symbol / 2);
    }
}

pub proof fn lemma_reverse_read_back(
    lazy: bool,
    data: Seq<u8>,
    w: Writer,
    base: int,
    n: nat,
    m: int,
    symbol: int,
)
    requires
        writer_ok(w),
        0 <= symbol < pow2(n),
        tree_fits(w.probs.len(), base, n, m),
        fits(data, put_reverse(w, base, n, m, symbol).interval),
    ensures
        fits(data, w.interval),
        get_reverse(reader_at(lazy, data, w), base, n, m) == Some(
            (symbol, reader_at(lazy, data, put_reverse(w, base, n, m, symbol))),
        ),
    decreases n,
{
    if n == 0 {
        lemma2_to64();
    } else {
        let k = (n - 1) as nat;
        let bit = symbol % 2;
        lemma_tree_fits_step(w.probs.len(), base, n, m, bit);
        let next = put_bit(w, base + m, bit);
        lemma_put_bit_ok(w, base + m, bit);
        lemma_pow2_step(k);
        lemma_reverse_read_back(lazy, data, next, base, k, 2 * m + bit, symbol / 2);
        lemma_bit_read_back(lazy, data, w, base + m, bit);
    }
}

pub proof fn lemma_put_plain_bits_ok(w: Writer, value: int, n: nat)
    requires
        writer_ok(w),
        value >= 0,
    ensures
        writer_ok(put_plain_bits(w, value, n)),
        put_plain_bits(w, value, n).probs == w.probs,
    decreases n,
{
    if n > 0 {
        let k = (n - 1) as nat;
        lemma_binary_digit(value, k);
        lemma_put_plain_ok(w, binary_digit(value, k));
        lemma_put_plain_bits_ok(put_plain(w, binary_digit(value, k)), value, k);
    }
}

pub proof fn lemma_plain_bits_read_back(
    lazy: bool,
    data: Seq<u8>,
    w: Writer,
    value: int,
    n: nat,
    before: int,
)
    requires
        writer_ok(w),
        value >= 0,
        fits(data, put_plain_bits(w, value, n).interval),
    ensures
        fits(data, w.interval),
        get_plain_bits(reader_at(lazy, data, w), n, before) == Some(
            (
                before * pow2(n) + value % (pow2(n) as int),
                reader_at(lazy, data, put_plain_bits(w, value, n)),
            ),
        ),
    decreases n,
{
    if n == 0 {
        lemma2_to64();
        assert(value % 1 == 0);
        assert(before * pow2(0) == before) by (nonlinear_arith)
            requires
                pow2(0) == 1,
        ;
    } else {
        let k = (n - 1) as nat;
        let bit = binary_digit(value, k);
        lemma_binary_digit(value, k);
        lemma_put_plain_ok(w, bit);
        let next = put_plain(w, bit);
        lemma_plain_bits_read_back(lazy, data, next, value, k, 2 * before + bit);
        lemma_plain_read_back(lazy, data, w, bit);
        lemma_pow2_step(k);
        let p = pow2(k) as int;
        assert((2 * before + bit) * p == before * (2 * p) + bit * p) by (nonlinear_arith);
    }
}

/// The models of a matched literal lie within a table of the given size.
pub open spec fn matched_fits(size: nat, base: int, n: nat, m: int) -> bool {
    &&& 0 <= base
    &&& base + 0x300 <= size
    &&& 1 <= m
    &&& (m + 1) * pow2(n) <= 512
}

pub proof fn lemma_matched_fits_step(size: nat, base: int, n: nat, m: int, bit: int)
    requires
        n > 0,
        matched_fits(size, base, n, m),
        0 <= bit <= 1,
    ensures
        m < 256,
        matched_fits(size, base, (n - 1) as nat, 2 * m + bit),
        tree_fits(size, base, (n - 1) as nat, 2 * m + bit),
{
    let k = (n - 1) as nat;
    lemma_pow2_step(k);
    let p = pow2(k) as int;
    assert((m + 1) * (2 * p) >= 2 * (m + 1)) by (nonlinear_arith)
        requires
            m >= 0,
            p >= 1,
    ;
    assert((2 * m + bit + 1) * p <= (m + 1) * (2 * p)) by (nonlinear_arith)
        requires
            0 <= bit <= 1,
            p > 0,
            m >= 0,
    ;
    assert((m + 1) * (2 * p) == 2 * ((m + 1) * p)) by (nonlinear_arith);
    if k > 0 {
        lemma_pow2_step((k - 1) as nat);
        let h = pow2((k - 1) as nat) as int;
        let x = 2 * m + bit + 1;
        assert(x * (2 * h) == 2 * (x * h)) by (nonlinear_arith);
    }
}

pub proof fn lemma_put_matched_ok(
    w: Writer,
    base: int,
    n: nat,
    m: int,
    symbol: int,
    expected: int,
)
    requires
        writer_ok(w),
        symbol >= 0,
        expected >= 0,
        matched_fits(w.probs.len(), base, n, m),
    ensures
        writer_ok(put_matched(w, base, n, m, symbol, expected)),
        put_matched(w, base, n, m, symbol, expected).probs.len() == w.probs.len(),
    decreases n,
{
    if n > 0 {
        let k = (n - 1) as nat;
        let bit = binary_digit(symbol, k);
        let guess = binary_digit(expected, k);
        lemma_binary_digit(symbol, k);
        lemma_binary_digit(expected, k);
        lemma_matched_fits_step(w.probs.len(), base, n, m, bit);
        let index = base + (1 + guess) * 256 + m;
        let next = put_bit(w, index, bit);
        lemma_put_bit_ok(w, index, bit);
        if bit == guess {
            lemma_put_matched_ok(next, base, k, 2 * m + bit, symbol, expected);
        } else {
            lemma_put_tree_ok(next, base, k, 2 * m + bit, symbol);
        }
    }
}

pub proof fn lemma_matched_read_back(
    lazy: bool,
    data: Seq<u8>,
    w: Writer,
    base: int,
    n: nat,
    m: int,
    symbol: int,
    expected: int,
)
    requires
        writer_ok(w),
        symbol >= 0,
        expected >= 0,
        matched_fits(w.probs.len(), base, n, m),
        fits(data, put_matched(w, base, n, m, symbol, expected).interval),
    ensures
        fits(data, w.interval),
        get_matched(reader_at(lazy, data, w), base, n, m, expected) == Some(
            (
                m * pow2(n) + symbol % (pow2(n) as int),
                reader_at(lazy, data, put_matched(w, base, n, m, symbol, expected)),
            ),
        ),
    decreases n,
{
    if n == 0 {
        lemma2_to64();
        assert(symbol % 1 == 0);
        assert(m * pow2(0) == m) by (nonlinear_arith)
            requires
                pow2(0) == 1,
        ;
    } else {
        let k = (n - 1) as nat;
        let bit = binary_digit(symbol, k);
        let guess = binary_digit(expected, k);
        lemma_binary_digit(symbol, k);
        lemma_binary_digit(expected, k);
        lemma_matched_fits_step(w.probs.len(), base, n, m, bit);
        let index = base + (1 + guess) * 256 + m;
        let next = put_bit(w, index, bit);
        lemma_put_bit_ok(w, index, bit);
        if bit == guess {
            lemma_matched_read_back(lazy, data, next, base, k, 2 * m + bit, symbol, expected);
        } else {
            lemma_tree_read_back(lazy, data, next, base, k, 2 * m + bit, symbol);
        }
        lemma_bit_read_back(lazy, data, w, index, bit);
        lemma_pow2_step(k);
        let p = pow2(k) as int;
        assert((2 * m + bit) * p == m * (2 * p) + bit * p) by (nonlinear_arith);
    }
}

/// A tree of `n` bits that starts at `base` fits if `2^n` models follow.
pub proof fn lemma_whole_tree_fits(size: nat, base: int, n: nat)
    requires
        0 <= base,
        n > 0,
        base + pow2(n) <= size,
    ensures
        tree_fits(size, base, n, 1),
{
    lemma_pow2_step((n - 1) as nat);
}

pub proof fn lemma_put_length_ok(w: Writer, base: int, pos_state: int, length: int)
    requires
        writer_ok(w),
        0 <= base,
        base + 514 <= w.probs.len(),
        0 <= pos_state < 16,
        0 <= length < 272,
    ensures
        writer_ok(put_length(w, base, pos_state, length)),
        put_length(w, base, pos_state, length).probs.len() == w.probs.len(),
{
    lemma2_to64();
    lemma_put_bit_ok(w, base, 0);
    lemma_put_bit_ok(w, base, 1);
    let w1 = put_bit(w, base, 1);
    lemma_put_bit_ok(w1, base + 1, 0);
    lemma_put_bit_ok(w1, base + 1, 1);
    if length < 8 {
        let v = put_bit(w, base, 0);
        lemma_whole_tree_fits(v.probs.len(), base + 2 + pos_state * 8, 3);
        lemma_put_tree_ok(v, base + 2 + pos_state * 8, 3, 1, length);
    } else if length < 16 {
        let v = put_bit(w1, base + 1, 0);
        lemma_whole_tree_fits(v.probs.len(), base + 130 + pos_state * 8, 3);
        lemma_put_tree_ok(v, base + 130 + pos_state * 8, 3, 1, length - 8);
    } else {
        let v = put_bit(w1, base + 1, 1);
        lemma_whole_tree_fits(v.probs.len(), base + 258, 8);
        lemma_put_tree_ok(v, base + 258, 8, 1, length - 16);
    }
}

pub proof fn lemma_length_read_back(
    lazy: bool,
    data: Seq<u8>,
    w: Writer,
    base: int,
    pos_state: int,
    length: int,
)
    requires
        writer_ok(w),
        0 <= base,
        base + 514 <= w.probs.len(),
        0 <= pos_state < 16,
        0 <= length < 272,
        fits(data, put_length(w, base, pos_state, length).interval),
    ensures
        fits(data, w.interval),
        get_length(reader_at(lazy, data, w), base, pos_state) == Some(
            (length, reader_at(lazy, data, put_length(w, base, pos_state, length))),
        ),
{
    lemma2_to64();
    lemma_put_bit_ok(w, base, 0);
    lemma_put_bit_ok(w, base, 1);
    let w1 = put_bit(w, base, 1);
    lemma_put_bit_ok(w1, base + 1, 0);
    lemma_put_bit_ok(w1, base + 1, 1);
    if length < 8 {
        let v = put_bit(w, base, 0);
        lemma_whole_tree_fits(v.probs.len(), base + 2 + pos_state * 8, 3);
        lemma_tree_read_back(lazy, data, v, base + 2 + pos_state * 8, 3, 1, length);
        lemma_bit_read_back(lazy, data, w, base, 0);
    } else if length < 16 {
        let v = put_bit(w1, base + 1, 0);
        lemma_whole_tree_fits(v.probs.len(), base + 130 + pos_state * 8, 3);
        lemma_tree_read_back(lazy, data, v, base + 130 + pos_state * 8, 3, 1, length - 8);
        lemma_bit_read_back(lazy, data, w1, base + 1, 0);
        lemma_bit_read_back(lazy, data, w, base, 1);
    } else {
        let v = put_bit(w1, base + 1, 1);
        lemma_whole_tree_fits(v.probs.len(), base + 258, 8);
        lemma_tree_read_back(lazy, data, v, base + 258, 8, 1, length - 16);
        lemma_bit_read_back(lazy, data, w1, base + 1, 1);
        lemma_bit_read_back(lazy, data, w, base, 1);
    }
}

pub proof fn lemma_highest_bit(value: int)
    requires
        value >= 1,
    ensures
        pow2(highest_bit(value)) <= value < 2 * pow2(highest_bit(value)),
    decreases value,
{
    if value < 2 {
        lemma2_to64();
    } else {
        lemma_highest_bit(value / 2);
        lemma_pow2_step(highest_bit(value / 2));
    }
}

/// Every distance lies within its slot.
pub proof fn lemma_slot_of(distance: int)
    requires
        4 <= distance < 0x1_0000_0000,
    ensures
        4 <= slot_of(distance) <= 63,
        slot_bits(slot_of(distance)) <= 30,
        0 <= distance - slot_base(slot_of(distance)) < pow2(slot_bits(slot_of(distance))),
        slot_of(distance) < 14 ==> slot_base(slot_of(distance)) + 2 * pow2(
            slot_bits(slot_of(distance)),
        ) <= 128 + pow2(slot_bits(slot_of(distance))),
{
    let h = highest_bit(distance);
    lemma_highest_bit(distance);
    lemma2_to64();
    if h < 2 {
        lemma_pow2_monotonic(h, 1);
    }
    if h > 31 {
        lemma_pow2_monotonic(32, h);
    }
    let k = (h - 1) as nat;
    lemma_pow2_step(k);
    let p = pow2(k) as int;
    let q = distance / p;
    vstd::arithmetic::div_mod::lemma_fundamental_div_mod(distance, p);
    assert(2 <= q <= 3) by (nonlinear_arith)
        requires
            p > 0,
            2 * p <= distance < 4 * p,
            q == distance / p,
    ;
    let slot = slot_of(distance);
    assert(slot == 2 * h + q % 2);
    assert(slot_bits(slot) == k);
    assert(2 + slot % 2 == q);
    assert(q * p == p * q) by (nonlinear_arith);
    if slot < 14 {
        lemma_pow2_monotonic(k, 5);
        assert(q * p <= 3 * p) by (nonlinear_arith)
            requires
                q <= 3,
                p > 0,
        ;
    }
}

/// The models behind the small slots lie within their part of the table.
pub proof fn lemma_slot_base(slot: int)
    requires
        4 <= slot <= 63,
    ensures
        0 <= slot_bits(slot) <= 30,
        0 <= slot_base(slot),
        slot_base(slot) + pow2(slot_bits(slot)) <= 0x1_0000_0000,
        slot < 14 ==> slot_base(slot) + pow2(slot_bits(slot)) <= 128 && slot_bits(slot) >= 1,
        slot >= 14 ==> slot_bits(slot) >= 6,
{
    lemma2_to64();
    let k = slot_bits(slot);
    lemma_pow2_monotonic(k, 30);
    let p = pow2(k) as int;
    let q = 2 + slot % 2;
    if slot < 14 {
        lemma_pow2_monotonic(k, 5);
    }
    assert(0 <= q * p <= 3 * p) by (nonlinear_arith)
        requires
            0 <= q <= 3,
            p > 0,
    ;
}

/// The models of a distance lie within the table.
pub open spec fn distance_fits(w: Writer, context: int) -> bool {
    0 <= context <= 3 && LITERAL <= w.probs.len()
}

pub proof fn lemma_put_distance_ok(w: Writer, context: int, distance: int)
    requires
        writer_ok(w),
        distance_fits(w, context),
        0 <= distance < 0x1_0000_0000,
    ensures
        writer_ok(put_distance(w, context, distance)),
        put_distance(w, context, distance).probs.len() == w.probs.len(),
{
    lemma2_to64();
    let slot = slot_of(distance);
    if distance >= 4 {
        lemma_slot_of(distance);
        lemma_slot_base(slot);
    }
    let base = POS_SLOT + context * 64;
    lemma_whole_tree_fits(w.probs.len(), base, 6);
    lemma_put_tree_ok(w, base, 6, 1, slot);
    let v = put_tree(w, base, 6, 1, slot);
    if slot >= 4 {
        let bits = slot_bits(slot);
        let footer = distance - slot_base(slot);
        if slot < 14 {
            lemma_whole_tree_fits(v.probs.len(), SPEC_POS + slot_base(slot), bits);
            lemma_put_reverse_ok(v, SPEC_POS + slot_base(slot), bits, 1, footer);
        } else {
            lemma_put_plain_bits_ok(v, footer / 16, (bits - 4) as nat);
            let u = put_plain_bits(v, footer / 16, (bits - 4) as nat);
            lemma_whole_tree_fits(u.probs.len(), ALIGN as int, 4);
            lemma_put_reverse_ok(u, ALIGN as int, 4, 1, footer % 16);
        }
    }
}

pub proof fn lemma_distance_read_back(
    lazy: bool,
    data: Seq<u8>,
    w: Writer,
    context: int,
    distance: int,
)
    requires
        writer_ok(w),
        distance_fits(w, context),
        0 <= distance < 0x1_0000_0000,
        fits(data, put_distance(w, context, distance).interval),
    ensures
        fits(data, w.interval),
        get_distance(reader_at(lazy, data, w), context) == Some(
            (distance, reader_at(lazy, data, put_distance(w, context, distance))),
        ),
{
    lemma2_to64();
    let slot = slot_of(distance);
    if distance >= 4 {
        lemma_slot_of(distance);
        lemma_slot_base(slot);
    }
    let base = POS_SLOT + context * 64;
    lemma_whole_tree_fits(w.probs.len(), base, 6);
    lemma_put_tree_ok(w, base, 6, 1, slot);
    let v = put_tree(w, base, 6, 1, slot);
    if slot >= 4 {
        let bits = slot_bits(slot);
        let footer = distance - slot_base(slot);
        if slot < 14 {
            lemma_whole_tree_fits(v.probs.len(), SPEC_POS + slot_base(slot), bits);
            lemma_reverse_read_back(
                lazy,
                data,
                v,
                SPEC_POS + slot_base(slot),
                bits,
                1,
                footer,
            );
        } else {
            let n = (bits - 4) as nat;
            lemma_put_plain_bits_ok(v, footer / 16, n);
            let u = put_plain_bits(v, footer / 16, n);
            lemma_whole_tree_fits(u.probs.len(), ALIGN as int, 4);
            lemma_reverse_read_back(lazy, data, u, ALIGN as int, 4, 1, footer % 16);
            lemma_plain_bits_read_back(lazy, data, v, footer / 16, n, 0);
            lemma_pow2_adds(n, 4);
            lemma_pow2_pos(n);
            assert(footer / 16 < pow2(n)) by (nonlinear_arith)
                requires
                    0 <= footer < pow2(bits),
                    pow2(n) * 16 == pow2(bits),
            ;
            vstd::arithmetic::div_mod::lemma_small_mod((footer / 16) as nat, pow2(n));
            assert(0 * pow2(n) == 0) by (nonlinear_arith);
        }
    }
    lemma_tree_read_back(lazy, data, w, base, 6, 1, slot);
    vstd::arithmetic::div_mod::lemma_small_mod(slot as nat, 64);
}

} // verus!
