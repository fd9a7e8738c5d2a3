//! What coded bits cost.

use vstd::arithmetic::power2::{lemma2_to64, lemma_pow2_pos, pow2};
use vstd::prelude::*;

use crate::math::lemma_pow2_step;

verus! {

/// The number of prices.
pub const PROB_PRICE_TABLE_LEN: usize = 128;

/// Halves a number until it is below 65536, and counts the halvings.
pub open spec fn halvings(w: int, count: int) -> (int, int)
    decreases w,
{
    if w < 0x1_0000 || w <= 0 {
        (w, count)
    } else {
        halvings(w / 2, count + 1)
    }
}

/// `n` rounds of squaring and halving: the digits of the logarithm.
pub open spec fn logarithm(w: int, count: int, n: nat) -> int
    decreases n,
{
    if n == 0 {
        count
    } else {
        let (next, more) = halvings(w * w, 2 * count);
        logarithm(next, more, (n - 1) as nat)
    }
}

/// The price at a place of the table: about sixteen times the bits that a bit of the
/// probability in the middle of the place takes.
pub open spec fn price_at(i: int) -> int {
    let digits = logarithm(16 * i + 8, 0, 4);
    if digits > 161 {
        0
    } else {
        161 - digits
    }
}

/// The price of a zero under a probability.
pub open spec fn zero_price(prob: u16) -> int {
    price_at(prob as int / 16)
}

/// The price of a one under a probability.
pub open spec fn one_price(prob: u16) -> int {
    price_at((2047 - prob) / 16)
}

/// The price of a bit under a probability.
pub open spec fn bit_price(prob: u16, bit: int) -> int {
    if bit == 0 {
        zero_price(prob)
    } else {
        one_price(prob)
    }
}

/// A zero costs as much as a one under the opposite probability.
pub proof fn lemma_price_symmetry(prob: u16)
    requires
        prob <= 2047,
    ensures
        zero_price(prob) == one_price((2047 - prob) as u16),
        one_price(prob) == zero_price((2047 - prob) as u16),
{
}

proof fn lemma_halvings(w: int, count: int)
    requires
        0 <= w,
        0 <= count,
    ensures
        0 <= halvings(w, count).0 < 0x1_0000,
        count <= halvings(w, count).1 <= count + w,
    decreases w,
{
    if w >= 0x1_0000 {
        lemma_halvings(w / 2, count + 1);
    }
}

proof fn lemma_price_bound(i: int)
    requires
        0 <= i,
    ensures
        0 <= price_at(i) <= 161,
{
    lemma_logarithm(16 * i + 8, 0, 4);
}

proof fn lemma_logarithm(w: int, count: int, n: nat)
    requires
        0 <= w,
        0 <= count,
    ensures
        logarithm(w, count, n) >= 0,
    decreases n,
{
    if n > 0 {
        assert(w * w >= 0) by (nonlinear_arith);
        lemma_halvings(w * w, 2 * count);
        let (next, more) = halvings(w * w, 2 * count);
        lemma_logarithm(next, more, (n - 1) as nat);
    }
}

/// A number below `0x1_0000` times a power of two is halved at most so many times.
proof fn lemma_few_halvings(w: int, count: int, k: nat)
    requires
        0 <= w < 0x1_0000 * pow2(k),
    ensures
        0 <= halvings(w, count).0 < 0x1_0000,
        halvings(w, count).1 <= count + k,
    decreases k,
{
    lemma2_to64();
    if w >= 0x1_0000 {
        if k > 0 {
            lemma_pow2_step((k - 1) as nat);
            lemma_few_halvings(w / 2, count + 1, (k - 1) as nat);
        }
    }
}

/// A number from `0x8000` times a power of two on is halved at least so many times.
proof fn lemma_many_halvings(w: int, count: int, k: nat)
    requires
        w >= 0x8000 * pow2(k),
    ensures
        0x8000 <= halvings(w, count).0 < 0x1_0000,
        halvings(w, count).1 >= count + k,
    decreases w,
{
    lemma2_to64();
    lemma_pow2_pos(k);
    if k > 0 {
        lemma_pow2_step((k - 1) as nat);
        lemma_pow2_pos((k - 1) as nat);
        lemma_many_halvings(w / 2, count + 1, (k - 1) as nat);
    } else if w >= 0x1_0000 {
        lemma_many_halvings(w / 2, count + 1, 0);
    }
}

/// One logarithm so far is not above another.
spec fn not_above(w: int, count: int, other: int, more: int) -> bool {
    &&& 0 <= w < 0x1_0000
    &&& 0 <= other < 0x1_0000
    &&& count < more && other >= 0x8000 || count == more && w <= other
}

/// Halving keeps the order.
proof fn lemma_halvings_order(w: int, other: int, count: int)
    requires
        0 <= w <= other,
        0 <= count,
    ensures
        not_above(
            halvings(w, count).0,
            halvings(w, count).1,
            halvings(other, count).0,
            halvings(other, count).1,
        ),
    decreases other,
{
    lemma2_to64();
    if other >= 0x1_0000 {
        if w >= 0x1_0000 {
            lemma_halvings_order(w / 2, other / 2, count + 1);
        } else {
            lemma_many_halvings(other / 2, count + 1, 0);
        }
    }
}

/// The logarithm grows with its number.
proof fn lemma_logarithm_order(w: int, count: int, other: int, more: int, n: nat)
    requires
        not_above(w, count, other, more),
        0 <= count,
    ensures
        logarithm(w, count, n) <= logarithm(other, more, n),
    decreases n,
{
    if n > 0 {
        let a = halvings(w * w, 2 * count);
        let b = halvings(other * other, 2 * more);
        assert(0 <= w * w < 0x1_0000 * 0x1_0000 && (w <= other ==> w * w <= other * other) && (
        other >= 0x8000 ==> other * other >= 0x8000 * 0x8000)) by (nonlinear_arith)
            requires
                0 <= w < 0x1_0000,
                0 <= other,
        ;
        lemma2_to64();
        if count == more {
            lemma_halvings_order(w * w, other * other, 2 * count);
        } else {
            lemma_few_halvings(w * w, 2 * count, 16);
            lemma_many_halvings(other * other, 2 * more, 15);
        }
        lemma_halvings(w * w, 2 * count);
        lemma_logarithm_order(a.0, a.1, b.0, b.1, (n - 1) as nat);
    }
}

/// Prices fall along the table, and the last of them is at least one.
proof fn lemma_price_order(i: int, j: int)
    requires
        0 <= i <= j < PROB_PRICE_TABLE_LEN,
    ensures
        price_at(i) >= price_at(j) >= 1,
{
    lemma2_to64();
    lemma_logarithm_order(16 * i + 8, 0, 16 * j + 8, 0, 4);
    lemma_logarithm_order(16 * j + 8, 0, 2040, 0, 4);
    reveal_with_fuel(logarithm, 5);
    let a = halvings(2040int * 2040, 0);
    lemma_few_halvings(2040int * 2040, 0, 6);
    assert(0 <= a.0 * a.0 < 0x1_0000 * 0x1_0000) by (nonlinear_arith)
        requires
            0 <= a.0 < 0x1_0000,
    ;
    let b = halvings(a.0 * a.0, 2 * a.1);
    lemma_few_halvings(a.0 * a.0, 2 * a.1, 16);
    assert(0 <= b.0 * b.0 < 0x1_0000 * 0x1_0000) by (nonlinear_arith)
        requires
            0 <= b.0 < 0x1_0000,
    ;
    let c = halvings(b.0 * b.0, 2 * b.1);
    lemma_few_halvings(b.0 * b.0, 2 * b.1, 16);
    assert(0 <= c.0 * c.0 < 0x1_0000 * 0x1_0000) by (nonlinear_arith)
        requires
            0 <= c.0 < 0x1_0000,
    ;
    lemma_few_halvings(c.0 * c.0, 2 * c.1, 16);
    assert(logarithm(2040, 0, 4) <= 160);
}

/// The more probable a bit is, the less it costs, and no bit is free.
pub proof fn lemma_prices_fall(prob: u16, other: u16)
    requires
        prob <= other <= 2047,
    ensures
        zero_price(prob) >= zero_price(other) >= 1,
        1 <= one_price(prob) <= one_price(other),
{
    lemma_price_order(prob as int / 16, other as int / 16);
    lemma_price_order((2047 - other) / 16, (2047 - prob) / 16);
}

/// Prices of bits by their probability.
#[derive(Debug)]
pub struct ProbPrices {
    pub table: Vec<u32>,
}

impl ProbPrices {
    /// The table holds the prices.
    pub open spec fn sound(&self) -> bool {
        &&& self.table@.len() == PROB_PRICE_TABLE_LEN
        &&& forall|i: int|
            0 <= i < PROB_PRICE_TABLE_LEN ==> #[trigger] self.table@[i] == price_at(i)
                && self.table@[i] <= 161
    }

    /// Builds the table.
    pub fn new() -> (prices: ProbPrices)
        ensures
            prices.sound(),
    {
        let mut table: Vec<u32> = Vec::with_capacity(PROB_PRICE_TABLE_LEN);
        let mut i: u64 = 0;
        while i < 128
            invariant
                i <= 128,
                table@.len() == i,
                forall|k: int|
                    0 <= k < i ==> #[trigger] table@[k] == price_at(k) && table@[k] <= 161,
            decreases 128 - i,
        {
            let mut w: u64 = 16 * i + 8;
            let mut count: u64 = 0;
            let mut n: u32 = 4;
            while n > 0
                invariant
                    n <= 4,
                    w < 0x1_0000,
                    n == 4 ==> count == 0,
                    n == 3 ==> count <= 0x1_0000_0000,
                    n == 2 ==> count <= 0x3_0000_0000,
                    n == 1 ==> count <= 0x7_0000_0000,
                    n == 0 ==> count <= 0xf_0000_0000,
                    logarithm(16 * i as int + 8, 0, 4) == logarithm(
                        w as int,
                        count as int,
                        n as nat,
                    ),
                decreases n,
            {
                proof {
                    assert(w * w < 0x1_0000_0000) by (nonlinear_arith)
                        requires
                            0 <= w < 0x1_0000,
                    ;
                }
                let ghost square = w as int * w as int;
                let ghost start = 2 * count as int;
                w = w * w;
                count = 2 * count;
                let ghost limit = count + w;
                while w >= 0x1_0000
                    invariant
                        halvings(square, start) == halvings(w as int, count as int),
                        count + w <= limit,
                        limit <= 0x10_0000_0000,
                    decreases w,
                {
                    w = w / 2;
                    count = count + 1;
                }
                n -= 1;
            }
            proof {
                lemma_price_bound(i as int);
            }
            table.push(
                if count > 161 {
                    0
                } else {
                    161 - count as u32
                },
            );
            i += 1;
        }
        ProbPrices { table }
    }

    /// The price of a zero.
    pub fn price_0(&self, prob: u16) -> (price: u32)
        requires
            self.sound(),
            prob <= 2047,
        ensures
            price == zero_price(prob),
            price <= 161,
    {
        self.table[(prob / 16) as usize]
    }

    /// The price of a one.
    pub fn price_1(&self, prob: u16) -> (price: u32)
        requires
            self.sound(),
            prob <= 2047,
        ensures
            price == one_price(prob),
            price <= 161,
    {
        self.table[((2047 - prob) / 16) as usize]
    }

    /// The price of a bit.
    pub fn price(&self, prob: u16, bit: u32) -> (price: u32)
        requires
            self.sound(),
            prob <= 2047,
        ensures
            price == bit_price(prob, bit as int),
            price <= 161,
    {
        if bit == 0 {
            self.price_0(prob)
        } else {
            self.price_1(prob)
        }
    }
}

impl Default for ProbPrices {
    fn default() -> (prices: ProbPrices)
        ensures
            prices.sound(),
    {
        ProbPrices::new()
    }
}

} // verus!
