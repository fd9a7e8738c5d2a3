//! Prefix sums kept in a binary indexed tree.

use vstd::arithmetic::power2::{lemma2_to64, lemma_pow2_pos, pow2};
use vstd::prelude::*;

verus! {

/// The sum of the first `n` frequencies.
pub open spec fn sum_to(frequencies: Seq<u16>, n: nat) -> int
    decreases n,
{
    if n == 0 {
        0
    } else {
        sum_to(frequencies, (n - 1) as nat) + frequencies[n - 1]
    }
}

/// The weight of the lowest one bit.
pub open spec fn low_bit(i: int) -> int
    decreases i,
{
    if i <= 0 {
        0
    } else if i % 2 == 1 {
        1
    } else {
        2 * low_bit(i / 2)
    }
}

/// Node `i` of the tree holds the sum of the frequencies that end with number `i`, as many as
/// the lowest one bit of `i` says.
pub open spec fn node_fits(frequencies: Seq<u16>, tree: Seq<u32>, i: int) -> bool {
    tree[i] == sum_to(frequencies, i as nat) - sum_to(frequencies, (i - low_bit(i)) as nat)
}

pub open spec fn tree_fits(frequencies: Seq<u16>, tree: Seq<u32>) -> bool {
    &&& tree.len() == frequencies.len() + 1
    &&& forall|i: int| 1 <= i < tree.len() ==> #[trigger] node_fits(frequencies, tree, i)
}

pub proof fn lemma_low_bit(i: int)
    requires
        i >= 1,
    ensures
        1 <= low_bit(i) <= i,
        i % low_bit(i) == 0,
        low_bit(i) == i || i - low_bit(i) >= low_bit(i),
    decreases i,
{
    if i % 2 == 0 {
        let h = i / 2;
        lemma_low_bit(h);
        let b = low_bit(h);
        vstd::arithmetic::div_mod::lemma_fundamental_div_mod(h, b);
        assert(i == (2 * b) * (h / b)) by (nonlinear_arith)
            requires
                h == b * (h / b),
                i == 2 * h,
        ;
        vstd::arithmetic::div_mod::lemma_mod_multiples_basic(h / b, 2 * b);
        assert((2 * b) * (h / b) == (h / b) * (2 * b)) by (nonlinear_arith);
    }
}

/// Adding the lowest one bit at least doubles it.
pub proof fn lemma_low_bit_next(i: int)
    requires
        i >= 1,
    ensures
        low_bit(i + low_bit(i)) >= 2 * low_bit(i),
    decreases i,
{
    if i % 2 == 0 {
        lemma_low_bit_next(i / 2);
        lemma_low_bit(i / 2);
        assert((i + low_bit(i)) / 2 == i / 2 + low_bit(i / 2));
    } else {
        lemma_low_bit((i + 1) / 2);
    }
}

/// Between a number and the next one up its lowest one bit, the lowest one bits are those of
/// the offset.
pub proof fn lemma_low_bit_offset(i: int, d: int)
    requires
        i >= 1,
        0 < d < low_bit(i),
    ensures
        low_bit(i + d) == low_bit(d),
    decreases i,
{
    if i % 2 == 0 {
        lemma_low_bit(i / 2);
        if d % 2 == 0 {
            lemma_low_bit_offset(i / 2, d / 2);
            assert((i + d) / 2 == i / 2 + d / 2);
        }
    }
}

/// The lowest one bit of a multiple of `2b` plus `b`, for a power of two `b`.
pub proof fn lemma_low_bit_power(q: int, n: nat)
    requires
        q >= 0,
    ensures
        low_bit((2 * q + 1) * pow2(n)) == pow2(n),
    decreases n,
{
    lemma2_to64();
    if n == 0 {
        assert((2 * q + 1) * pow2(0) == 2 * q + 1) by (nonlinear_arith)
            requires
                pow2(0) == 1,
        ;
    } else {
        let k = (n - 1) as nat;
        lemma_low_bit_power(q, k);
        crate::math::lemma_pow2_step(k);
        let x = (2 * q + 1) * pow2(n);
        let y = (2 * q + 1) * pow2(k);
        assert(x == 2 * y) by (nonlinear_arith)
            requires
                x == (2 * q + 1) * pow2(n),
                y == (2 * q + 1) * pow2(k),
                pow2(n) == 2 * pow2(k),
        ;
        lemma_pow2_pos(k);
        assert(y > 0) by (nonlinear_arith)
            requires
                y == (2 * q + 1) * pow2(k),
                q >= 0,
                pow2(k) > 0,
        ;
    }
}

/// Clearing the lowest one bit by `i & (i - 1)`.
pub proof fn lemma_clear_low_bit(i: u32)
    requires
        i >= 1,
    ensures
        i & ((i - 1) as u32) == i - low_bit(i as int),
    decreases i,
{
    let j = (i - 1) as u32;
    if i % 2 == 1 {
        assert(i & j == j) by (bit_vector)
            requires
                i % 2 == 1,
                j == i - 1,
        ;
    } else {
        let h = i / 2;
        let k = (h - 1) as u32;
        lemma_clear_low_bit(h);
        assert(i & j == 2 * (h & k)) by (bit_vector)
            requires
                i % 2 == 0,
                i >= 2,
                j == i - 1,
                h == i / 2,
                k == h - 1,
        ;
    }
}

pub proof fn lemma_sum_monotonic(frequencies: Seq<u16>, a: nat, b: nat)
    requires
        a <= b,
    ensures
        sum_to(frequencies, a) <= sum_to(frequencies, b),
    decreases b,
{
    if a < b {
        lemma_sum_monotonic(frequencies, a, (b - 1) as nat);
    }
}

/// Changing one frequency moves the sums behind it.
pub proof fn lemma_sum_update(frequencies: Seq<u16>, symbol: int, value: u16, n: nat)
    requires
        0 <= symbol < frequencies.len(),
        n <= frequencies.len(),
    ensures
        sum_to(frequencies.update(symbol, value), n) == sum_to(frequencies, n) + (if symbol < n {
            value - frequencies[symbol]
        } else {
            0
        }),
    decreases n,
{
    if n > 0 {
        lemma_sum_update(frequencies, symbol, value, (n - 1) as nat);
    }
}

/// Clears the lowest one bit.
fn without_low_bit(i: usize) -> (result: usize)
    requires
        1 <= i <= 0xffff_ffff,
    ensures
        result == i - low_bit(i as int),
{
    proof {
        lemma_clear_low_bit(i as u32);
    }
    ((i as u32) & (i as u32 - 1)) as usize
}

/// The sum of the first `n` frequencies, read off the tree.
pub fn prefix_sum(tree: &Vec<u32>, n: usize, Ghost(frequencies): Ghost<Seq<u16>>) -> (sum: u32)
    requires
        tree_fits(frequencies, tree@),
        n <= frequencies.len() <= 0xffff,
        sum_to(frequencies, frequencies.len()) <= u32::MAX,
    ensures
        sum == sum_to(frequencies, n as nat),
{
    let mut i: usize = n;
    let mut sum: u32 = 0;
    while i != 0
        invariant
            tree_fits(frequencies, tree@),
            i <= n <= frequencies.len() <= 0xffff,
            sum_to(frequencies, frequencies.len()) <= u32::MAX,
            sum == sum_to(frequencies, n as nat) - sum_to(frequencies, i as nat),
        decreases i,
    {
        proof {
            assert(node_fits(frequencies, tree@, i as int));
            lemma_low_bit(i as int);
            lemma_sum_monotonic(frequencies, 0, (i - low_bit(i as int)) as nat);
            lemma_sum_monotonic(frequencies, n as nat, frequencies.len());
        }
        sum = sum + tree[i];
        i = without_low_bit(i);
    }
    sum
}

/// Node `i` covers frequency number `symbol`.
spec fn covers(i: int, symbol: int) -> bool {
    i - low_bit(i) <= symbol < i
}

/// Adds `amount` to frequency number `symbol` in the tree.
pub fn add_to_tree(
    tree: &mut Vec<u32>,
    symbol: usize,
    amount: u32,
    Ghost(before): Ghost<Seq<u16>>,
    Ghost(after): Ghost<Seq<u16>>,
)
    requires
        tree_fits(before, old(tree)@),
        symbol < before.len() <= 0xffff,
        after.len() == before.len(),
        after == before.update(symbol as int, after[symbol as int]),
        after[symbol as int] == before[symbol as int] + amount,
        sum_to(after, after.len()) <= u32::MAX,
    ensures
        tree_fits(after, final(tree)@),
{
    let mut i: usize = symbol + 1;
    let n: usize = tree.len();
    proof {
        assert(after.len() == before.len());
        lemma_low_bit(i as int);
    }
    while i < n
        invariant
            n == tree@.len(),
            n == before.len() + 1,
            n <= 0x1_0000,
            tree@.len() == old(tree)@.len(),
            tree_fits(before, old(tree)@),
            symbol < i <= 0x2_0000,
            symbol < before.len() <= 0xffff,
            i < n ==> covers(i as int, symbol as int),
            after.len() == before.len(),
            after == before.update(symbol as int, after[symbol as int]),
            after[symbol as int] == before[symbol as int] + amount,
            sum_to(after, after.len()) <= u32::MAX,
            forall|k: int|
                1 <= k < n ==> #[trigger] tree@[k] == old(tree)@[k] + (if k < i && covers(
                    k,
                    symbol as int,
                ) {
                    amount as int
                } else {
                    0
                }),
        decreases 0x2_0000 - i,
    {
        let cleared: usize = without_low_bit(i);
        let ghost previous = tree@;
        let ghost b = low_bit(i as int);
        proof {
            lemma_low_bit(i as int);
            lemma_low_bit_next(i as int);
            assert(node_fits(before, old(tree)@, i as int));
            lemma_sum_update(before, symbol as int, after[symbol as int], i as nat);
            lemma_sum_monotonic(after, i as nat, after.len());
            lemma_sum_monotonic(before, 0, (i - b) as nat);
            assert(tree@[i as int] == old(tree)@[i as int]);
        }
        tree.set(i, tree[i] + amount);
        let next: usize = i + (i - cleared);
        proof {
            lemma_low_bit(next as int);
            assert forall|k: int| 1 <= k < n implies #[trigger] tree@[k] == old(tree)@[k] + (if k
                < next && covers(k, symbol as int) {
                amount as int
            } else {
                0
            }) by {
                if k != i {
                    assert(tree@[k] == previous[k]);
                    if i < k < next {
                        lemma_low_bit_offset(i as int, k - i);
                        lemma_low_bit(k - i);
                    }
                }
            }
        }
        i = next;
    }
    assert forall|k: int| 1 <= k < tree@.len() implies #[trigger] node_fits(after, tree@, k) by {
        assert(node_fits(before, old(tree)@, k));
        lemma_low_bit(k);
        lemma_sum_update(before, symbol as int, after[symbol as int], k as nat);
        lemma_sum_update(before, symbol as int, after[symbol as int], (k - low_bit(k)) as nat);
    }
}

/// Builds the tree of the given frequencies.
pub fn build_tree(frequencies: &Vec<u16>) -> (tree: Vec<u32>)
    requires
        frequencies@.len() <= 0xffff,
    ensures
        tree_fits(frequencies@, tree@),
{
    let n: usize = frequencies.len();
    let mut tree: Vec<u32> = vec![0; n + 1];
    let ghost mut partial: Seq<u16> = Seq::new(n as nat, |i: int| 0u16);
    proof {
        lemma_zero_sum(n as nat, n as nat);
        assert forall|i: int| 1 <= i < tree@.len() implies #[trigger] node_fits(
            partial,
            tree@,
            i,
        ) by {
            lemma_low_bit(i);
            lemma_zero_sum(n as nat, i as nat);
            lemma_zero_sum(n as nat, (i - low_bit(i)) as nat);
        }
    }
    let mut symbol: usize = 0;
    while symbol < n
        invariant
            symbol <= n,
            n == frequencies@.len(),
            n <= 0xffff,
            partial == Seq::new(
                n as nat,
                |i: int|
                    if i < symbol {
                        frequencies@[i]
                    } else {
                        0u16
                    },
            ),
            tree_fits(partial, tree@),
        decreases n - symbol,
    {
        let ghost next = partial.update(symbol as int, frequencies@[symbol as int]);
        proof {
            lemma_sum_bound(next, next.len());
            assert(next[symbol as int] == frequencies@[symbol as int]);
        }
        add_to_tree(
            &mut tree,
            symbol,
            frequencies[symbol] as u32,
            Ghost(partial),
            Ghost(next),
        );
        symbol += 1;
        proof {
            partial = next;
            assert(partial =~= Seq::new(
                n as nat,
                |i: int|
                    if i < symbol {
                        frequencies@[i]
                    } else {
                        0u16
                    },
            ));
        }
    }
    assert(partial =~= frequencies@);
    tree
}

proof fn lemma_zero_sum(size: nat, n: nat)
    requires
        n <= size,
    ensures
        sum_to(Seq::new(size, |i: int| 0u16), n) == 0,
    decreases n,
{
    if n > 0 {
        lemma_zero_sum(size, (n - 1) as nat);
    }
}

pub proof fn lemma_sum_bound(frequencies: Seq<u16>, n: nat)
    requires
        n <= frequencies.len(),
    ensures
        0 <= sum_to(frequencies, n) <= 0xffff * n,
    decreases n,
{
    if n > 0 {
        lemma_sum_bound(frequencies, (n - 1) as nat);
    }
}

/// The first symbol from `i` on whose interval ends behind `count`.
pub open spec fn symbol_of(frequencies: Seq<u16>, count: int, i: int) -> int
    decreases frequencies.len() - i,
{
    if i >= frequencies.len() || sum_to(frequencies, (i + 1) as nat) > count {
        i
    } else {
        symbol_of(frequencies, count, i + 1)
    }
}

/// The symbol whose interval holds `count`.
pub proof fn lemma_symbol_of(frequencies: Seq<u16>, count: int, i: int, symbol: int)
    requires
        0 <= i <= symbol < frequencies.len(),
        sum_to(frequencies, symbol as nat) <= count < sum_to(frequencies, (symbol + 1) as nat),
    ensures
        symbol_of(frequencies, count, i) == symbol,
    decreases symbol - i,
{
    if i < symbol {
        lemma_sum_monotonic(frequencies, (i + 1) as nat, symbol as nat);
        lemma_symbol_of(frequencies, count, i + 1, symbol);
    }
}

/// The symbol whose interval holds `count`, and the sum before it.
pub fn find_symbol(tree: &Vec<u32>, count: u32, Ghost(frequencies): Ghost<Seq<u16>>) -> (result: (
    usize,
    u32,
))
    requires
        tree_fits(frequencies, tree@),
        0 < frequencies.len() <= 0xffff,
        count < sum_to(frequencies, frequencies.len()) <= u32::MAX,
    ensures
        result.0 == symbol_of(frequencies, count as int, 0),
        result.0 < frequencies.len(),
        result.1 == sum_to(frequencies, result.0 as nat),
        result.1 <= count < result.1 + frequencies[result.0 as int],
{
    let n: usize = tree.len();
    let mut bit: usize = 1;
    let ghost mut power: nat = 0;
    proof {
        lemma2_to64();
    }
    while bit < n
        invariant
            bit == pow2(power),
            n <= 0x1_0000,
            1 <= bit <= 0x2_0000,
        decreases 0x2_0000 - bit,
    {
        bit = bit * 2;
        proof {
            crate::math::lemma_pow2_step(power);
            power = power + 1;
        }
    }
    let mut index: usize = 0;
    let mut accumulated: u32 = 0;
    let ghost mut quotient: int = 0;
    assert(0 * pow2(power) == 0) by (nonlinear_arith);
    while bit > 1
        invariant
            tree_fits(frequencies, tree@),
            n == tree@.len(),
            0 < frequencies.len() <= 0xffff,
            count < sum_to(frequencies, frequencies.len()) <= u32::MAX,
            1 <= bit <= 0x2_0000,
            bit == pow2(power),
            index == quotient * bit,
            quotient >= 0,
            index < n,
            accumulated == sum_to(frequencies, index as nat),
            accumulated <= count,
            index + bit < n ==> count < sum_to(frequencies, (index + bit) as nat),
        decreases bit,
    {
        proof {
            lemma2_to64();
            if power == 0 {
                assert(false);
            }
            crate::math::lemma_pow2_step((power - 1) as nat);
        }
        let half: usize = bit / 2;
        let next: usize = index + half;
        proof {
            lemma_low_bit_power(quotient, (power - 1) as nat);
            assert((2 * quotient + 1) * half == quotient * bit + half) by (nonlinear_arith)
                requires
                    bit == 2 * half,
            ;
            assert((2 * quotient) * half == quotient * bit) by (nonlinear_arith)
                requires
                    bit == 2 * half,
            ;
            if next < n {
                assert(node_fits(frequencies, tree@, next as int));
                lemma_sum_monotonic(frequencies, next as nat, frequencies.len());
            }
        }
        if next < n && accumulated + tree[next] <= count {
            accumulated = accumulated + tree[next];
            index = next;
            proof {
                quotient = 2 * quotient + 1;
            }
        } else {
            proof {
                quotient = 2 * quotient;
            }
        }
        bit = half;
        proof {
            power = (power - 1) as nat;
        }
    }
    proof {
        assert(index < frequencies.len());
        assert(sum_to(frequencies, (index + 1) as nat) == accumulated + frequencies[index as int]);
        lemma_symbol_of(frequencies, count as int, 0, index as int);
    }
    (index, accumulated)
}

} // verus!
