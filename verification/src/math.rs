//! Arithmetic facts and small executable helpers shared by the codecs.

use vstd::arithmetic::div_mod::lemma_fundamental_div_mod_converse;
use vstd::arithmetic::power2::{
    lemma_pow2_pos, lemma_pow2_strictly_increases, lemma_pow2_unfold, pow2,
};
use vstd::prelude::*;

verus! {

/// Powers of two grow with their exponent.
pub proof fn lemma_pow2_monotonic(a: nat, b: nat)
    requires
        a <= b,
    ensures
        0 < pow2(a) <= pow2(b),
{
    lemma_pow2_pos(a);
    if a < b {
        lemma_pow2_strictly_increases(a, b);
    }
}

/// Doubling the exponent by one step doubles the power.
pub proof fn lemma_pow2_step(n: nat)
    ensures
        pow2(n + 1) == 2 * pow2(n),
        pow2(n) > 0,
{
    lemma_pow2_unfold(n + 1);
    lemma_pow2_pos(n);
}

/// Splitting `x = low + d * high` recovers both parts.
pub proof fn lemma_split_at(low: int, high: int, d: int)
    requires
        0 <= low < d,
    ensures
        (low + d * high) % d == low,
        (low + d * high) / d == high,
{
    assert(low + d * high == high * d + low) by (nonlinear_arith);
    lemma_fundamental_div_mod_converse(low + d * high, d, high, low);
}

/// `2^n` as a machine word.
pub fn power_of_two(n: usize) -> (result: u64)
    requires
        n < 64,
    ensures
        result == pow2(n as nat),
{
    proof {
        vstd::bits::lemma_u64_pow2_no_overflow(n as nat);
        vstd::bits::lemma_u64_shl_is_mul(1u64, n as u64);
    }
    1u64 << (n as u64)
}

/// A product of a number below `a` and one below `b` stays within their product.
pub proof fn lemma_digit_bound(low: int, d: int, high: int, e: int)
    requires
        0 <= low < d,
        0 <= high < e,
    ensures
        0 <= low + d * high < d * e,
{
    assert(0 <= d * high && d * high + d <= d * e) by (nonlinear_arith)
        requires
            0 < d,
            0 <= high < e,
    ;
}

} // verus!
