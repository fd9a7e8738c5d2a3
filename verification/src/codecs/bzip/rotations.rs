//! The rotations of a string and their order.

use vstd::prelude::*;

verus! {

/// Byte `i` of `s` repeated without end.
pub open spec fn cyclic(s: Seq<u8>, i: int) -> u8 {
    s[i % (s.len() as int)]
}

/// Whether the `h` bytes from `i` on come before (-1), equal (0) or come after (1) those from
/// `j` on.
pub open spec fn sign(s: Seq<u8>, i: int, j: int, h: nat) -> int
    decreases h,
{
    if h == 0 {
        0
    } else if cyclic(s, i) < cyclic(s, j) {
        -1
    } else if cyclic(s, i) > cyclic(s, j) {
        1
    } else {
        sign(s, i + 1, j + 1, (h - 1) as nat)
    }
}

/// The rotation from `i` on comes before the one from `j` on; equal ones are ordered by where
/// they start.
pub open spec fn precedes(s: Seq<u8>, i: int, j: int) -> bool {
    sign(s, i, j, s.len()) < 0 || (sign(s, i, j, s.len()) == 0 && i <= j)
}

/// Every index below `n` occurs exactly once.
pub open spec fn permutation(order: Seq<int>, n: nat) -> bool {
    &&& order.len() == n
    &&& order.no_duplicates()
    &&& forall|k: int| 0 <= k < n ==> 0 <= #[trigger] order[k] < n
}

/// The starts of all rotations in their order.
pub open spec fn sorted_rotations(s: Seq<u8>, order: Seq<int>) -> bool {
    &&& permutation(order, s.len())
    &&& forall|a: int, b: int|
        0 <= a < b < order.len() ==> precedes(s, #[trigger] order[a], #[trigger] order[b])
}

pub proof fn lemma_sign_range(s: Seq<u8>, i: int, j: int, h: nat)
    ensures
        -1 <= sign(s, i, j, h) <= 1,
        sign(s, j, i, h) == -sign(s, i, j, h),
    decreases h,
{
    if h > 0 {
        lemma_sign_range(s, i + 1, j + 1, (h - 1) as nat);
    }
}

pub proof fn lemma_sign_transitive(s: Seq<u8>, i: int, j: int, k: int, h: nat)
    requires
        sign(s, i, j, h) <= 0,
        sign(s, j, k, h) <= 0,
    ensures
        sign(s, i, k, h) <= 0,
        sign(s, i, k, h) == 0 ==> sign(s, i, j, h) == 0 && sign(s, j, k, h) == 0,
    decreases h,
{
    if h > 0 && cyclic(s, i) == cyclic(s, j) && cyclic(s, j) == cyclic(s, k) {
        lemma_sign_transitive(s, i + 1, j + 1, k + 1, (h - 1) as nat);
    }
}

/// Comparing `a + b` bytes is comparing `a` bytes and, if those agree, `b` more.
pub proof fn lemma_sign_split(s: Seq<u8>, i: int, j: int, a: nat, b: nat)
    ensures
        sign(s, i, j, a + b) == (if sign(s, i, j, a) != 0 {
            sign(s, i, j, a)
        } else {
            sign(s, i + a, j + a, b)
        }),
    decreases a,
{
    if a > 0 {
        lemma_sign_split(s, i + 1, j + 1, (a - 1) as nat, b);
    }
}

/// Rotating by the whole length changes nothing.
pub proof fn lemma_sign_wraps(s: Seq<u8>, i: int, j: int, h: nat)
    requires
        s.len() > 0,
    ensures
        sign(s, i % (s.len() as int), j % (s.len() as int), h) == sign(s, i, j, h),
    decreases h,
{
    let n = s.len() as int;
    vstd::arithmetic::div_mod::lemma_mod_twice(i, n);
    vstd::arithmetic::div_mod::lemma_mod_twice(j, n);
    if h > 0 {
        lemma_sign_wraps(s, i + 1, j + 1, (h - 1) as nat);
        lemma_sign_wraps(s, i % n + 1, j % n + 1, (h - 1) as nat);
        vstd::arithmetic::div_mod::lemma_add_mod_noop(i, 1, n);
        vstd::arithmetic::div_mod::lemma_add_mod_noop(i % n, 1, n);
        vstd::arithmetic::div_mod::lemma_add_mod_noop(j, 1, n);
        vstd::arithmetic::div_mod::lemma_add_mod_noop(j % n, 1, n);
    }
}

/// Strings compare equal exactly if all their bytes agree.
pub proof fn lemma_sign_equal(s: Seq<u8>, i: int, j: int, h: nat)
    ensures
        sign(s, i, j, h) == 0 <==> forall|m: int|
            0 <= m < h ==> #[trigger] cyclic(s, i + m) == cyclic(s, j + m),
    decreases h,
{
    if h > 0 {
        let k = (h - 1) as nat;
        lemma_sign_equal(s, i + 1, j + 1, k);
        if sign(s, i, j, h) == 0 {
            assert forall|m: int| 0 <= m < h implies #[trigger] cyclic(s, i + m) == cyclic(
                s,
                j + m,
            ) by {
                if m > 0 {
                    assert(cyclic(s, i + 1 + (m - 1)) == cyclic(s, j + 1 + (m - 1)));
                }
            }
        }
        if forall|m: int| 0 <= m < h ==> #[trigger] cyclic(s, i + m) == cyclic(s, j + m) {
            assert(cyclic(s, i + 0) == cyclic(s, j + 0));
            assert forall|m: int| 0 <= m < k implies #[trigger] cyclic(s, i + 1 + m) == cyclic(
                s,
                j + 1 + m,
            ) by {
                assert(cyclic(s, i + (m + 1)) == cyclic(s, j + (m + 1)));
            }
        }
    }
}

/// Once whole rotations agree, longer strings agree too; so whole rotations decide.
pub proof fn lemma_sign_saturates(s: Seq<u8>, i: int, j: int, h: nat)
    requires
        s.len() > 0,
        h >= s.len(),
    ensures
        sign(s, i, j, h) == sign(s, i, j, s.len()),
{
    let n = s.len();
    lemma_sign_split(s, i, j, n, (h - n) as nat);
    if sign(s, i, j, n) == 0 {
        let rest = (h - n) as nat;
        lemma_sign_equal(s, i, j, n);
        assert forall|m: int| 0 <= m < rest implies #[trigger] cyclic(s, i + n + m) == cyclic(
            s,
            j + n + m,
        ) by {
            let r = m % (n as int);
            assert(cyclic(s, i + r) == cyclic(s, j + r));
            vstd::arithmetic::div_mod::lemma_add_mod_noop_right(i + n, m, n as int);
            vstd::arithmetic::div_mod::lemma_add_mod_noop_right(j + n, m, n as int);
            vstd::arithmetic::div_mod::lemma_mod_add_multiples_vanish(i + r, n as int);
            vstd::arithmetic::div_mod::lemma_mod_add_multiples_vanish(j + r, n as int);
            assert((i + n + m) % (n as int) == (i + r) % (n as int));
            assert((j + n + m) % (n as int) == (j + r) % (n as int));
        }
        lemma_sign_equal(s, i + n, j + n, rest);
    }
}

/// A prefix that differs decides the whole.
pub proof fn lemma_sign_prefix(s: Seq<u8>, i: int, j: int, h: nat)
    requires
        s.len() > 0,
        sign(s, i, j, h) != 0,
    ensures
        sign(s, i, j, s.len()) == sign(s, i, j, h),
{
    if h <= s.len() {
        lemma_sign_split(s, i, j, h, (s.len() - h) as nat);
    } else {
        lemma_sign_saturates(s, i, j, h);
    }
}

/// A total and transitive relation.
pub open spec fn weak_order(leq: spec_fn(int, int) -> bool) -> bool {
    &&& forall|a: int, b: int| #[trigger] leq(a, b) || leq(b, a)
    &&& forall|a: int, b: int, c: int|
        #[trigger] leq(a, b) && #[trigger] leq(b, c) ==> leq(a, c)
}

pub open spec fn ordered(order: Seq<int>, leq: spec_fn(int, int) -> bool) -> bool {
    forall|a: int, b: int|
        0 <= a < b < order.len() ==> leq(#[trigger] order[a], #[trigger] order[b])
}

/// Two ordered permutations agree, up to elements that the order does not tell apart.
pub proof fn lemma_ordered_permutations(
    a: Seq<int>,
    b: Seq<int>,
    n: nat,
    leq: spec_fn(int, int) -> bool,
    k: int,
)
    requires
        permutation(a, n),
        permutation(b, n),
        weak_order(leq),
        ordered(a, leq),
        ordered(b, leq),
        0 <= k < n,
    ensures
        leq(a[k], b[k]),
        leq(b[k], a[k]),
{
    lemma_not_behind(a, b, n, leq, k);
    lemma_not_behind(b, a, n, leq, k);
}

proof fn lemma_not_behind(
    a: Seq<int>,
    b: Seq<int>,
    n: nat,
    leq: spec_fn(int, int) -> bool,
    k: int,
)
    requires
        permutation(a, n),
        permutation(b, n),
        weak_order(leq),
        ordered(a, leq),
        ordered(b, leq),
        0 <= k < n,
    ensures
        leq(b[k], a[k]),
{
    if !leq(b[k], a[k]) {
        // The first k + 1 of a all lie strictly before b[k], so they are among the first k of b.
        let front = a.take(k + 1);
        let others = b.take(k);
        assert(leq(a[k], b[k]) || leq(b[k], a[k]));
        assert(front.no_duplicates());
        assert(others.no_duplicates());
        front.unique_seq_to_set();
        others.unique_seq_to_set();
        assert forall|x: int| front.to_set().contains(x) implies others.to_set().contains(x) by {
            let i = choose|i: int| 0 <= i < front.len() && front[i] == x;
            assert(a[i] == x);
            assert(leq(x, a[k])) by {
                if i < k {
                    assert(leq(a[i], a[k]));
                } else {
                    assert(leq(x, x) || leq(x, x));
                }
            }
            lemma_permutation_covers(b, n, x);
            let j = choose|j: int| 0 <= j < n && #[trigger] b[j] == x;
            if j >= k {
                assert(leq(b[k], b[j])) by {
                    if j > k {
                        assert(leq(b[k], b[j]));
                    } else {
                        assert(leq(x, x) || leq(x, x));
                    }
                }
                assert(leq(b[k], x) && leq(x, a[k]));
                assert(false);
            }
            assert(others[j] == x);
        }
        vstd::set_lib::lemma_len_subset(front.to_set(), others.to_set());
    }
}

/// A permutation reaches every index.
pub proof fn lemma_permutation_covers(order: Seq<int>, n: nat, x: int)
    requires
        permutation(order, n),
        0 <= x < n,
    ensures
        exists|j: int| 0 <= j < n && #[trigger] order[j] == x,
{
    order.unique_seq_to_set();
    let all = vstd::set_lib::set_int_range(0, n as int);
    vstd::set_lib::lemma_int_range(0, n as int);
    assert(order.to_set().subset_of(all)) by {
        assert forall|y: int| order.to_set().contains(y) implies all.contains(y) by {
            let j = choose|j: int| 0 <= j < order.len() && order[j] == y;
            assert(0 <= order[j] < n);
        }
    }
    vstd::set_lib::lemma_subset_equality(order.to_set(), all);
    assert(order.to_set().contains(x));
}

/// The order of rotations is total.
pub proof fn lemma_precedes_weak_order(s: Seq<u8>)
    ensures
        weak_order(|i: int, j: int| precedes(s, i, j)),
        weak_order(|i: int, j: int| sign(s, i, j, s.len()) <= 0),
{
    let n = s.len();
    let p = |i: int, j: int| precedes(s, i, j);
    let q = |i: int, j: int| sign(s, i, j, n) <= 0;
    assert forall|a: int, b: int| #[trigger] p(a, b) || p(b, a) by {
        lemma_sign_range(s, a, b, n);
    }
    assert forall|a: int, b: int| #[trigger] q(a, b) || q(b, a) by {
        lemma_sign_range(s, a, b, n);
    }
    assert forall|a: int, b: int, c: int| #[trigger] p(a, b) && #[trigger] p(b, c) implies p(
        a,
        c,
    ) by {
        lemma_sign_transitive(s, a, b, c, n);
    }
    assert forall|a: int, b: int, c: int| #[trigger] q(a, b) && #[trigger] q(b, c) implies q(
        a,
        c,
    ) by {
        lemma_sign_transitive(s, a, b, c, n);
    }
}

/// There is only one order of the rotations.
pub proof fn lemma_sorted_rotations_unique(s: Seq<u8>, a: Seq<int>, b: Seq<int>)
    requires
        sorted_rotations(s, a),
        sorted_rotations(s, b),
    ensures
        a == b,
{
    let leq = |i: int, j: int| precedes(s, i, j);
    lemma_precedes_weak_order(s);
    assert(ordered(a, leq));
    assert(ordered(b, leq));
    assert forall|k: int| 0 <= k < s.len() implies a[k] == b[k] by {
        lemma_ordered_permutations(a, b, s.len(), leq, k);
        lemma_sign_range(s, a[k], b[k], s.len());
    }
    assert(a =~= b);
}

} // verus!
