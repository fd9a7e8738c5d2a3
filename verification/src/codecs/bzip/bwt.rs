//! The Burrows-Wheeler transform and its inverse.

use vstd::prelude::*;

use crate::codecs::bzip::rotations::{
    cyclic, lemma_ordered_permutations, lemma_permutation_covers, lemma_precedes_weak_order,
    lemma_sign_equal, lemma_sign_prefix, lemma_sign_range, lemma_sign_saturates, lemma_sign_split,
    lemma_sign_wraps, lemma_sorted_rotations_unique, ordered, permutation, precedes, sign,
    sorted_rotations,
};

verus! {

/// The bytes in front of the rotations, in the order of the rotations.
pub open spec fn last_column(s: Seq<u8>, order: Seq<int>) -> Seq<u8> {
    Seq::new(order.len(), |k: int| cyclic(s, order[k] + s.len() - 1))
}

/// The starts of all rotations in their order.
pub open spec fn rotation_order(s: Seq<u8>) -> Seq<int> {
    choose|order: Seq<int>| sorted_rotations(s, order)
}

/// The transform of `s`.
pub open spec fn transformed(s: Seq<u8>) -> Seq<u8> {
    last_column(s, rotation_order(s))
}

/// Where the unrotated string stands among its rotations.
pub open spec fn pointer(s: Seq<u8>) -> int {
    choose|k: int| 0 <= k < s.len() && #[trigger] rotation_order(s)[k] == 0
}

/// Where the bytes of the transform stand in `s`.
pub open spec fn column_places(s: Seq<u8>) -> Seq<int> {
    Seq::new(
        rotation_order(s).len(),
        |k: int| (rotation_order(s)[k] + s.len() - 1) % (s.len() as int),
    )
}

/// The transform has the bytes of its input, each of them once, in another order.
pub proof fn lemma_transform_permutes(s: Seq<u8>)
    ensures
        permutation(column_places(s), s.len()),
        transformed(s).len() == s.len(),
        forall|k: int| 0 <= k < s.len() ==> #[trigger] transformed(s)[k] == s[column_places(s)[k]],
{
    let n = s.len() as int;
    let order = rotation_order(s);
    let places = column_places(s);
    lemma_rotation_order(s);
    assert forall|k: int| 0 <= k < n implies 0 <= #[trigger] places[k] < n && places[k] == (
    if order[k] == 0 {
        n - 1
    } else {
        order[k] - 1
    }) by {
        let a = order[k];
        assert(0 <= a < n);
        if a == 0 {
            vstd::arithmetic::div_mod::lemma_small_mod((n - 1) as nat, n as nat);
        } else {
            vstd::arithmetic::div_mod::lemma_mod_add_multiples_vanish(a - 1, n);
            vstd::arithmetic::div_mod::lemma_small_mod((a - 1) as nat, n as nat);
        }
    }
    assert forall|i: int, j: int| 0 <= i < n && 0 <= j < n && i != j implies #[trigger] places[i]
        != #[trigger] places[j] by {
        assert(0 <= order[i] < n && 0 <= order[j] < n && order[i] != order[j]);
    }
}

/// How many of the first `n` bytes are below `byte`.
pub open spec fn count_below(column: Seq<u8>, n: nat, byte: int) -> nat
    decreases n,
{
    if n == 0 {
        0
    } else {
        count_below(column, (n - 1) as nat, byte) + (if (column[n - 1] as int) < byte {
            1nat
        } else {
            0
        })
    }
}

/// How many of the first `n` bytes equal `byte`.
pub open spec fn count_equal(column: Seq<u8>, n: nat, byte: int) -> nat
    decreases n,
{
    if n == 0 {
        0
    } else {
        count_equal(column, (n - 1) as nat, byte) + (if column[n - 1] as int == byte {
            1nat
        } else {
            0
        })
    }
}

/// Where byte `i` of the column goes when the column is sorted stably.
pub open spec fn sorted_place(column: Seq<u8>, i: int) -> int {
    count_below(column, column.len(), column[i] as int) as int + count_equal(
        column,
        i as nat,
        column[i] as int,
    )
}

/// The indices of the column in stably sorted order.
pub open spec fn stable_links(column: Seq<u8>, links: Seq<int>) -> bool {
    &&& permutation(links, column.len())
    &&& forall|i: int|
        0 <= i < column.len() ==> 0 <= #[trigger] sorted_place(column, i) < column.len()
            && links[sorted_place(column, i)] == i
}

/// The indices of the column in stably sorted order.
pub open spec fn links_of(column: Seq<u8>) -> Seq<int> {
    choose|links: Seq<int>| stable_links(column, links)
}

/// `n` bytes of the column along the links, from `position` on.
pub open spec fn walk(column: Seq<u8>, links: Seq<int>, position: int, n: nat) -> Seq<u8>
    decreases n,
{
    if n == 0 {
        Seq::empty()
    } else {
        seq![column[position]] + walk(column, links, links[position], (n - 1) as nat)
    }
}

/// The string whose transform is `column` with the unrotated string at `start`.
pub open spec fn untransformed(column: Seq<u8>, start: int) -> Seq<u8> {
    walk(column, links_of(column), links_of(column)[start], column.len())
}

proof fn lemma_counts(column: Seq<u8>, n: nat, byte: int)
    requires
        n <= column.len(),
    ensures
        count_below(column, n, byte) + count_equal(column, n, byte) <= n,
    decreases n,
{
    if n > 0 {
        lemma_counts(column, (n - 1) as nat, byte);
    }
}

proof fn lemma_below_grows(column: Seq<u8>, n: nat, a: int, b: int)
    requires
        a < b,
    ensures
        count_below(column, n, a) + count_equal(column, n, a) <= count_below(column, n, b),
    decreases n,
{
    if n > 0 {
        lemma_below_grows(column, (n - 1) as nat, a, b);
    }
}

proof fn lemma_equal_grows(column: Seq<u8>, m: nat, n: nat, byte: int)
    requires
        m <= n,
    ensures
        count_equal(column, m, byte) <= count_equal(column, n, byte),
    decreases n,
{
    if m < n {
        lemma_equal_grows(column, m, (n - 1) as nat, byte);
    }
}

/// Sorted places lie within the column.
pub proof fn lemma_place_bound(column: Seq<u8>, i: int)
    requires
        0 <= i < column.len(),
    ensures
        0 <= sorted_place(column, i) < column.len(),
{
    let b = column[i] as int;
    lemma_counts(column, column.len(), b);
    lemma_equal_grows(column, (i + 1) as nat, column.len(), b);
    assert(count_equal(column, (i + 1) as nat, b) == count_equal(column, i as nat, b) + 1);
}

/// The sorted order is by byte, and by index among equal bytes.
pub proof fn lemma_place_order(column: Seq<u8>, i: int, j: int)
    requires
        0 <= i < column.len(),
        0 <= j < column.len(),
        column[i] < column[j] || (column[i] == column[j] && i < j),
    ensures
        sorted_place(column, i) < sorted_place(column, j),
{
    let b = column[i] as int;
    assert(count_equal(column, (i + 1) as nat, b) == count_equal(column, i as nat, b) + 1);
    if column[i] < column[j] {
        lemma_equal_grows(column, (i + 1) as nat, column.len(), b);
        lemma_below_grows(column, column.len(), b, column[j] as int);
    } else {
        lemma_equal_grows(column, (i + 1) as nat, j as nat, b);
    }
}

/// A link leads to the byte whose place it stands at.
proof fn lemma_link_place(column: Seq<u8>, links: Seq<int>, k: int)
    requires
        stable_links(column, links),
        0 <= k < column.len(),
    ensures
        sorted_place(column, links[k]) == k,
{
    let i = links[k];
    assert(links[sorted_place(column, i)] == i);
}

/// There is only one stable order.
pub proof fn lemma_links_unique(column: Seq<u8>, a: Seq<int>, b: Seq<int>)
    requires
        stable_links(column, a),
        stable_links(column, b),
    ensures
        a == b,
{
    assert forall|k: int| 0 <= k < column.len() implies a[k] == b[k] by {
        lemma_link_place(column, a, k);
        assert(b[sorted_place(column, a[k])] == a[k]);
    }
    assert(a =~= b);
}

/// The rotations of a string have an order.
pub proof fn lemma_rotation_order(s: Seq<u8>)
    ensures
        sorted_rotations(s, rotation_order(s)),
{
    let n = s.len();
    let leq = |i: int, j: int| precedes(s, i, j);
    lemma_precedes_weak_order(s);
    let plain = Seq::new(n, |i: int| i);
    assert(vstd::relations::total_ordering(leq)) by {
        assert forall|a: int, b: int| #[trigger] leq(a, b) && #[trigger] leq(b, a) implies a
            == b by {
            lemma_sign_range(s, a, b, n);
        }
        assert forall|a: int| #[trigger] leq(a, a) by {
            assert(leq(a, a) || leq(a, a));
        }
    }
    let order = plain.sort_by(leq);
    plain.lemma_sort_by_ensures(leq);
    plain.to_multiset_ensures();
    order.to_multiset_ensures();
    assert(plain.no_duplicates());
    plain.lemma_multiset_has_no_duplicates();
    order.lemma_multiset_has_no_duplicates_conv();
    assert forall|k: int| 0 <= k < n implies 0 <= #[trigger] order[k] < n by {
        assert(order.contains(order[k]));
        assert(order.to_multiset().contains(order[k]));
        assert(plain.contains(order[k]));
    }
    assert forall|a: int, b: int| 0 <= a < b < order.len() implies precedes(
        s,
        #[trigger] order[a],
        #[trigger] order[b],
    ) by {
        assert(leq(order[a], order[b]));
    }
    assert(sorted_rotations(s, order));
}

/// Every column has a stable order.
pub proof fn lemma_links_exist(column: Seq<u8>)
    ensures
        stable_links(column, links_of(column)),
{
    let n = column.len();
    let links = Seq::new(
        n,
        |k: int| choose|j: int| 0 <= j < n && #[trigger] sorted_place(column, j) == k,
    );
    assert forall|j: int| 0 <= j < n implies 0 <= #[trigger] sorted_place(column, j) < n
        && links[sorted_place(column, j)] == j by {
        lemma_place_bound(column, j);
        let k = sorted_place(column, j);
        let found = choose|i: int| 0 <= i < n && #[trigger] sorted_place(column, i) == k;
        assert(0 <= found < n && sorted_place(column, found) == k);
        if found != j {
            lemma_places_differ(column, found, j);
        }
    }
    lemma_links_complete(column, links);
}

/// Stepping back from a linked rotation.
spec fn before_link(s: Seq<u8>, order: Seq<int>, links: Seq<int>, k: int) -> int {
    (order[links[k]] + s.len() - 1) % (s.len() as int)
}

/// A link leads from each rotation to the one that starts a byte later, as far as the strings
/// themselves can tell.
proof fn lemma_link_advances(s: Seq<u8>, order: Seq<int>, links: Seq<int>, k: int)
    requires
        s.len() > 0,
        sorted_rotations(s, order),
        stable_links(last_column(s, order), links),
        0 <= k < s.len(),
    ensures
        sign(s, order[links[k]], order[k] + 1, s.len()) == 0,
{
    let n = s.len();
    let m = n as int;
    let column = last_column(s, order);
    let back = Seq::new(n, |k: int| before_link(s, order, links, k));
    let leq = |i: int, j: int| sign(s, i, j, n) <= 0;
    lemma_precedes_weak_order(s);
    assert(permutation(back, n)) by {
        assert forall|a: int, b: int| 0 <= a < n && 0 <= b < n && a != b implies back[a]
            != back[b] by {
            let x = order[links[a]];
            let y = order[links[b]];
            assert(links[a] != links[b]);
            assert(x != y);
            if back[a] == back[b] {
                lemma_step_back(x, m);
                lemma_step_back(y, m);
            }
        }
        assert forall|a: int| 0 <= a < n implies 0 <= #[trigger] back[a] < n by {
            vstd::arithmetic::div_mod::lemma_mod_bound(order[links[a]] + m - 1, m);
        }
    }
    assert(ordered(back, leq)) by {
        assert forall|a: int, b: int| 0 <= a < b < n implies leq(
            #[trigger] back[a],
            #[trigger] back[b],
        ) by {
            let i = links[a];
            let j = links[b];
            lemma_link_place(column, links, a);
            lemma_link_place(column, links, b);
            if column[i] == column[j] {
                if i >= j {
                    if i > j {
                        lemma_place_order(column, j, i);
                    }
                    assert(false);
                }
                assert(precedes(s, order[i], order[j]));
                lemma_step_back(order[i], m);
                lemma_step_back(order[j], m);
                let h = (n - 1) as nat;
                lemma_sign_split(s, order[i], order[j], h, 1);
                lemma_sign_wraps(s, back[a] + 1, back[b] + 1, h);
                lemma_sign_wraps(s, order[i], order[j], h);
                vstd::arithmetic::div_mod::lemma_mod_twice(order[i] + m - 1, m);
                vstd::arithmetic::div_mod::lemma_mod_twice(order[j] + m - 1, m);
            } else {
                if column[j] < column[i] {
                    lemma_place_order(column, j, i);
                }
                vstd::arithmetic::div_mod::lemma_mod_twice(order[i] + m - 1, m);
                vstd::arithmetic::div_mod::lemma_mod_twice(order[j] + m - 1, m);
            }
        }
    }
    assert(ordered(order, leq)) by {
        assert forall|a: int, b: int| 0 <= a < b < n implies leq(
            #[trigger] order[a],
            #[trigger] order[b],
        ) by {
            assert(precedes(s, order[a], order[b]));
        }
    }
    lemma_ordered_permutations(back, order, n, leq, k);
    lemma_sign_range(s, back[k], order[k], n);
    assert(sign(s, back[k], order[k], n) == 0);
    lemma_sign_saturates(s, back[k], order[k], n + 1);
    lemma_sign_split(s, back[k], order[k], 1, n);
    assert(sign(s, back[k] + 1, order[k] + 1, n) == 0) by {
        lemma_sign_equal(s, back[k], order[k], 1);
        lemma_sign_equal(s, back[k], order[k], n + 1);
        assert(cyclic(s, back[k] + 0) == cyclic(s, order[k] + 0));
    }
    lemma_step_back(order[links[k]], m);
    lemma_sign_wraps(s, back[k] + 1, order[k] + 1, n);
    lemma_sign_wraps(s, order[links[k]], order[k] + 1, n);
}

/// A step back and a step forward cancel.
proof fn lemma_step_back(x: int, n: int)
    requires
        0 <= x < n,
    ensures
        ((x + n - 1) % n + 1) % n == x,
        x % n == x,
{
    vstd::arithmetic::div_mod::lemma_add_mod_noop(x + n - 1, 1, n);
    vstd::arithmetic::div_mod::lemma_add_mod_noop((x + n - 1) % n, 1, n);
    vstd::arithmetic::div_mod::lemma_mod_twice(x + n - 1, n);
    vstd::arithmetic::div_mod::lemma_mod_add_multiples_vanish(x, n);
    vstd::arithmetic::div_mod::lemma_small_mod(x as nat, n as nat);
    assert(x + n - 1 + 1 == n + x);
}

/// Walking the links from rotation `t` spells the string from byte `t` on.
proof fn lemma_walk(
    s: Seq<u8>,
    order: Seq<int>,
    links: Seq<int>,
    position: int,
    t: int,
    count: nat,
)
    requires
        s.len() > 0,
        sorted_rotations(s, order),
        stable_links(last_column(s, order), links),
        0 <= position < s.len(),
        0 <= t,
        t + count == s.len(),
        sign(s, order[position], t + 1, s.len()) == 0,
    ensures
        walk(last_column(s, order), links, position, count) == s.skip(t),
    decreases count,
{
    let n = s.len();
    let column = last_column(s, order);
    if count == 0 {
        assert(s.skip(t) =~= Seq::<u8>::empty());
    } else {
        lemma_sign_equal(s, order[position], t + 1, n);
        assert(cyclic(s, order[position] + (n - 1)) == cyclic(s, t + 1 + (n - 1)));
        vstd::arithmetic::div_mod::lemma_mod_add_multiples_vanish(t, n as int);
        vstd::arithmetic::div_mod::lemma_small_mod(t as nat, n);
        assert(column[position] == s[t]);
        let next = links[position];
        lemma_link_advances(s, order, links, position);
        assert(sign(s, order[next], t + 2, n) == 0) by {
            lemma_sign_saturates(s, order[position], t + 1, n + 1);
            lemma_sign_split(s, order[position], t + 1, 1, n);
            lemma_sign_equal(s, order[position], t + 1, 1);
            assert(cyclic(s, order[position] + 0) == cyclic(s, t + 1 + 0));
            assert(sign(s, order[position] + 1, t + 2, n) == 0);
            lemma_sign_equal(s, order[next], order[position] + 1, n);
            lemma_sign_equal(s, order[position] + 1, t + 2, n);
            assert forall|m: int| 0 <= m < n implies #[trigger] cyclic(s, order[next] + m)
                == cyclic(s, t + 2 + m) by {
                assert(cyclic(s, order[next] + m) == cyclic(s, order[position] + 1 + m));
                assert(cyclic(s, order[position] + 1 + m) == cyclic(s, t + 2 + m));
            }
            lemma_sign_equal(s, order[next], t + 2, n);
        }
        lemma_walk(s, order, links, next, t + 1, (count - 1) as nat);
        assert(s.skip(t) =~= seq![s[t]] + s.skip(t + 1));
    }
}

/// The transform can be undone: the column and the pointer determine the string.
pub proof fn lemma_bwt_round_trip(s: Seq<u8>, order: Seq<int>, links: Seq<int>, start: int)
    requires
        s.len() > 0,
        sorted_rotations(s, order),
        stable_links(last_column(s, order), links),
        0 <= start < s.len(),
        order[start] == 0,
    ensures
        walk(last_column(s, order), links, links[start], s.len()) == s,
{
    lemma_link_advances(s, order, links, start);
    lemma_walk(s, order, links, links[start], 0, s.len());
    assert(s.skip(0) =~= s);
}

/// Triples in lexicographic order.
pub open spec fn triple_leq(a: (usize, usize, usize), b: (usize, usize, usize)) -> bool {
    a.0 < b.0 || (a.0 == b.0 && (a.1 < b.1 || (a.1 == b.1 && a.2 <= b.2)))
}

/// Sorts with `slice::sort` of the standard library: the same triples come back in
/// lexicographic order, which is the order of tuples.
#[verifier::external_body]
fn sort_triples(triples: &mut Vec<(usize, usize, usize)>)
    ensures
        final(triples)@.to_multiset() == old(triples)@.to_multiset(),
        forall|a: int, b: int|
            0 <= a < b < final(triples)@.len() ==> triple_leq(
                #[trigger] final(triples)@[a],
                #[trigger] final(triples)@[b],
            ),
{
    triples.sort();
}

/// The ranks order the strings of `h` bytes.
spec fn ranks_fit(s: Seq<u8>, rank: Seq<usize>, h: nat) -> bool {
    &&& rank.len() == s.len()
    &&& forall|i: int, j: int|
        0 <= i < s.len() && 0 <= j < s.len() ==> ((#[trigger] rank[i] < #[trigger] rank[j]) == (
        sign(s, i, j, h) < 0))
}

/// The index that lies `step` after `i`.
spec fn ahead(n: int, i: int, step: int) -> int {
    (i + step) % n
}

/// The sort key of index `i`.
spec fn key_of(rank: Seq<usize>, step: int, i: int) -> (usize, usize, usize) {
    (rank[i], rank[ahead(rank.len() as int, i, step)], i as usize)
}

/// Two keys agree but for the index.
spec fn same_pair(a: (usize, usize, usize), b: (usize, usize, usize)) -> bool {
    a.0 == b.0 && a.1 == b.1
}

/// The length of the strings that keys order.
spec fn doubled(h: nat, step: int) -> nat {
    if h == step {
        2 * h
    } else {
        h
    }
}

/// Keys compare as the longer strings do.
proof fn lemma_keys(s: Seq<u8>, rank: Seq<usize>, h: nat, step: int, i: int, j: int)
    requires
        s.len() > 0,
        ranks_fit(s, rank, h),
        h == step || (h >= s.len() && step == s.len()),
        1 <= step <= s.len(),
        0 <= i < s.len(),
        0 <= j < s.len(),
    ensures
        ({
            let a = key_of(rank, step, i);
            let b = key_of(rank, step, j);
            &&& (a.0 < b.0 || (a.0 == b.0 && a.1 < b.1)) == (sign(s, i, j, doubled(h, step)) < 0)
            &&& same_pair(a, b) == (sign(s, i, j, doubled(h, step)) == 0)
        }),
{
    let n = s.len() as int;
    lemma_sign_range(s, i, j, h);
    lemma_sign_range(s, i, j, doubled(h, step));
    let x = ahead(n, i, step);
    let y = ahead(n, j, step);
    vstd::arithmetic::div_mod::lemma_mod_bound(i + step, n);
    vstd::arithmetic::div_mod::lemma_mod_bound(j + step, n);
    lemma_sign_range(s, x, y, h);
    assert((rank[i] < rank[j]) == (sign(s, i, j, h) < 0));
    assert((rank[j] < rank[i]) == (sign(s, j, i, h) < 0));
    assert((rank[x] < rank[y]) == (sign(s, x, y, h) < 0));
    assert((rank[y] < rank[x]) == (sign(s, y, x, h) < 0));
    if h == step {
        lemma_sign_split(s, i, j, h, h);
        lemma_sign_wraps(s, i + step, j + step, h);
    } else {
        vstd::arithmetic::div_mod::lemma_mod_add_multiples_vanish(i, n);
        vstd::arithmetic::div_mod::lemma_mod_add_multiples_vanish(j, n);
        vstd::arithmetic::div_mod::lemma_small_mod(i as nat, n as nat);
        vstd::arithmetic::div_mod::lemma_small_mod(j as nat, n as nat);
    }
}

/// The indices of sorted keys.
spec fn indices(keys: Seq<(usize, usize, usize)>) -> Seq<int> {
    Seq::new(keys.len(), |k: int| keys[k].2 as int)
}

/// The keys of all indices, in some order.
spec fn all_keys(keys: Seq<(usize, usize, usize)>, rank: Seq<usize>, step: int) -> bool {
    &&& permutation(indices(keys), rank.len())
    &&& forall|k: int| 0 <= k < keys.len() ==> #[trigger] keys[k] == key_of(
        rank,
        step,
        keys[k].2 as int,
    )
}

/// Sorting keeps the keys.
proof fn lemma_sorted_keys(
    before: Seq<(usize, usize, usize)>,
    after: Seq<(usize, usize, usize)>,
    rank: Seq<usize>,
    step: int,
)
    requires
        before.len() == rank.len(),
        rank.len() <= usize::MAX,
        forall|i: int| 0 <= i < before.len() ==> #[trigger] before[i] == key_of(rank, step, i),
        after.to_multiset() == before.to_multiset(),
    ensures
        all_keys(after, rank, step),
{
    before.to_multiset_ensures();
    after.to_multiset_ensures();
    assert(after.len() == before.len());
    assert(before.no_duplicates()) by {
        assert forall|a: int, b: int| 0 <= a < before.len() && 0 <= b < before.len() && a
            != b implies before[a] != before[b] by {
            assert(before[a].2 == a as usize && before[b].2 == b as usize);
        }
    }
    before.lemma_multiset_has_no_duplicates();
    after.lemma_multiset_has_no_duplicates_conv();
    assert forall|k: int| 0 <= k < after.len() implies #[trigger] after[k] == key_of(
        rank,
        step,
        after[k].2 as int,
    ) && 0 <= after[k].2 < rank.len() by {
        assert(after.contains(after[k]));
        assert(after.to_multiset().contains(after[k]));
        assert(before.contains(after[k]));
        let i = choose|i: int| 0 <= i < before.len() && before[i] == after[k];
        assert(before[i] == key_of(rank, step, i));
    }
    let order = indices(after);
    assert forall|a: int, b: int| 0 <= a < order.len() && 0 <= b < order.len() && a
        != b implies order[a] != order[b] by {
        if order[a] == order[b] {
            assert(after[a] == after[b]);
        }
    }
    assert forall|k: int| 0 <= k < order.len() implies 0 <= #[trigger] order[k] < rank.len() by {
        assert(after[k] == key_of(rank, step, after[k].2 as int));
    }
}

/// The keys of all indices.
fn make_keys(rank: &Vec<usize>, step: usize) -> (keys: Vec<(usize, usize, usize)>)
    requires
        1 <= step <= rank@.len(),
    ensures
        keys@.len() == rank@.len(),
        forall|i: int| 0 <= i < keys@.len() ==> #[trigger] keys@[i] == key_of(
            rank@,
            step as int,
            i,
        ),
{
    let n: usize = rank.len();
    let mut keys: Vec<(usize, usize, usize)> = Vec::with_capacity(n);
    let mut i: usize = 0;
    while i < n
        invariant
            i <= n,
            n == rank@.len(),
            1 <= step <= n,
            keys@.len() == i,
            forall|k: int| 0 <= k < i ==> #[trigger] keys@[k] == key_of(rank@, step as int, k),
        decreases n - i,
    {
        let gap: usize = n - step;
        let next: usize = if i < gap {
            i + step
        } else {
            i - gap
        };
        proof {
            if i < gap {
                vstd::arithmetic::div_mod::lemma_small_mod((i + step) as nat, n as nat);
            } else {
                vstd::arithmetic::div_mod::lemma_mod_add_multiples_vanish(i - gap, n as int);
                vstd::arithmetic::div_mod::lemma_small_mod((i - gap) as nat, n as nat);
            }
            assert(ahead(n as int, i as int, step as int) == next);
        }
        keys.push((rank[i], rank[next], i));
        i += 1;
    }
    keys
}

/// The new rank of the key at `k`, given that the keys up to `upto` have theirs.
spec fn ranked(
    keys: Seq<(usize, usize, usize)>,
    rank: Seq<usize>,
    a: int,
    b: int,
) -> bool {
    &&& rank[keys[a].2 as int] <= rank[keys[b].2 as int] <= rank[keys[a].2 as int] + (b - a)
    &&& (rank[keys[a].2 as int] == rank[keys[b].2 as int]) == same_pair(keys[a], keys[b])
}

/// Ranks the indices by their sorted keys: equal pairs get equal ranks.
fn rank_keys(keys: &Vec<(usize, usize, usize)>, Ghost(old_rank): Ghost<Seq<usize>>, Ghost(step):
    Ghost<int>) -> (rank: Vec<usize>)
    requires
        keys@.len() > 0,
        old_rank.len() == keys@.len(),
        all_keys(keys@, old_rank, step),
        forall|a: int, b: int|
            0 <= a < b < keys@.len() ==> triple_leq(#[trigger] keys@[a], #[trigger] keys@[b]),
    ensures
        rank@.len() == keys@.len(),
        forall|a: int, b: int|
            0 <= a <= b < keys@.len() ==> #[trigger] ranked(keys@, rank@, a, b),
        rank@[keys@[0].2 as int] == 0,
{
    let n: usize = keys.len();
    let mut rank: Vec<usize> = vec![0; n];
    let mut k: usize = 1;
    assert(0 <= indices(keys@)[0] < n);
    while k < n
        invariant
            1 <= k <= n,
            n == keys@.len(),
            rank@.len() == n,
            old_rank.len() == n,
            all_keys(keys@, old_rank, step),
            forall|a: int, b: int|
                0 <= a < b < keys@.len() ==> triple_leq(#[trigger] keys@[a], #[trigger] keys@[b]),
            forall|a: int, b: int| 0 <= a <= b < k ==> #[trigger] ranked(keys@, rank@, a, b),
            rank@[keys@[0].2 as int] == 0,
        decreases n - k,
    {
        let previous = keys[k - 1];
        let current = keys[k];
        let differs: bool = previous.0 != current.0 || previous.1 != current.1;
        let ghost before = rank@;
        proof {
            assert(0 <= indices(keys@)[k - 1] < n);
            assert(0 <= indices(keys@)[k as int] < n);
            assert(ranked(keys@, rank@, 0, k - 1));
        }
        let value: usize = if differs {
            rank[previous.2] + 1
        } else {
            rank[previous.2]
        };
        rank.set(current.2, value);
        assert forall|a: int, b: int| 0 <= a <= b < k + 1 implies #[trigger] ranked(
            keys@,
            rank@,
            a,
            b,
        ) by {
            assert(indices(keys@)[a] == keys@[a].2 && 0 <= indices(keys@)[a] < n);
            assert(indices(keys@)[b] == keys@[b].2 && 0 <= indices(keys@)[b] < n);
            assert(indices(keys@)[k as int] == keys@[k as int].2);
            if b < k {
                assert(ranked(keys@, before, a, b));
                assert(indices(keys@)[a] != indices(keys@)[k as int]);
                assert(indices(keys@)[b] != indices(keys@)[k as int]);
            } else if a < k {
                assert(ranked(keys@, before, a, k - 1));
                assert(indices(keys@)[a] != indices(keys@)[k as int]);
                assert(triple_leq(keys@[a], keys@[k as int]));
                assert(triple_leq(keys@[k - 1], keys@[k as int]));
                if a < k - 1 {
                    assert(triple_leq(keys@[a], keys@[k - 1]));
                }
            }
        }
        assert(rank@[keys@[0].2 as int] == 0) by {
            assert(indices(keys@)[0] != indices(keys@)[k as int]);
        }
        k += 1;
    }
    rank
}

/// The new ranks order the longer strings.
proof fn lemma_new_ranks(
    s: Seq<u8>,
    keys: Seq<(usize, usize, usize)>,
    rank: Seq<usize>,
    next: Seq<usize>,
    h: nat,
    step: int,
)
    requires
        s.len() > 0,
        ranks_fit(s, rank, h),
        h == step || (h >= s.len() && step == s.len()),
        1 <= step <= s.len(),
        keys.len() == s.len(),
        next.len() == s.len(),
        all_keys(keys, rank, step),
        forall|a: int, b: int|
            0 <= a < b < keys.len() ==> triple_leq(#[trigger] keys[a], #[trigger] keys[b]),
        forall|a: int, b: int| 0 <= a <= b < keys.len() ==> #[trigger] ranked(keys, next, a, b),
    ensures
        ranks_fit(s, next, doubled(h, step)),
{
    let n = s.len();
    assert forall|i: int, j: int| 0 <= i < n && 0 <= j < n implies ((#[trigger] next[i]
        < #[trigger] next[j]) == (sign(s, i, j, doubled(h, step)) < 0)) by {
        lemma_permutation_covers(indices(keys), n, i);
        lemma_permutation_covers(indices(keys), n, j);
        let a = choose|a: int| 0 <= a < n && #[trigger] indices(keys)[a] == i;
        let b = choose|b: int| 0 <= b < n && #[trigger] indices(keys)[b] == j;
        assert(keys[a] == key_of(rank, step, i));
        assert(keys[b] == key_of(rank, step, j));
        lemma_keys(s, rank, h, step, i, j);
        if a <= b {
            assert(ranked(keys, next, a, b));
            if a < b {
                assert(triple_leq(keys[a], keys[b]));
            }
        } else {
            assert(ranked(keys, next, b, a));
            assert(triple_leq(keys[b], keys[a]));
        }
    }
}

/// Keys that decide all rotations put them in order.
proof fn lemma_keys_in_order(
    s: Seq<u8>,
    keys: Seq<(usize, usize, usize)>,
    rank: Seq<usize>,
    next: Seq<usize>,
    h: nat,
    step: int,
)
    requires
        s.len() > 0,
        ranks_fit(s, rank, h),
        h == step || (h >= s.len() && step == s.len()),
        1 <= step <= s.len(),
        keys.len() == s.len(),
        next.len() == s.len(),
        all_keys(keys, rank, step),
        forall|a: int, b: int|
            0 <= a < b < keys.len() ==> triple_leq(#[trigger] keys[a], #[trigger] keys[b]),
        forall|a: int, b: int| 0 <= a <= b < keys.len() ==> #[trigger] ranked(keys, next, a, b),
        next[keys[0].2 as int] == 0,
        next[keys[s.len() - 1].2 as int] == s.len() - 1 || step == s.len(),
    ensures
        sorted_rotations(s, indices(keys)),
{
    let n = s.len();
    let order = indices(keys);
    let d = doubled(h, step);
    assert forall|a: int, b: int| 0 <= a < b < order.len() implies precedes(
        s,
        #[trigger] order[a],
        #[trigger] order[b],
    ) by {
        let i = order[a];
        let j = order[b];
        assert(keys[a] == key_of(rank, step, i));
        assert(keys[b] == key_of(rank, step, j));
        assert(triple_leq(keys[a], keys[b]));
        lemma_keys(s, rank, h, step, i, j);
        lemma_sign_range(s, i, j, d);
        if sign(s, i, j, d) < 0 {
            lemma_sign_prefix(s, i, j, d);
        } else {
            assert(same_pair(keys[a], keys[b]));
            if step == n {
                lemma_sign_saturates(s, i, j, d);
            } else {
                assert(ranked(keys, next, 0, a));
                assert(ranked(keys, next, a, b));
                assert(ranked(keys, next, b, n - 1));
                assert(false);
            }
        }
    }
}

/// The first ranks are the bytes themselves.
fn byte_ranks(input: &[u8]) -> (rank: Vec<usize>)
    ensures
        ranks_fit(input@, rank@, 1),
        rank@.len() == input@.len(),
{
    let mut rank: Vec<usize> = Vec::with_capacity(input.len());
    let mut i: usize = 0;
    while i < input.len()
        invariant
            i <= input@.len(),
            rank@.len() == i,
            forall|k: int| 0 <= k < i ==> #[trigger] rank@[k] == input@[k],
        decreases input.len() - i,
    {
        rank.push(input[i] as usize);
        i += 1;
    }
    proof {
        let s = input@;
        assert forall|i: int, j: int| 0 <= i < s.len() && 0 <= j < s.len() implies ((
        #[trigger] rank@[i] < #[trigger] rank@[j]) == (sign(s, i, j, 1) < 0)) by {
            vstd::arithmetic::div_mod::lemma_small_mod(i as nat, s.len());
            vstd::arithmetic::div_mod::lemma_small_mod(j as nat, s.len());
            assert(sign(s, i + 1, j + 1, 0) == 0);
            reveal_with_fuel(sign, 2);
        }
    }
    rank
}

/// The starts of all rotations in their order, by sorting prefixes of doubling length.
fn sort_rotations(input: &[u8]) -> (order: Vec<usize>)
    requires
        input@.len() > 0,
    ensures
        order@.len() == input@.len(),
        sorted_rotations(input@, Seq::new(order@.len(), |k: int| order@[k] as int)),
{
    let n: usize = input.len();
    let mut rank: Vec<usize> = byte_ranks(input);
    let mut step: usize = 1;
    let ghost mut h: nat = 1;
    loop
        invariant
            n == input@.len(),
            n > 0,
            1 <= step <= n,
            rank@.len() == n,
            ranks_fit(input@, rank@, h),
            h == step || (h >= n && step == n),
        decreases n - step,
    {
        let mut keys: Vec<(usize, usize, usize)> = make_keys(&rank, step);
        let ghost unsorted = keys@;
        sort_triples(&mut keys);
        proof {
            lemma_sorted_keys(unsorted, keys@, rank@, step as int);
        }
        let next: Vec<usize> = rank_keys(&keys, Ghost(rank@), Ghost(step as int));
        assert(0 <= indices(keys@)[n - 1] < n);
        if next[keys[n - 1].2] == n - 1 || step >= n {
            proof {
                lemma_keys_in_order(input@, keys@, rank@, next@, h, step as int);
            }
            return key_indices(&keys);
        }
        proof {
            lemma_new_ranks(input@, keys@, rank@, next@, h, step as int);
            h = doubled(h, step as int);
        }
        rank = next;
        step = if step <= n - step {
            step + step
        } else {
            n
        };
    }
}

/// The indices of sorted keys.
fn key_indices(keys: &Vec<(usize, usize, usize)>) -> (order: Vec<usize>)
    ensures
        order@.len() == keys@.len(),
        Seq::new(order@.len(), |k: int| order@[k] as int) == indices(keys@),
{
    let mut order: Vec<usize> = Vec::with_capacity(keys.len());
    let mut k: usize = 0;
    while k < keys.len()
        invariant
            k <= keys@.len(),
            order@.len() == k,
            forall|i: int| 0 <= i < k ==> #[trigger] order@[i] == keys@[i].2,
        decreases keys.len() - k,
    {
        order.push(keys[k].2);
        k += 1;
    }
    assert(Seq::new(order@.len(), |k: int| order@[k] as int) =~= indices(keys@));
    order
}

/// The transform of `input`, and where the unrotated input stands among its rotations.
pub fn bwt(input: &[u8]) -> (result: (Vec<u8>, usize))
    ensures
        input@.len() == 0 ==> result.0@.len() == 0 && result.1 == 0,
        input@.len() > 0 ==> {
            &&& sorted_rotations(input@, rotation_order(input@))
            &&& result.0@ == transformed(input@)
            &&& result.1 == pointer(input@)
            &&& result.1 < input@.len()
            &&& rotation_order(input@)[result.1 as int] == 0
        },
{
    let n: usize = input.len();
    if n == 0 {
        return (Vec::new(), 0);
    }
    let order = sort_rotations(input);
    let ghost starts = Seq::new(order@.len(), |k: int| order@[k] as int);
    proof {
        lemma_sorted_rotations_unique(input@, starts, rotation_order(input@));
        lemma_permutation_covers(starts, n as nat, 0);
    }
    let mut column: Vec<u8> = Vec::with_capacity(n);
    let mut start: usize = 0;
    let mut k: usize = 0;
    while k < n
        invariant
            k <= n,
            n == input@.len(),
            n > 0,
            order@.len() == n,
            permutation(starts, n as nat),
            starts == Seq::new(order@.len(), |k: int| order@[k] as int),
            column@.len() == k,
            forall|i: int| 0 <= i < k ==> #[trigger] column@[i] == last_column(input@, starts)[i],
            (start < k && starts[start as int] == 0) || (forall|i: int|
                0 <= i < k ==> #[trigger] starts[i] != 0),
            start < n,
        decreases n - k,
    {
        assert(0 <= starts[k as int] < n);
        let i: usize = order[k];
        if i == 0 {
            start = k;
        }
        let previous: usize = if i == 0 {
            n - 1
        } else {
            i - 1
        };
        proof {
            if i == 0 {
                vstd::arithmetic::div_mod::lemma_small_mod((n - 1) as nat, n as nat);
            } else {
                vstd::arithmetic::div_mod::lemma_mod_add_multiples_vanish(i - 1, n as int);
                vstd::arithmetic::div_mod::lemma_small_mod((i - 1) as nat, n as nat);
                assert(starts[k as int] + n - 1 == n + (i - 1));
            }
        }
        column.push(input[previous]);
        k += 1;
    }
    proof {
        assert(column@ =~= last_column(input@, starts));
        let p = pointer(input@);
        assert(starts[start as int] == 0);
        assert(0 <= p < n && starts[p] == 0);
        assert(p == start);
    }
    (column, start)
}

/// The indices of the column in stably sorted order.
fn link_column(column: &Vec<u8>) -> (links: Vec<usize>)
    ensures
        links@.len() == column@.len(),
        stable_links(column@, Seq::new(links@.len(), |k: int| links@[k] as int)),
{
    let n: usize = column.len();
    let mut counts: Vec<usize> = vec![0; 256];
    let mut i: usize = 0;
    while i < n
        invariant
            i <= n,
            n == column@.len(),
            counts@.len() == 256,
            forall|b: int|
                0 <= b < 256 ==> #[trigger] counts@[b] == count_equal(column@, i as nat, b),
        decreases n - i,
    {
        let byte: usize = column[i] as usize;
        proof {
            lemma_counts(column@, i as nat, byte as int);
        }
        counts.set(byte, counts[byte] + 1);
        i += 1;
    }
    let mut places: Vec<usize> = vec![0; 256];
    let mut total: usize = 0;
    let mut byte: usize = 0;
    proof {
        lemma_none_below(column@, n as nat);
    }
    while byte < 256
        invariant
            byte <= 256,
            n == column@.len(),
            counts@.len() == 256,
            places@.len() == 256,
            forall|b: int|
                0 <= b < 256 ==> #[trigger] counts@[b] == count_equal(column@, n as nat, b),
            total == count_below(column@, n as nat, byte as int),
            forall|b: int|
                0 <= b < byte ==> #[trigger] places@[b] == count_below(column@, n as nat, b),
        decreases 256 - byte,
    {
        proof {
            lemma_counts(column@, n as nat, byte as int);
            lemma_below_next(column@, n as nat, byte as int);
        }
        places.set(byte, total);
        total = total + counts[byte];
        byte += 1;
    }
    let mut links: Vec<usize> = vec![0; n];
    let mut i: usize = 0;
    while i < n
        invariant
            i <= n,
            n == column@.len(),
            places@.len() == 256,
            links@.len() == n,
            forall|b: int|
                0 <= b < 256 ==> #[trigger] places@[b] == count_below(column@, n as nat, b)
                    + count_equal(column@, i as nat, b),
            forall|j: int|
                0 <= j < i ==> 0 <= #[trigger] sorted_place(column@, j) < n
                    && links@[sorted_place(column@, j)] == j,
        decreases n - i,
    {
        let byte: usize = column[i] as usize;
        let place: usize = places[byte];
        proof {
            assert(place == sorted_place(column@, i as int));
            lemma_place_bound(column@, i as int);
        }
        let ghost before = links@;
        links.set(place, i);
        places.set(byte, place + 1);
        assert forall|j: int| 0 <= j < i + 1 implies 0 <= #[trigger] sorted_place(column@, j) < n
            && links@[sorted_place(column@, j)] == j by {
            if j < i {
                lemma_places_differ(column@, j, i as int);
                assert(before[sorted_place(column@, j)] == j);
            }
        }
        i += 1;
    }
    proof {
        let seq = Seq::new(links@.len(), |k: int| links@[k] as int);
        lemma_links_complete(column@, seq);
    }
    links
}

proof fn lemma_none_below(column: Seq<u8>, n: nat)
    ensures
        count_below(column, n, 0) == 0,
    decreases n,
{
    if n > 0 {
        lemma_none_below(column, (n - 1) as nat);
    }
}

proof fn lemma_below_next(column: Seq<u8>, n: nat, byte: int)
    ensures
        count_below(column, n, byte + 1) == count_below(column, n, byte) + count_equal(
            column,
            n,
            byte,
        ),
    decreases n,
{
    if n > 0 {
        lemma_below_next(column, (n - 1) as nat, byte);
    }
}

proof fn lemma_places_differ(column: Seq<u8>, i: int, j: int)
    requires
        0 <= i < column.len(),
        0 <= j < column.len(),
        i != j,
    ensures
        sorted_place(column, i) != sorted_place(column, j),
{
    if column[i] < column[j] || (column[i] == column[j] && i < j) {
        lemma_place_order(column, i, j);
    } else {
        lemma_place_order(column, j, i);
    }
}

/// Links that lead to every index are a permutation.
proof fn lemma_links_complete(column: Seq<u8>, links: Seq<int>)
    requires
        links.len() == column.len(),
        forall|j: int|
            0 <= j < column.len() ==> 0 <= #[trigger] sorted_place(column, j) < column.len()
                && links[sorted_place(column, j)] == j,
    ensures
        stable_links(column, links),
{
    let n = column.len();
    let places = Seq::new(n, |j: int| sorted_place(column, j));
    assert(permutation(places, n)) by {
        assert forall|a: int, b: int| 0 <= a < n && 0 <= b < n && a != b implies places[a]
            != places[b] by {
            lemma_places_differ(column, a, b);
        }
    }
    assert forall|k: int| 0 <= k < n implies 0 <= #[trigger] links[k] < n && sorted_place(
        column,
        links[k],
    ) == k by {
        lemma_permutation_covers(places, n, k);
        let j = choose|j: int| 0 <= j < n && #[trigger] places[j] == k;
        assert(links[sorted_place(column, j)] == j);
    }
    assert forall|a: int, b: int| 0 <= a < n && 0 <= b < n && a != b implies links[a]
        != links[b] by {
        assert(sorted_place(column, links[a]) == a);
        assert(sorted_place(column, links[b]) == b);
    }
}

/// The string whose transform is `input` with the unrotated string at `original_pointer`;
/// `None` if there is no such row.
pub fn inverse_bwt(input: &Vec<u8>, original_pointer: usize) -> (output: Option<Vec<u8>>)
    ensures
        output is Some <==> original_pointer < input@.len(),
        output matches Some(s) ==> s@ == untransformed(input@, original_pointer as int)
            && stable_links(input@, links_of(input@)),
{
    let n: usize = input.len();
    if n == 0 || original_pointer >= n {
        return None;
    }
    let links = link_column(input);
    let ghost all = Seq::new(links@.len(), |k: int| links@[k] as int);
    proof {
        lemma_links_unique(input@, all, links_of(input@));
    }
    let mut output: Vec<u8> = Vec::with_capacity(n);
    assert(all[original_pointer as int] == links@[original_pointer as int]);
    let mut position: usize = links[original_pointer];
    let mut count: usize = 0;
    let ghost whole = walk(input@, all, position as int, n as nat);
    while count < n
        invariant
            count <= n,
            n == input@.len(),
            links@.len() == n,
            permutation(all, n as nat),
            all == Seq::new(links@.len(), |k: int| links@[k] as int),
            position < n,
            whole == output@ + walk(input@, all, position as int, (n - count) as nat),
        decreases n - count,
    {
        let ghost before = output@;
        output.push(input[position]);
        assert(0 <= all[position as int] < n);
        position = links[position];
        count += 1;
        assert(whole =~= output@ + walk(input@, all, position as int, (n - count) as nat));
    }
    assert(whole =~= output@);
    Some(output)
}

} // verus!
