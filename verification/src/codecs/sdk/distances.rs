//! The matches that a match finder gives lie further and further back.

use vstd::prelude::*;

use crate::codecs::lzma::options::LzmaProps;
use crate::codecs::matchfinder::{common_length, lemma_common_length};
use crate::codecs::sdk::matchfinder::{
    first_finder, four_at, hash_at, lemma_skip_like_matches, limit_of, linked, longest_of, matched,
    moved_on, noted_in, passed_by, reached, short_matches, three_at, tree_walked, two_at, walked,
    Finder, Match, FIX3_HASH_SIZE, FIX4_HASH_SIZE,
};

verus! {

/// The distances of the matches increase.
pub open spec fn increasing(matches: Seq<Match>) -> bool {
    forall|i: int, j: int|
        0 <= i < j < matches.len() ==> (#[trigger] matches[i]).dist < (#[trigger] matches[j]).dist
}

/// The place of the node `d` bytes back.
pub open spec fn spot(f: Finder, d: int) -> int {
    if d <= f.place {
        f.place - d
    } else {
        f.place + f.size - d
    }
}

/// Every node within reach has links to earlier positions only.
pub open spec fn hung(f: Finder, son: Seq<u32>) -> bool {
    &&& son.len() == 2 * f.size
    &&& linked(son, f.pos)
    &&& forall|d: int|
        1 <= d < f.size && d < f.pos ==> son[2 * #[trigger] spot(f, d)] < f.pos - d && son[2
            * spot(f, d) + 1] < f.pos - d
}

/// The tables know every earlier position, or a later one with the same hash.
pub open spec fn noted(f: Finder, hash: Seq<u32>, upto: int) -> bool {
    forall|q: int|
        1 <= q < upto ==> hash[#[trigger] two_at(f.input, q - 1)] >= q && hash[three_at(
            f.input,
            q - 1,
        )] >= q
}

/// A state that searching leads to.
pub open spec fn orderly(f: Finder) -> bool {
    &&& 1 <= f.pos <= f.input.len() + 1
    &&& f.input.len() < u32::MAX
    &&& 2 <= f.size
    &&& f.place < f.size
    &&& f.hash.len() == FIX4_HASH_SIZE + f.mask + 1
    &&& linked(f.hash, f.pos)
    &&& hung(f, f.son)
    &&& limit_of(f) >= 4 ==> noted(f, f.hash, f.pos as int)
}

/// Setting a link of a node to an earlier position leaves all links in order.
proof fn lemma_hung_set(f: Finder, son: Seq<u32>, d: int, ptr: int, value: u32)
    requires
        hung(f, son),
        2 <= f.size,
        f.place < f.size,
        0 <= d < f.size,
        d < f.pos,
        ptr == 2 * spot(f, d) || ptr == 2 * spot(f, d) + 1,
        value < f.pos - d,
    ensures
        hung(f, son.update(ptr, value)),
{
    let after = son.update(ptr, value);
    assert(linked(after, f.pos)) by {
        assert forall|i: int| 0 <= i < after.len() implies #[trigger] after[i] < f.pos by {
            if i != ptr {
                assert(son[i] < f.pos);
            }
        }
    }
    assert forall|e: int| 1 <= e < f.size && e < f.pos implies after[2 * #[trigger] spot(f, e)]
        < f.pos - e && after[2 * spot(f, e) + 1] < f.pos - e by {
        if e != d {
            assert(spot(f, e) != spot(f, d));
        }
    }
}

/// The place of a node, as the walk finds it.
proof fn lemma_spot(f: Finder, d: int)
    requires
        2 <= f.size,
        f.place < f.size,
        0 <= d < f.size,
    ensures
        (f.place + f.size - d) % (f.size as int) == spot(f, d),
        0 <= spot(f, d) < f.size,
{
    let n = f.size as int;
    if d <= f.place {
        vstd::arithmetic::div_mod::lemma_mod_add_multiples_vanish(f.place - d, n);
        vstd::arithmetic::div_mod::lemma_small_mod((f.place - d) as nat, n as nat);
    } else {
        vstd::arithmetic::div_mod::lemma_small_mod((f.place + n - d) as nat, n as nat);
    }
}

/// No further match can lie at or before the ones that are known.
pub open spec fn behind(f: Finder, out: Seq<Match>, candidate: int, max_len: int, limit: int) -> bool {
    forall|i: int, q: int|
        0 <= i < out.len() && 1 <= q <= candidate && q + f.size > f.pos && #[trigger]
            common_length(f.input, q - 1, f.pos - 1, 0, limit) > max_len ==> (#[trigger] out[i]).dist
            + 1 < f.pos - q
}

/// A walk finds matches further and further back, and leaves the links in order.
proof fn lemma_walk_order(
    f: Finder,
    limit: int,
    son: Seq<u32>,
    d0: int,
    ptr0: int,
    d1: int,
    ptr1: int,
    candidate: u32,
    left: nat,
    max_len: int,
    out: Seq<Match>,
)
    requires
        1 <= f.pos,
        2 <= f.size,
        f.place < f.size,
        limit >= 4,
        hung(f, son),
        candidate < f.pos,
        0 <= d0 < f.size,
        d0 < f.pos,
        ptr0 == 2 * spot(f, d0) || ptr0 == 2 * spot(f, d0) + 1,
        candidate < f.pos - d0,
        0 <= d1 < f.size,
        d1 < f.pos,
        ptr1 == 2 * spot(f, d1) || ptr1 == 2 * spot(f, d1) + 1,
        candidate < f.pos - d1,
        increasing(out),
        behind(f, out, candidate as int, max_len, limit),
    ensures
        hung(f, walked(f, limit, son, ptr0, ptr1, candidate, left, max_len, out).son),
        increasing(walked(f, limit, son, ptr0, ptr1, candidate, left, max_len, out).out),
    decreases left,
{
    let least = if f.pos > f.size {
        f.pos - f.size
    } else {
        0
    };
    if left == 0 || candidate <= least {
        lemma_hung_set(f, son, d0, ptr0, 0);
        lemma_hung_set(f, son.update(ptr0, 0), d1, ptr1, 0);
    } else {
        let cur = f.pos - 1;
        let delta = f.pos - candidate;
        let pair = (f.place + f.size - delta) % (f.size as int) * 2;
        let back = cur - delta;
        let length = common_length(f.input, back, cur, 0, limit);
        let found = Match { len: length as u32, dist: (delta - 1) as u32 };
        let (best, more) = if max_len < length {
            (length, out.push(found))
        } else {
            (max_len, out)
        };
        lemma_spot(f, delta);
        assert(son[2 * spot(f, delta)] < candidate && son[2 * spot(f, delta) + 1] < candidate);
        assert(back == candidate - 1);
        assert(increasing(more)) by {
            assert forall|i: int, j: int| 0 <= i < j < more.len() implies (
            #[trigger] more[i]).dist < (#[trigger] more[j]).dist by {
                if j == out.len() {
                    assert(more[i] == out[i]);
                    assert(common_length(f.input, candidate - 1, f.pos - 1, 0, limit) > max_len);
                }
            }
        }
        if length >= limit {
            lemma_hung_set(f, son, d1, ptr1, son[pair]);
            lemma_hung_set(f, son.update(ptr1, son[pair]), d0, ptr0, son[pair + 1]);
        } else {
            let less = f.input[back + length] < f.input[cur + length];
            let linked = if less {
                son.update(ptr1, candidate)
            } else {
                son.update(ptr0, candidate)
            };
            if less {
                lemma_hung_set(f, son, d1, ptr1, candidate);
            } else {
                lemma_hung_set(f, son, d0, ptr0, candidate);
            }
            assert(linked[2 * spot(f, delta)] < candidate && linked[2 * spot(f, delta) + 1]
                < candidate);
            let next = if less {
                linked[pair + 1]
            } else {
                linked[pair]
            };
            assert(behind(f, more, next as int, best, limit)) by {
                assert forall|i: int, q: int|
                    0 <= i < more.len() && 1 <= q <= next && q + f.size > f.pos && #[trigger]
                        common_length(f.input, q - 1, f.pos - 1, 0, limit) > best implies (
                #[trigger] more[i]).dist + 1 < f.pos - q by {
                    if i < out.len() {
                        assert(more[i] == out[i]);
                    }
                }
            }
            if less {
                lemma_walk_order(
                    f,
                    limit,
                    linked,
                    d0,
                    ptr0,
                    delta,
                    pair + 1,
                    next,
                    (left - 1) as nat,
                    best,
                    more,
                );
            } else {
                lemma_walk_order(
                    f,
                    limit,
                    linked,
                    delta,
                    pair,
                    d1,
                    ptr1,
                    next,
                    (left - 1) as nat,
                    best,
                    more,
                );
            }
        }
    }
}

/// Where three bytes repeat, both short hashes are the same.
proof fn lemma_same_hashes(f: Finder, q: int, limit: int)
    requires
        1 <= q < f.pos,
        limit >= 4,
        common_length(f.input, q - 1, f.pos - 1, 0, limit) >= 2,
    ensures
        two_at(f.input, q - 1) == two_at(f.input, f.pos - 1),
        common_length(f.input, q - 1, f.pos - 1, 0, limit) >= 3 ==> three_at(f.input, q - 1)
            == three_at(f.input, f.pos - 1),
{
    let a = q - 1;
    let b = f.pos - 1;
    lemma_common_length(f.input, a, b, 0, limit);
    assert(f.input[b + 0] == f.input[a + 0]);
    assert(f.input[b + 1] == f.input[a + 1]);
    if common_length(f.input, a, b, 0, limit) >= 3 {
        assert(f.input[b + 2] == f.input[a + 2]);
    }
}

/// The short matches lie further and further back, and all longer ones behind them.
proof fn lemma_short_order(f: Finder, candidate: int)
    requires
        orderly(f),
        limit_of(f) >= 4,
        candidate < f.pos,
    ensures
        increasing(short_matches(f)),
        behind(f, short_matches(f), candidate, longest_of(short_matches(f)), limit_of(f)),
        longest_of(short_matches(f)) >= 3,
{
    let cur = f.pos - 1;
    let limit = limit_of(f);
    let p2 = f.hash[two_at(f.input, cur)] as int;
    let p3 = f.hash[three_at(f.input, cur)] as int;
    let d2 = f.pos - p2;
    let d3 = f.pos - p3;
    let short = short_matches(f);
    let longest = longest_of(short);
    assert(two_at(f.input, cur) < f.hash.len() && three_at(f.input, cur) < f.hash.len());
    assert(p2 < f.pos && p3 < f.pos);
    let len2 = reached(f, d2);
    let len3 = reached(f, d3);
    if d2 < f.pos {
        lemma_common_length(f.input, p2 - 1, cur, 0, limit);
    }
    if d3 < f.pos {
        lemma_common_length(f.input, p3 - 1, cur, 0, limit);
    }
    if len3 >= 3 {
        lemma_same_hashes(f, p3, limit);
        assert(two_at(f.input, p3 - 1) == two_at(f.input, cur));
        assert(p2 >= p3);
    }
    if len2 >= 3 {
        lemma_same_hashes(f, p2, limit);
        assert(f.hash[two_at(f.input, p2 - 1)] >= p2);
        assert(p3 >= p2);
    }
    assert forall|i: int, q: int|
        0 <= i < short.len() && 1 <= q <= candidate && q + f.size > f.pos && #[trigger]
            common_length(f.input, q - 1, f.pos - 1, 0, limit) > longest implies (
    #[trigger] short[i]).dist + 1 < f.pos - q by {
        lemma_same_hashes(f, q, limit);
        assert(f.hash[two_at(f.input, q - 1)] >= q);
        assert(p2 >= q && p3 >= q);
        if q == p2 {
            assert(len2 == common_length(f.input, q - 1, f.pos - 1, 0, limit));
        }
        if q == p3 {
            assert(len3 == common_length(f.input, q - 1, f.pos - 1, 0, limit));
        }
    }
}

/// Moving on keeps the links in order.
proof fn lemma_hung_moved(f: Finder, hash: Seq<u32>, son: Seq<u32>)
    requires
        1 <= f.pos < u32::MAX,
        2 <= f.size,
        f.place < f.size,
        hung(f, son),
    ensures
        hung(moved_on(f, hash, son), son),
{
    let next = moved_on(f, hash, son);
    assert(linked(son, next.pos)) by {
        assert forall|i: int| 0 <= i < son.len() implies #[trigger] son[i] < next.pos by {
            assert(son[i] < f.pos);
        }
    }
    assert forall|d: int| 1 <= d < next.size && d < next.pos implies son[2 * #[trigger] spot(
        next,
        d,
    )] < next.pos - d && son[2 * spot(next, d) + 1] < next.pos - d by {
        assert(spot(next, d) == spot(f, d - 1));
        if d == 1 {
            assert(spot(f, 0) == f.place);
            assert(son[2 * f.place] < f.pos && son[2 * f.place + 1] < f.pos);
        }
    }
}

/// Asking for matches keeps the match finder in order, and the matches that it gives lie
/// further and further back.
pub proof fn lemma_distances_increase(f: Finder)
    requires
        orderly(f),
        f.pos <= f.input.len(),
    ensures
        orderly(matched(f).0),
        increasing(matched(f).1),
{
    reveal(matched);
    let limit = limit_of(f);
    if limit < 4 {
        lemma_hung_moved(f, f.hash, f.son);
        assert(linked(f.hash, (f.pos + 1) as u32)) by {
            assert forall|i: int| 0 <= i < f.hash.len() implies #[trigger] f.hash[i] < f.pos + 1 by {
                assert(f.hash[i] < f.pos);
            }
        }
    } else {
        let cur = f.pos - 1;
        let mask = f.mask;
        let bits = hash_at(f.input, cur, u32::MAX);
        let low = crate::codecs::sdk::matchfinder::table_entry(f.input[cur] as u32, 8) ^ (
        f.input[cur + 1] as u32);
        let mid = low ^ ((f.input[cur + 2] as u32) << 8u32);
        let high = mid ^ (crate::codecs::sdk::matchfinder::table_entry(
            f.input[cur + 3] as u32,
            8,
        ) << 5u32);
        assert(high & mask <= mask) by (bit_vector);
        let four = four_at(f.input, cur, f.mask);
        assert(FIX4_HASH_SIZE <= four < f.hash.len());
        let candidate = f.hash[four];
        let short = short_matches(f);
        let longest = longest_of(short);
        lemma_short_order(f, candidate as int);
        let start = if longest >= limit {
            Seq::<Match>::empty()
        } else {
            short
        };
        assert(spot(f, 0) == f.place);
        lemma_walk_order(
            f,
            limit,
            f.son,
            0,
            f.place * 2 + 1,
            0,
            f.place * 2,
            candidate,
            f.cut as nat,
            longest,
            start,
        );
        let walk = tree_walked(f, limit, candidate, longest, start);
        let hash = noted_in(f);
        let next = moved_on(f, hash, walk.son);
        lemma_hung_moved(f, hash, walk.son);
        let two = two_at(f.input, cur);
        let three = three_at(f.input, cur);
        assert(two < FIX3_HASH_SIZE <= three < FIX4_HASH_SIZE);
        assert(linked(hash, next.pos)) by {
            assert forall|i: int| 0 <= i < hash.len() implies #[trigger] hash[i] < next.pos by {
                assert(f.hash[i] < f.pos);
            }
        }
        assert(noted(next, hash, next.pos as int)) by {
            assert forall|q: int| 1 <= q < next.pos implies hash[#[trigger] two_at(
                next.input,
                q - 1,
            )] >= q && hash[three_at(next.input, q - 1)] >= q by {
                let a = two_at(f.input, q - 1);
                let b = three_at(f.input, q - 1);
                assert(a < FIX3_HASH_SIZE <= b < FIX4_HASH_SIZE);
                if q < f.pos {
                    assert(f.hash[a] >= q && f.hash[b] >= q);
                    assert(f.hash[a] < f.pos && f.hash[b] < f.pos);
                }
            }
        }
    }
}

/// Passing over bytes keeps the match finder in order.
pub proof fn lemma_skip_orderly(f: Finder, n: nat)
    requires
        orderly(f),
        f.pos - 1 + n <= f.input.len(),
    ensures
        orderly(passed_by(f, n)),
        passed_by(f, n).pos == f.pos + n,
        passed_by(f, n).input == f.input,
    decreases n,
{
    if n > 0 {
        lemma_skip_orderly(f, (n - 1) as nat);
        let g = passed_by(f, (n - 1) as nat);
        reveal_with_fuel(passed_by, 2);
        lemma_skip_like_matches(g);
        lemma_distances_increase(g);
        reveal(matched);
    }
}

/// A match finder begins in order.
pub proof fn lemma_first_orderly(input: Seq<u8>, props: LzmaProps)
    requires
        input.len() < u32::MAX,
        1 <= props.dict_size < u32::MAX,
    ensures
        orderly(first_finder(input, props)),
{
    let f = first_finder(input, props);
    assert(hung(f, f.son));
}

} // verus!
