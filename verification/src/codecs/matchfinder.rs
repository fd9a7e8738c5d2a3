//! A hash-chain match finder.

use vstd::prelude::*;

verus! {

/// How far a search goes.
#[derive(Debug, Clone, Copy, PartialEq, Eq, Structural)]
pub struct SearchLimits {
    /// The longest match.
    pub length: usize,
    /// The largest distance back to a match.
    pub window: usize,
    /// How many candidates are looked at for one position.
    pub attempts: usize,
    /// A match of this length ends the search.
    pub nice: usize,
}

const NONE: usize = usize::MAX;

/// The hash of three bytes.
pub open spec fn hash_of(a: u8, b: u8, c: u8) -> int {
    ((((a as u32) << 10u32) ^ ((b as u32) << 5u32) ^ (c as u32)) as int * 0x9e37) % 0x10000
}

/// The hash of the three bytes from `position` on.
pub open spec fn hash_at(input: Seq<u8>, position: int) -> int {
    hash_of(input[position], input[position + 1], input[position + 2])
}

/// Three bytes follow, so that the position has a hash.
pub open spec fn hashed(input: Seq<u8>, position: int) -> bool {
    position + 3 <= input.len()
}

/// The last position before `upto` with the given hash.
pub open spec fn latest(input: Seq<u8>, upto: int, hash: int) -> Option<int>
    decreases upto,
{
    if upto <= 0 {
        None
    } else if hashed(input, upto - 1) && hash_at(input, upto - 1) == hash {
        Some(upto - 1)
    } else {
        latest(input, upto - 1, hash)
    }
}

/// How far the bytes from `a` and from `b` agree, given that the first `n` do; at most `max`.
pub open spec fn common_length(input: Seq<u8>, a: int, b: int, n: int, max: int) -> int
    decreases max - n,
{
    if n < max && input[a + n] == input[b + n] {
        common_length(input, a, b, n + 1, max)
    } else {
        n
    }
}

/// The longest match that may start at `position`.
pub open spec fn length_limit(input: Seq<u8>, position: int, limits: SearchLimits) -> int {
    if input.len() - position < limits.length {
        input.len() - position
    } else {
        limits.length as int
    }
}

/// The best match, as length and distance, among `best` and the next `attempts` candidates.
/// Of equally long matches the nearest wins, and one of full or nice length ends the search.
pub open spec fn search(
    input: Seq<u8>,
    position: int,
    candidate: Option<int>,
    attempts: nat,
    best: (int, int),
    limits: SearchLimits,
) -> (int, int)
    decreases attempts,
{
    match candidate {
        None => best,
        Some(c) => if attempts == 0 || position - c > limits.window {
            best
        } else {
            let limit = length_limit(input, position, limits);
            let length = common_length(input, c, position, 0, limit);
            let better = if length > best.0 && length >= 3 {
                (length, position - c)
            } else {
                best
            };
            if better != best && (length == limit || length >= limits.nice) {
                better
            } else {
                search(
                    input,
                    position,
                    latest(input, c, hash_at(input, c)),
                    (attempts - 1) as nat,
                    better,
                    limits,
                )
            }
        },
    }
}

/// The match, as length and distance, that the encoder takes at `position`; the length zero
/// stands for no match.
#[verifier::opaque]
pub open spec fn match_from(input: Seq<u8>, position: int, limits: SearchLimits) -> (int, int) {
    if !hashed(input, position) {
        (0, 0)
    } else {
        search(
            input,
            position,
            latest(input, position, hash_at(input, position)),
            limits.attempts as nat,
            (0, 0),
            limits,
        )
    }
}

/// The `length` bytes from `position` on repeat those `distance` places before them.
pub open spec fn repeats(input: Seq<u8>, position: int, length: int, distance: int) -> bool {
    &&& 1 <= distance <= position
    &&& position + length <= input.len()
    &&& forall|i: int|
        0 <= i < length ==> #[trigger] input[position + i] == input[position - distance + i]
}

/// A usable match: no match at all, or one of at least three bytes within the window.
pub open spec fn usable(
    input: Seq<u8>,
    position: int,
    found: (int, int),
    limits: SearchLimits,
) -> bool {
    ||| found == (0int, 0int)
    ||| 3 <= found.0 <= limits.length && found.1 <= limits.window && repeats(
        input,
        position,
        found.0,
        found.1,
    )
}

pub proof fn lemma_latest(input: Seq<u8>, upto: int, hash: int)
    ensures
        latest(input, upto, hash) matches Some(p) ==> 0 <= p < upto && hashed(input, p) && hash_at(
            input,
            p,
        ) == hash,
    decreases upto,
{
    if upto > 0 {
        lemma_latest(input, upto - 1, hash);
    }
}

pub proof fn lemma_common_length(input: Seq<u8>, a: int, b: int, n: int, max: int)
    requires
        0 <= n <= max,
    ensures
        n <= common_length(input, a, b, n, max) <= max,
        forall|i: int|
            n <= i < common_length(input, a, b, n, max) ==> #[trigger] input[b + i] == input[a + i],
    decreases max - n,
{
    if n < max && input[a + n] == input[b + n] {
        lemma_common_length(input, a, b, n + 1, max);
    }
}

proof fn lemma_search_usable(
    input: Seq<u8>,
    position: int,
    candidate: Option<int>,
    attempts: nat,
    best: (int, int),
    limits: SearchLimits,
)
    requires
        0 <= position <= input.len(),
        candidate matches Some(c) ==> 0 <= c < position,
        usable(input, position, best, limits),
    ensures
        usable(
            input,
            position,
            search(input, position, candidate, attempts, best, limits),
            limits,
        ),
    decreases attempts,
{
    if let Some(c) = candidate {
        if attempts > 0 && position - c <= limits.window {
            let limit = length_limit(input, position, limits);
            let length = common_length(input, c, position, 0, limit);
            lemma_common_length(input, c, position, 0, limit);
            let better = if length > best.0 && length >= 3 {
                (length, position - c)
            } else {
                best
            };
            assert(usable(input, position, better, limits)) by {
                if better != best {
                    assert forall|i: int| 0 <= i < length implies #[trigger] input[position + i]
                        == input[position - (position - c) + i] by {
                        assert(input[position + i] == input[c + i]);
                    }
                }
            }
            let next = latest(input, c, hash_at(input, c));
            lemma_latest(input, c, hash_at(input, c));
            lemma_search_usable(input, position, next, (attempts - 1) as nat, better, limits);
        }
    }
}

/// Every match that is taken repeats earlier input within the window.
pub proof fn lemma_match_from(input: Seq<u8>, position: int, limits: SearchLimits)
    requires
        0 <= position <= input.len(),
    ensures
        usable(input, position, match_from(input, position, limits), limits),
{
    reveal(match_from);
    if hashed(input, position) {
        let first = latest(input, position, hash_at(input, position));
        lemma_latest(input, position, hash_at(input, position));
        lemma_search_usable(input, position, first, limits.attempts as nat, (0, 0), limits);
    }
}

proof fn lemma_search_limit(
    input: Seq<u8>,
    position: int,
    candidate: Option<int>,
    attempts: nat,
    best: (int, int),
    limits: SearchLimits,
)
    requires
        position <= input.len(),
        best.0 <= length_limit(input, position, limits),
    ensures
        search(input, position, candidate, attempts, best, limits).0 <= length_limit(input, position, limits),
    decreases attempts,
{
    if let Some(c) = candidate {
        if attempts > 0 && position - c <= limits.window {
            let limit = length_limit(input, position, limits);
            let length = common_length(input, c, position, 0, limit);
            lemma_common_length(input, c, position, 0, limit);
            let better = if length > best.0 && length >= 3 {
                (length, position - c)
            } else {
                best
            };
            lemma_search_limit(
                input,
                position,
                latest(input, c, hash_at(input, c)),
                (attempts - 1) as nat,
                better,
                limits,
            );
        }
    }
}

/// A match ends within the input.
pub proof fn lemma_match_limit(input: Seq<u8>, position: int, limits: SearchLimits)
    requires
        position <= input.len(),
    ensures
        position + match_from(input, position, limits).0 <= input.len(),
{
    reveal(match_from);
    if hashed(input, position) {
        lemma_search_limit(
            input,
            position,
            latest(input, position, hash_at(input, position)),
            limits.attempts as nat,
            (0, 0),
            limits,
        );
    }
}

/// Nothing, or a position.
pub open spec fn link(slot: usize) -> Option<int> {
    if slot == usize::MAX {
        None
    } else {
        Some(slot as int)
    }
}

/// The chains hold every position before `upto`.
pub open spec fn chained(input: Seq<u8>, upto: int, head: Seq<usize>, previous: Seq<usize>) -> bool {
    &&& head.len() == 0x10000
    &&& previous.len() == input.len()
    &&& forall|h: int|
        0 <= h < 0x10000 ==> link(#[trigger] head[h]) == latest(input, upto, h)
    &&& forall|p: int|
        0 <= p < upto && hashed(input, p) ==> link(#[trigger] previous[p]) == latest(
            input,
            p,
            hash_at(input, p),
        )
}

fn hash3(input: &[u8], position: usize) -> (hash: Option<usize>)
    requires
        position <= input@.len(),
    ensures
        hash is Some <==> hashed(input@, position as int),
        hash matches Some(h) ==> h == hash_at(input@, position as int) && h < 0x10000,
{
    if input.len() - position < 3 {
        return None;
    }
    let mixed: u32 = ((input[position] as u32) << 10u32) ^ ((input[position + 1] as u32) << 5u32)
        ^ (input[position + 2] as u32);
    let hash: u64 = (mixed as u64 * 0x9e37) % 0x10000;
    Some(hash as usize)
}

/// Empty chains.
pub fn new_chains(length: usize, Ghost(input): Ghost<Seq<u8>>) -> (chains: (
    Vec<usize>,
    Vec<usize>,
))
    requires
        length == input.len(),
    ensures
        chained(input, 0, chains.0@, chains.1@),
{
    let head: Vec<usize> = vec![NONE; 0x10000];
    let previous: Vec<usize> = vec![NONE; length];
    (head, previous)
}

/// Adds `position` to the chains.
pub fn insert_position(
    input: &[u8],
    position: usize,
    head: &mut Vec<usize>,
    previous: &mut Vec<usize>,
)
    requires
        position < input@.len(),
        chained(input@, position as int, old(head)@, old(previous)@),
    ensures
        chained(input@, position + 1, final(head)@, final(previous)@),
{
    let hash: usize = match hash3(input, position) {
        Some(hash) => hash,
        None => {
            assert forall|h: int| 0 <= h < 0x10000 implies link(#[trigger] head@[h]) == latest(
                input@,
                position + 1,
                h,
            ) by {}
            return;
        },
    };
    let size: usize = input.len();
    previous.set(position, head[hash]);
    head.set(hash, position);
    assert(position < size);
    assert forall|h: int| 0 <= h < 0x10000 implies link(#[trigger] head@[h]) == latest(
        input@,
        position + 1,
        h,
    ) by {
        if h != hash {
            assert(head@[h] == old(head)@[h]);
        }
    }
    assert forall|p: int| 0 <= p < position + 1 && hashed(input@, p) implies link(
        #[trigger] previous@[p],
    ) == latest(input@, p, hash_at(input@, p)) by {
        if p < position {
            assert(previous@[p] == old(previous)@[p]);
        }
    }
}

/// How far the bytes from `a` and from `b` agree, at most `max`.
pub fn match_length(input: &[u8], a: usize, b: usize, max: usize) -> (length: usize)
    requires
        a <= b,
        b + max <= input@.len(),
    ensures
        length == common_length(input@, a as int, b as int, 0, max as int),
        length <= max,
{
    let size: usize = input.len();
    let mut length: usize = 0;
    while length < max && input[a + length] == input[b + length]
        invariant
            length <= max,
            a <= b,
            size == input@.len(),
            b + max <= input@.len(),
            common_length(input@, a as int, b as int, 0, max as int) == common_length(
                input@,
                a as int,
                b as int,
                length as int,
                max as int,
            ),
        decreases max - length,
    {
        length += 1;
    }
    length
}

/// The best match at `position`, as length and distance.
pub fn find_match(
    input: &[u8],
    position: usize,
    limits: SearchLimits,
    head: &Vec<usize>,
    previous: &Vec<usize>,
) -> (found: (usize, usize))
    requires
        position < input@.len(),
        chained(input@, position as int, head@, previous@),
    ensures
        (found.0 as int, found.1 as int) == match_from(input@, position as int, limits),
        usable(input@, position as int, (found.0 as int, found.1 as int), limits),
{
    proof {
        reveal(match_from);
        lemma_match_from(input@, position as int, limits);
    }
    let hash: usize = match hash3(input, position) {
        Some(hash) => hash,
        None => return (0, 0),
    };
    let size: usize = input.len();
    let max_length: usize = if size - position < limits.length {
        size - position
    } else {
        limits.length
    };
    let mut candidate: usize = head[hash];
    let mut best_length: usize = 0;
    let mut best_distance: usize = 0;
    let mut attempts: usize = 0;
    proof {
        lemma_latest(input@, position as int, hash as int);
    }
    while candidate != NONE && attempts < limits.attempts
        invariant_except_break
            match_from(input@, position as int, limits) == search(
                input@,
                position as int,
                link(candidate),
                (limits.attempts - attempts) as nat,
                (best_length as int, best_distance as int),
                limits,
            ),
        invariant
            position < size,
            size == input@.len(),
            chained(input@, position as int, head@, previous@),
            candidate != NONE ==> candidate < position && hashed(input@, candidate as int),
            attempts <= limits.attempts,
            max_length == length_limit(input@, position as int, limits),
            best_length <= max_length,
        ensures
            match_from(input@, position as int, limits) == (best_length as int, best_distance as int),
        decreases limits.attempts - attempts,
    {
        let distance: usize = position - candidate;
        if distance > limits.window {
            break;
        }
        let ghost length = common_length(
            input@,
            candidate as int,
            position as int,
            0,
            max_length as int,
        );
        proof {
            lemma_common_length(input@, candidate as int, position as int, 0, max_length as int);
            lemma_latest(
                input@,
                candidate as int,
                hash_at(input@, candidate as int),
            );
            assert(length > best_length ==> input@[position + best_length] == input@[candidate
                + best_length]);
        }
        if best_length < max_length && input[candidate + best_length] == input[position
            + best_length] {
            let found: usize = match_length(input, candidate, position, max_length);
            if found > best_length && found >= 3 {
                best_length = found;
                best_distance = distance;
                if found == max_length || found >= limits.nice {
                    break;
                }
            }
        }
        candidate = previous[candidate];
        attempts += 1;
    }
    (best_length, best_distance)
}

/// The search takes the longest of the matches that it tries, and of equally long ones the
/// nearest: it never ends with less than a candidate that it tries, and with a farther one only
/// if that is longer.
pub proof fn lemma_search_longest(
    input: Seq<u8>,
    position: int,
    candidate: int,
    attempts: nat,
    best: (int, int),
    limits: SearchLimits,
)
    requires
        0 <= candidate < position < input.len(),
        position - candidate <= limits.window,
        0 < attempts,
        0 <= best.0,
    ensures
        ({
            let found = search(input, position, Some(candidate), attempts, best, limits);
            let length = common_length(
                input,
                candidate,
                position,
                0,
                length_limit(input, position, limits),
            );
            &&& found.0 >= best.0
            &&& found.0 == best.0 ==> found == best
            &&& length >= 3 ==> found.0 >= length
            &&& length >= 3 && found.0 == length && length > best.0 ==> found.1 == position
                - candidate
        }),
{
    let limit = length_limit(input, position, limits);
    let length = common_length(input, candidate, position, 0, limit);
    let better = if length > best.0 && length >= 3 {
        (length, position - candidate)
    } else {
        best
    };
    lemma_search_keeps(
        input,
        position,
        latest(input, candidate, hash_at(input, candidate)),
        (attempts - 1) as nat,
        better,
        limits,
    );
}

proof fn lemma_search_keeps(
    input: Seq<u8>,
    position: int,
    candidate: Option<int>,
    attempts: nat,
    best: (int, int),
    limits: SearchLimits,
)
    ensures
        ({
            let found = search(input, position, candidate, attempts, best, limits);
            found == best || found.0 > best.0
        }),
    decreases attempts,
{
    if let Some(c) = candidate {
        if attempts > 0 && position - c <= limits.window {
            let limit = length_limit(input, position, limits);
            let length = common_length(input, c, position, 0, limit);
            let better = if length > best.0 && length >= 3 {
                (length, position - c)
            } else {
                best
            };
            lemma_search_keeps(
                input,
                position,
                latest(input, c, hash_at(input, c)),
                (attempts - 1) as nat,
                better,
                limits,
            );
        }
    }
}

} // verus!
