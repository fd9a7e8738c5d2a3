//! A match finder that keeps the positions of a hash in a binary tree.

use vstd::prelude::*;

use crate::codecs::lzma::options::LzmaProps;
use crate::codecs::matchfinder::{common_length, lemma_common_length, match_length, repeats};

verus! {

/// Where the hashes of three bytes begin.
pub const FIX3_HASH_SIZE: usize = 0x400;

/// Where the hashes of four bytes begin.
pub const FIX4_HASH_SIZE: usize = 0x1_0400;

/// A candidate. The distance is counted from zero.
#[derive(Debug, Clone, Copy, PartialEq, Eq, Structural)]
pub struct Match {
    pub len: u32,
    pub dist: u32,
}

/// Matches at `position`, each longer than the one before it.
pub open spec fn valid_matches(
    input: Seq<u8>,
    position: int,
    window: int,
    limit: int,
    matches: Seq<Match>,
) -> bool {
    &&& forall|i: int| 0 <= i < matches.len() ==> valid_match(
            input,
            position,
            window,
            limit,
            #[trigger] matches[i],
        )
    &&& forall|i: int, j: int|
        0 <= i < j < matches.len() ==> (#[trigger] matches[i]).len < (#[trigger] matches[j]).len
}

pub open spec fn valid_match(
    input: Seq<u8>,
    position: int,
    window: int,
    limit: int,
    found: Match,
) -> bool {
    &&& 2 <= found.len <= limit
    &&& found.dist < window
    &&& repeats(input, position, found.len as int, found.dist + 1)
}

/// The remainder of a byte after `n` bits.
pub open spec fn table_entry(value: u32, n: nat) -> u32
    decreases n,
{
    if n == 0 {
        value
    } else {
        let before = table_entry(value, (n - 1) as nat);
        if before % 2 == 1 {
            (before / 2) ^ 0xedb8_8320
        } else {
            before / 2
        }
    }
}

/// A full table of remainders.
pub open spec fn table_of(crc: Seq<u32>) -> bool {
    &&& crc.len() == 256
    &&& forall|i: int| 0 <= i < 256 ==> #[trigger] crc[i] == table_entry(i as u32, 8)
}

fn new_table() -> (crc: Vec<u32>)
    ensures
        table_of(crc@),
{
    let mut crc: Vec<u32> = Vec::with_capacity(256);
    while crc.len() < 256
        invariant
            crc@.len() <= 256,
            forall|i: int| 0 <= i < crc@.len() ==> #[trigger] crc@[i] == table_entry(i as u32, 8),
        decreases 256 - crc@.len(),
    {
        let start: u32 = crc.len() as u32;
        let mut value: u32 = start;
        let mut n: u32 = 0;
        while n < 8
            invariant
                n <= 8,
                value == table_entry(start, n as nat),
            decreases 8 - n,
        {
            value = if value % 2 == 1 {
                (value / 2) ^ 0xedb8_8320
            } else {
                value / 2
            };
            n += 1;
        }
        crc.push(value);
    }
    crc
}

/// The hash of the four bytes from `position` on.
pub open spec fn hash_at(input: Seq<u8>, position: int, mask: u32) -> u32 {
    let low = table_entry(input[position] as u32, 8) ^ (input[position + 1] as u32);
    let middle = low ^ ((input[position + 2] as u32) << 8u32);
    (middle ^ (table_entry(input[position + 3] as u32, 8) << 5u32)) & mask
}

/// One more than the last position before `upto` with the given hash, or zero.
pub open spec fn last_seen(input: Seq<u8>, upto: int, mask: u32, hash: int) -> int
    decreases upto,
{
    if upto <= 0 {
        0
    } else if upto + 3 <= input.len() && hash_at(input, upto - 1, mask) == hash {
        upto
    } else {
        last_seen(input, upto - 1, mask, hash)
    }
}

/// Which hash table a dictionary gets.
fn get_hash_mask(history_size: u32) -> (mask: u32)
    ensures
        mask == mask_of(history_size),
        0xffff <= mask < 0x8000_0000,
{
    let start: u32 = if history_size == 0 {
        0
    } else {
        history_size - 1
    };
    let a: u32 = start | (start >> 1);
    let b: u32 = a | (a >> 2);
    let c: u32 = b | (b >> 4);
    let d: u32 = c | (c >> 8);
    let e: u32 = d >> 1;
    let f: u32 = if e >= 0x100_0000 {
        e >> 1
    } else {
        e
    };
    let mask: u32 = f | 0xffff;
    proof {
        assert(e < 0x8000_0000) by (bit_vector)
            requires
                e == d >> 1u32,
        ;
        assert(0xffff <= mask && mask < 0x8000_0000) by (bit_vector)
            requires
                mask == f | 0xffffu32,
                e < 0x8000_0000u32,
                f == e >> 1u32 || f == e,
        ;
    }
    mask
}

/// The match finder over an input in memory.
pub struct MatchFinder<'a> {
    pub input: &'a [u8],
    pub pos: u32,
    pub cyclic_buffer_pos: u32,
    pub cyclic_buffer_size: u32,
    pub match_max_len: u32,
    pub cut_value: u32,
    pub hash_mask: u32,
    pub hash: Vec<u32>,
    pub son: Vec<u32>,
    pub crc: Vec<u32>,
}

/// A match finder, as the search sees it.
#[verifier::ext_equal]
pub struct Finder {
    pub input: Seq<u8>,
    pub pos: u32,
    pub place: u32,
    pub size: u32,
    pub max_len: u32,
    pub cut: u32,
    pub mask: u32,
    pub hash: Seq<u32>,
    pub son: Seq<u32>,
}

impl<'a> View for MatchFinder<'a> {
    type V = Finder;

    open spec fn view(&self) -> Finder {
        Finder {
            input: self.input@,
            pos: self.pos,
            place: self.cyclic_buffer_pos,
            size: self.cyclic_buffer_size,
            max_len: self.match_max_len,
            cut: self.cut_value,
            mask: self.hash_mask,
            hash: self.hash@,
            son: self.son@,
        }
    }
}

/// What a walk through a tree leaves: the links, and the matches that it met.
#[verifier::ext_equal]
pub struct Walk {
    pub son: Seq<u32>,
    pub out: Seq<Match>,
}

/// Walks the tree from `candidate` on, at most `left` nodes far. Every node that repeats more
/// than all before it is a match. The nodes are hung below the current position, by whether
/// they are smaller or greater; a node that repeats all that is asked for is replaced.
pub open spec fn walked(
    f: Finder,
    len_limit: int,
    son: Seq<u32>,
    ptr0: int,
    ptr1: int,
    candidate: u32,
    left: nat,
    max_len: int,
    out: Seq<Match>,
) -> Walk
    decreases left,
{
    let least = if f.pos > f.size {
        f.pos - f.size
    } else {
        0
    };
    if left == 0 || candidate <= least {
        Walk { son: son.update(ptr0, 0).update(ptr1, 0), out }
    } else {
        let cur = f.pos - 1;
        let delta = f.pos - candidate;
        let pair = (f.place + f.size - delta) % (f.size as int) * 2;
        let back = cur - delta;
        let length = common_length(f.input, back, cur, 0, len_limit);
        let (best, found) = if max_len < length {
            (length, out.push(Match { len: length as u32, dist: (delta - 1) as u32 }))
        } else {
            (max_len, out)
        };
        if length >= len_limit {
            Walk { son: son.update(ptr1, son[pair]).update(ptr0, son[pair + 1]), out: found }
        } else if f.input[back + length] < f.input[cur + length] {
            let linked = son.update(ptr1, candidate);
            walked(
                f,
                len_limit,
                linked,
                ptr0,
                pair + 1,
                linked[pair + 1],
                (left - 1) as nat,
                best,
                found,
            )
        } else {
            let linked = son.update(ptr0, candidate);
            walked(
                f,
                len_limit,
                linked,
                pair,
                ptr1,
                linked[pair],
                (left - 1) as nat,
                best,
                found,
            )
        }
    }
}

/// Walks the tree of the current position.
pub open spec fn tree_walked(
    f: Finder,
    len_limit: int,
    candidate: u32,
    max_len: int,
    out: Seq<Match>,
) -> Walk {
    walked(
        f,
        len_limit,
        f.son,
        f.place * 2 + 1,
        f.place * 2,
        candidate,
        f.cut as nat,
        max_len,
        out,
    )
}

/// Where the hash of the two bytes from `position` on stands.
pub open spec fn two_at(input: Seq<u8>, position: int) -> int {
    let low = table_entry(input[position] as u32, 8) ^ (input[position + 1] as u32);
    low as int % 0x400
}

/// Where the hash of the three bytes from `position` on stands.
pub open spec fn three_at(input: Seq<u8>, position: int) -> int {
    let low = table_entry(input[position] as u32, 8) ^ (input[position + 1] as u32);
    let middle = low ^ ((input[position + 2] as u32) << 8u32);
    FIX3_HASH_SIZE + middle as int % 0x1_0000
}

/// Where the hash of the four bytes from `position` on stands.
pub open spec fn four_at(input: Seq<u8>, position: int, mask: u32) -> int {
    FIX4_HASH_SIZE + hash_at(input, position, mask)
}

/// How long a match at the next byte may be.
pub open spec fn limit_of(f: Finder) -> int {
    if f.max_len < f.input.len() - (f.pos - 1) {
        f.max_len as int
    } else {
        f.input.len() - (f.pos - 1)
    }
}

/// How far the next bytes repeat what lies at a distance, if it lies within reach.
pub open spec fn reached(f: Finder, distance: int) -> int {
    if distance < f.size && distance < f.pos {
        common_length(f.input, f.pos - 1 - distance, f.pos - 1, 0, limit_of(f))
    } else {
        0
    }
}

/// The short matches: the last positions with the same two and three bytes.
pub open spec fn short_matches(f: Finder) -> Seq<Match> {
    let cur = f.pos - 1;
    let d2 = f.pos - f.hash[two_at(f.input, cur)];
    let d3 = f.pos - f.hash[three_at(f.input, cur)];
    let len2 = reached(f, d2);
    let len3 = if d2 != d3 {
        reached(f, d3)
    } else {
        0
    };
    if len3 >= 3 {
        let longer = Match { len: len3 as u32, dist: (d3 - 1) as u32 };
        if len2 >= 2 {
            seq![Match { len: 2, dist: (d2 - 1) as u32 }, longer]
        } else {
            seq![longer]
        }
    } else if len2 >= 2 {
        seq![Match { len: len2 as u32, dist: (d2 - 1) as u32 }]
    } else {
        Seq::empty()
    }
}

/// The length that further matches have to exceed.
pub open spec fn longest_of(matches: Seq<Match>) -> int {
    if matches.len() > 0 && matches.last().len > 3 {
        matches.last().len as int
    } else {
        3
    }
}

/// The match finder one byte further, with new tables.
pub open spec fn moved_on(f: Finder, hash: Seq<u32>, son: Seq<u32>) -> Finder {
    Finder {
        pos: (f.pos + 1) as u32,
        place: if f.place + 1 == f.size {
            0
        } else {
            (f.place + 1) as u32
        },
        hash,
        son,
        ..f
    }
}

/// The hash table with the current position in it.
pub open spec fn noted_in(f: Finder) -> Seq<u32> {
    let cur = f.pos - 1;
    f.hash.update(two_at(f.input, cur), f.pos).update(three_at(f.input, cur), f.pos).update(
        four_at(f.input, cur, f.mask),
        f.pos,
    )
}

/// The mask of the hash table that a dictionary gets.
pub open spec fn mask_of(history_size: u32) -> u32 {
    let start: u32 = if history_size == 0 {
        0
    } else {
        (history_size - 1) as u32
    };
    let a = start | (start >> 1u32);
    let b = a | (a >> 2u32);
    let c = b | (b >> 4u32);
    let d = c | (c >> 8u32);
    let e = d >> 1u32;
    (if e >= 0x100_0000 {
        e >> 1u32
    } else {
        e
    }) | 0xffff
}

/// The match finder at the start of the input.
pub open spec fn first_finder(input: Seq<u8>, props: LzmaProps) -> Finder {
    let mask = mask_of(props.dict_size);
    Finder {
        input,
        pos: 1,
        place: 1,
        size: (props.dict_size + 1) as u32,
        max_len: props.fb,
        cut: props.mc,
        mask,
        hash: Seq::new((FIX4_HASH_SIZE + mask + 1) as nat, |i: int| 0u32),
        son: Seq::new((2 * (props.dict_size + 1)) as nat, |i: int| 0u32),
    }
}

/// The match finder after it was asked for matches, and the matches.
#[verifier::opaque]
pub open spec fn matched(f: Finder) -> (Finder, Seq<Match>) {
    if limit_of(f) < 4 {
        (moved_on(f, f.hash, f.son), Seq::empty())
    } else {
        let candidate = f.hash[four_at(f.input, f.pos - 1, f.mask)];
        let short = short_matches(f);
        let longest = longest_of(short);
        if longest >= limit_of(f) {
            let walk = tree_walked(f, limit_of(f), candidate, longest, Seq::empty());
            (moved_on(f, noted_in(f), walk.son), short)
        } else {
            let walk = tree_walked(f, limit_of(f), candidate, longest, short);
            (moved_on(f, noted_in(f), walk.son), walk.out)
        }
    }
}

/// The match finder after a byte was passed over.
#[verifier::opaque]
pub open spec fn passed(f: Finder) -> Finder {
    if limit_of(f) < 4 {
        moved_on(f, f.hash, f.son)
    } else {
        let candidate = f.hash[four_at(f.input, f.pos - 1, f.mask)];
        let walk = tree_walked(f, limit_of(f), candidate, limit_of(f), Seq::empty());
        moved_on(f, noted_in(f), walk.son)
    }
}

/// The match finder after several bytes were passed over.
pub open spec fn passed_by(f: Finder, n: nat) -> Finder
    decreases n,
{
    if n == 0 {
        f
    } else {
        passed(passed_by(f, (n - 1) as nat))
    }
}

/// The hashes of the current position.
struct Hashes {
    two: usize,
    three: usize,
    four: usize,
}

/// All links lead back.
pub open spec fn linked(links: Seq<u32>, pos: u32) -> bool {
    forall|i: int| 0 <= i < links.len() ==> #[trigger] links[i] < pos
}

impl<'a> MatchFinder<'a> {
    pub open spec fn wf(&self) -> bool {
        &&& 1 <= self.pos
        &&& self.input@.len() < u32::MAX
        &&& self.pos <= self.input@.len() + 1
        &&& 2 <= self.cyclic_buffer_size
        &&& self.cyclic_buffer_pos < self.cyclic_buffer_size
        &&& 2 * self.cyclic_buffer_size <= usize::MAX
        &&& self.son@.len() == 2 * self.cyclic_buffer_size
        &&& 0xffff <= self.hash_mask < 0x8000_0000
        &&& self.hash@.len() == FIX4_HASH_SIZE + self.hash_mask + 1
        &&& table_of(self.crc@)
        &&& 1 <= self.cut_value
        &&& linked(self.hash@, self.pos)
        &&& linked(self.son@, self.pos)
        &&& self.match_max_len >= 4 ==> forall|h: int|
            0 <= h <= self.hash_mask ==> #[trigger] self.hash@[FIX4_HASH_SIZE + h] == last_seen(
                self.input@,
                self.pos - 1,
                self.hash_mask,
                h,
            )
    }

    /// The data index of the next byte.
    pub open spec fn index(&self) -> int {
        self.pos - 1
    }

    /// How far back a match may reach.
    pub open spec fn window(&self) -> int {
        self.cyclic_buffer_size - 1
    }

    /// How long a match at the next byte may be.
    pub open spec fn limit(&self) -> int {
        if self.match_max_len < self.input@.len() - self.index() {
            self.match_max_len as int
        } else {
            self.input@.len() - self.index()
        }
    }

    /// Nothing but the position and the tables differs.
    pub open spec fn same_search(&self, other: &MatchFinder<'a>) -> bool {
        &&& self.input == other.input
        &&& self.cyclic_buffer_size == other.cyclic_buffer_size
        &&& self.match_max_len == other.match_max_len
        &&& self.cut_value == other.cut_value
        &&& self.hash_mask == other.hash_mask
        &&& self.crc == other.crc
    }

    /// A match finder at the start of the input.
    pub fn new(input: &'a [u8], props: &LzmaProps) -> (finder: Self)
        requires
            input@.len() < u32::MAX,
            1 <= props.dict_size < u32::MAX,
            2 * (props.dict_size + 1) <= usize::MAX,
            props.mc >= 1,
        ensures
            finder.wf(),
            finder.index() == 0,
            finder.input == input,
            finder.window() == props.dict_size,
            finder.match_max_len == props.fb,
            finder@ == first_finder(input@, *props),
    {
        let cyclic_buffer_size: u32 = props.dict_size + 1;
        let hash_mask: u32 = get_hash_mask(props.dict_size);
        let hash: Vec<u32> = vec![0; FIX4_HASH_SIZE + hash_mask as usize + 1];
        let son: Vec<u32> = vec![0; 2 * cyclic_buffer_size as usize];
        let finder = MatchFinder {
            input,
            pos: 1,
            cyclic_buffer_pos: 1,
            cyclic_buffer_size,
            match_max_len: props.fb,
            cut_value: props.mc,
            hash_mask,
            hash,
            son,
            crc: new_table(),
        };
        assert(finder@ =~= first_finder(input@, *props));
        finder
    }

    /// The number of bytes that are left.
    pub fn num_available(&self) -> (count: u32)
        requires
            self.wf(),
        ensures
            count == self.input@.len() - self.index(),
    {
        self.input.len() as u32 - (self.pos - 1)
    }

    /// The data index of the byte that is processed next.
    pub fn pos_index(&self) -> (index: usize)
        requires
            self.wf(),
        ensures
            index == self.index(),
    {
        (self.pos - 1) as usize
    }

    /// How long a match at the next byte may be.
    fn length_limit(&self) -> (limit: u32)
        requires
            self.wf(),
        ensures
            limit == self.limit(),
    {
        let available: u32 = self.num_available();
        if self.match_max_len < available {
            self.match_max_len
        } else {
            available
        }
    }

    fn move_pos(&mut self)
        requires
            old(self).pos < u32::MAX,
            old(self).cyclic_buffer_pos < old(self).cyclic_buffer_size,
        ensures
            final(self).same_search(old(self)),
            final(self).hash == old(self).hash,
            final(self).son == old(self).son,
            final(self).pos == old(self).pos + 1,
            final(self).cyclic_buffer_pos < final(self).cyclic_buffer_size,
            final(self)@ == moved_on(old(self)@, old(self).hash@, old(self).son@),
    {
        self.cyclic_buffer_pos = self.cyclic_buffer_pos + 1;
        if self.cyclic_buffer_pos == self.cyclic_buffer_size {
            self.cyclic_buffer_pos = 0;
        }
        self.pos = self.pos + 1;
    }

    /// The places of the current position in the hash table.
    fn hashes(&self) -> (hashes: Hashes)
        requires
            self.wf(),
            self.index() + 4 <= self.input@.len(),
        ensures
            hashes.two == two_at(self.input@, self.index()),
            hashes.three == three_at(self.input@, self.index()),
            hashes.two < FIX3_HASH_SIZE,
            FIX3_HASH_SIZE <= hashes.three < FIX4_HASH_SIZE,
            hashes.four == FIX4_HASH_SIZE + hash_at(self.input@, self.index(), self.hash_mask),
            hashes.four < self.hash@.len(),
    {
        let cur: usize = (self.pos - 1) as usize;
        let low: u32 = self.crc[self.input[cur] as usize] ^ (self.input[cur + 1] as u32);
        let middle: u32 = low ^ ((self.input[cur + 2] as u32) << 8u32);
        let high: u32 = middle ^ (self.crc[self.input[cur + 3] as usize] << 5u32);
        let mask: u32 = self.hash_mask;
        let four: u32 = high & mask;
        assert(four <= mask) by (bit_vector)
            requires
                four == high & mask,
        ;
        Hashes {
            two: (low % 0x400) as usize,
            three: FIX3_HASH_SIZE + (middle % 0x1_0000) as usize,
            four: FIX4_HASH_SIZE + four as usize,
        }
    }

    /// Enters the current position into the hash table.
    fn enter(&mut self, hashes: &Hashes)
        requires
            old(self).wf(),
            old(self).index() + 4 <= old(self).input@.len(),
            hashes.two < FIX3_HASH_SIZE,
            FIX3_HASH_SIZE <= hashes.three < FIX4_HASH_SIZE,
            hashes.two == two_at(old(self).input@, old(self).index()),
            hashes.three == three_at(old(self).input@, old(self).index()),
            hashes.four == FIX4_HASH_SIZE + hash_at(
                old(self).input@,
                old(self).index(),
                old(self).hash_mask,
            ),
            hashes.four < old(self).hash@.len(),
        ensures
            final(self).same_search(old(self)),
            final(self).pos == old(self).pos,
            final(self).cyclic_buffer_pos == old(self).cyclic_buffer_pos,
            final(self).son == old(self).son,
            final(self).hash@.len() == old(self).hash@.len(),
            final(self).hash@ == noted_in(old(self)@),
            linked(final(self).hash@, (old(self).pos + 1) as u32),
            old(self).match_max_len >= 4 ==> forall|h: int|
                0 <= h <= old(self).hash_mask ==> #[trigger] final(self).hash@[FIX4_HASH_SIZE + h]
                    == last_seen(
                    old(self).input@,
                    old(self).pos as int,
                    old(self).hash_mask,
                    h,
                ),
    {
        let pos: u32 = self.pos;
        self.hash.set(hashes.two, pos);
        self.hash.set(hashes.three, pos);
        self.hash.set(hashes.four, pos);
        proof {
            if self.match_max_len >= 4 {
                assert forall|h: int|
                    0 <= h <= old(
                        self,
                    ).hash_mask implies #[trigger] self.hash@[FIX4_HASH_SIZE + h] == last_seen(
                    old(self).input@,
                    pos as int,
                    old(self).hash_mask,
                    h,
                ) by {
                    assert(old(self).hash@[FIX4_HASH_SIZE + h] == last_seen(
                        old(self).input@,
                        pos - 1,
                        old(self).hash_mask,
                        h,
                    ));
                }
            }
        }
    }

    /// Moves over a position that is too close to the end to have matches.
    fn pass(&mut self)
        requires
            old(self).wf(),
            old(self).index() < old(self).input@.len(),
            old(self).limit() < 4,
        ensures
            final(self).wf(),
            final(self).same_search(old(self)),
            final(self).index() == old(self).index() + 1,
            final(self)@ == moved_on(old(self)@, old(self).hash@, old(self).son@),
    {
        self.move_pos();
        proof {
            if self.match_max_len >= 4 {
                assert forall|h: int|
                    0 <= h <= self.hash_mask implies #[trigger] self.hash@[FIX4_HASH_SIZE + h]
                    == last_seen(self.input@, self.pos - 1, self.hash_mask, h) by {
                    assert(old(self).hash@[FIX4_HASH_SIZE + h] == last_seen(
                        self.input@,
                        old(self).pos - 1,
                        self.hash_mask,
                        h,
                    ));
                }
            }
        }
    }

    /// Walks the tree from `start` on, collects what is longer than `longest`, and makes the
    /// current position the root.
    #[verifier::rlimit(40)]
    fn search_tree(
        &mut self,
        len_limit: usize,
        start: u32,
        longest: usize,
        out: &mut Vec<Match>,
    )
        requires
            4 <= len_limit,
            1 <= old(self).pos,
            old(self).input@.len() < u32::MAX,
            old(self).index() + len_limit <= old(self).input@.len(),
            start < old(self).pos,
            2 <= old(self).cyclic_buffer_size,
            old(self).cyclic_buffer_pos < old(self).cyclic_buffer_size,
            2 * old(self).cyclic_buffer_size <= usize::MAX,
            old(self).son@.len() == 2 * old(self).cyclic_buffer_size,
            linked(old(self).son@, old(self).pos),
            1 <= old(self).cut_value,
            3 <= longest,
            valid_matches(
                old(self).input@,
                old(self).index(),
                old(self).window(),
                len_limit as int,
                old(out)@,
            ),
            forall|i: int| 0 <= i < old(out)@.len() ==> (#[trigger] old(out)@[i]).len <= longest,
        ensures
            final(self).same_search(old(self)),
            final(self).pos == old(self).pos,
            final(self).cyclic_buffer_pos == old(self).cyclic_buffer_pos,
            final(self).hash == old(self).hash,
            final(self).son@.len() == old(self).son@.len(),
            linked(final(self).son@, old(self).pos),
            (Walk { son: final(self).son@, out: final(out)@ }) == tree_walked(
                old(self)@,
                len_limit as int,
                start,
                longest as int,
                old(out)@,
            ),
            valid_matches(
                old(self).input@,
                old(self).index(),
                old(self).window(),
                len_limit as int,
                final(out)@,
            ),
            old(out)@.len() <= final(out)@.len(),
            final(out)@.take(old(out)@.len() as int) == old(out)@,
            start > 0 && start + old(self).window() >= old(self).pos && common_length(
                old(self).input@,
                start - 1,
                old(self).index(),
                0,
                len_limit as int,
            ) > longest ==> final(out)@.len() > 0 && final(out)@.last().len >= common_length(
                old(self).input@,
                start - 1,
                old(self).index(),
                0,
                len_limit as int,
            ),
    {
        let pos: u32 = self.pos;
        let cur: usize = (pos - 1) as usize;
        let size: u32 = self.cyclic_buffer_size;
        let mut ptr0: usize = self.cyclic_buffer_pos as usize * 2 + 1;
        let mut ptr1: usize = self.cyclic_buffer_pos as usize * 2;
        let least: u32 = if pos > size {
            pos - size
        } else {
            0
        };
        let mut candidate: u32 = start;
        let mut left: u32 = self.cut_value;
        let mut max_len: usize = longest;
        let input: &[u8] = self.input;
        let ghost f = self@;
        let ghost whole = tree_walked(f, len_limit as int, start, longest as int, out@);
        let ghost given = out@;
        let ghost owed = if start > 0 && start + size - 1 >= pos {
            common_length(input@, start - 1, cur as int, 0, len_limit as int)
        } else {
            0
        };
        while left > 0 && least < candidate
            invariant
                f == old(self)@,
                whole == tree_walked(f, len_limit as int, start, longest as int, old(out)@),
                whole == walked(
                    f,
                    len_limit as int,
                    self.son@,
                    ptr0 as int,
                    ptr1 as int,
                    candidate,
                    left as nat,
                    max_len as int,
                    out@,
                ),
                self.same_search(old(self)),
                self.pos == old(self).pos,
                self.cyclic_buffer_pos == old(self).cyclic_buffer_pos,
                self.hash == old(self).hash,
                input == old(self).input,
                input@.len() < u32::MAX,
                pos == old(self).pos,
                pos >= 1,
                cur == pos - 1,
                size == old(self).cyclic_buffer_size,
                2 <= size,
                2 * size <= usize::MAX,
                self.cyclic_buffer_pos < size,
                self.son@.len() == 2 * size,
                old(self).son@.len() == 2 * size,
                given == old(out)@,
                linked(self.son@, pos),
                ptr0 < 2 * size,
                ptr1 < 2 * size,
                least == (if pos > size {
                    pos - size
                } else {
                    0
                }),
                candidate < pos,
                4 <= len_limit,
                cur + len_limit <= input@.len(),
                longest <= max_len,
                3 <= max_len,
                valid_matches(input@, cur as int, size - 1, len_limit as int, out@),
                forall|i: int| 0 <= i < out@.len() ==> (#[trigger] out@[i]).len <= max_len,
                given.len() <= out@.len(),
                out@.take(given.len() as int) == given,
                owed == (if start > 0 && start + size - 1 >= pos {
                    common_length(input@, start - 1, cur as int, 0, len_limit as int)
                } else {
                    0
                }),
                max_len > longest ==> out@.len() > 0 && out@.last().len == max_len,
                owed <= max_len || (candidate == start && left == self.cut_value),
                self.cut_value >= 1,
            ensures
                owed <= max_len,
                left == 0 || candidate <= least,
            decreases left,
        {
            let delta: u32 = pos - candidate;
            let place: u64 = (self.cyclic_buffer_pos as u64 + size as u64 - delta as u64)
                % size as u64;
            let pair: usize = place as usize * 2;
            let back: usize = cur - delta as usize;
            let length: usize = match_length(input, back, cur, len_limit);
            proof {
                lemma_common_length(input@, back as int, cur as int, 0, len_limit as int);
            }
            if max_len < length {
                max_len = length;
                let ghost before = out@;
                let found = Match { len: length as u32, dist: delta - 1 };
                out.push(found);
                proof {
                    assert(repeats(input@, cur as int, length as int, delta as int)) by {
                        assert forall|i: int| 0 <= i < length implies #[trigger] input@[cur + i]
                            == input@[cur - delta + i] by {
                            assert(input@[cur + i] == input@[back + i]);
                        }
                    }
                    assert(out@.take(given.len() as int) =~= given);
                    assert forall|i: int| 0 <= i < out@.len() implies valid_match(
                        input@,
                        cur as int,
                        size - 1,
                        len_limit as int,
                        #[trigger] out@[i],
                    ) by {
                        if i < before.len() {
                            assert(out@[i] == before[i]);
                        }
                    }
                }
            }
            if length >= len_limit {
                let smaller: u32 = self.son[pair];
                let greater: u32 = self.son[pair + 1];
                self.son.set(ptr1, smaller);
                self.son.set(ptr0, greater);
                return ;
            }
            if input[back + length] < input[cur + length] {
                self.son.set(ptr1, candidate);
                ptr1 = pair + 1;
                candidate = self.son[pair + 1];
            } else {
                self.son.set(ptr0, candidate);
                ptr0 = pair;
                candidate = self.son[pair];
            }
            left -= 1;
        }
        self.son.set(ptr0, 0);
        self.son.set(ptr1, 0);
    }

    /// Finds matches at the current position, which replace what `out` holds, and moves on by
    /// a byte. The last position with the same hash is always tried.
    #[verifier::rlimit(40)]
    pub fn get_matches(&mut self, out: &mut Vec<Match>)
        requires
            old(self).wf(),
            old(self).index() < old(self).input@.len(),
        ensures
            final(self).wf(),
            final(self).same_search(old(self)),
            final(self).index() == old(self).index() + 1,
            (final(self)@, final(out)@) == matched(old(self)@),
            valid_matches(
                old(self).input@,
                old(self).index(),
                old(self).window(),
                old(self).limit(),
                final(out)@,
            ),
            old(self).limit() < 4 ==> final(out)@.len() == 0,
            old(self).limit() >= 4 ==> ({
                let seen = last_seen(
                    old(self).input@,
                    old(self).index(),
                    old(self).hash_mask,
                    hash_at(old(self).input@, old(self).index(), old(self).hash_mask) as int,
                );
                let owed = common_length(
                    old(self).input@,
                    seen - 1,
                    old(self).index(),
                    0,
                    old(self).limit(),
                );
                seen > 0 && seen + old(self).window() >= old(self).pos && owed > 3
                    ==> final(out)@.len() > 0 && final(out)@.last().len >= owed
            }),
    {
        proof {
            reveal(matched);
        }
        out.clear();
        let len_limit: usize = self.length_limit() as usize;
        if len_limit < 4 {
            self.pass();
            return ;
        }
        let pos: u32 = self.pos;
        let cur: usize = (pos - 1) as usize;
        let hashes = self.hashes();
        let d2: u32 = pos - self.hash[hashes.two];
        let d3: u32 = pos - self.hash[hashes.three];
        let candidate: u32 = self.hash[hashes.four];
        let reach: u32 = if self.cyclic_buffer_size < pos {
            self.cyclic_buffer_size
        } else {
            pos
        };
        let input: &[u8] = self.input;
        let mut len2: usize = 0;
        let mut len3: usize = 0;
        if d2 < reach {
            len2 = match_length(input, cur - d2 as usize, cur, len_limit);
            proof {
                lemma_short_match(input@, cur as int, d2 as int, len_limit as int);
            }
        }
        if d2 != d3 && d3 < reach {
            len3 = match_length(input, cur - d3 as usize, cur, len_limit);
            proof {
                lemma_short_match(input@, cur as int, d3 as int, len_limit as int);
            }
        }
        let mut max_len: usize = 3;
        if len3 >= 3 {
            if len2 >= 2 {
                out.push(Match { len: 2, dist: d2 - 1 });
            }
            out.push(Match { len: len3 as u32, dist: d3 - 1 });
            max_len = len3;
        } else if len2 >= 2 {
            out.push(Match { len: len2 as u32, dist: d2 - 1 });
            if len2 > 3 {
                max_len = len2;
            }
        }
        let ghost found = out@;
        proof {
            assert(found =~= short_matches(old(self)@));
        }
        if max_len >= len_limit {
            let mut rest: Vec<Match> = Vec::new();
            self.search_tree(len_limit, candidate, max_len, &mut rest);
        } else {
            self.search_tree(len_limit, candidate, max_len, out);
        }
        let ghost searched = self@;
        self.enter(&hashes);
        self.move_pos();
        proof {
            assert(noted_in(searched) =~= noted_in(old(self)@));
        }
        proof {
            let seen = candidate as int;
            lemma_common_length(input@, seen - 1, cur as int, 0, len_limit as int);
            if found.len() > 0 && max_len > 3 {
                assert(found.last().len == max_len);
                if out@.len() > found.len() {
                    assert(out@[found.len() - 1] == out@.take(found.len() as int)[found.len()
                        - 1]);
                    assert(out@[found.len() - 1].len < out@.last().len);
                }
            }
        }
    }

    /// Moves on by `num` bytes without collecting matches.
    #[verifier::rlimit(40)]
    pub fn skip(&mut self, num: u32)
        requires
            old(self).wf(),
            old(self).index() + num <= old(self).input@.len(),
        ensures
            final(self).wf(),
            final(self).same_search(old(self)),
            final(self).index() == old(self).index() + num,
            final(self)@ == passed_by(old(self)@, num as nat),
    {
        let mut done: u32 = 0;
        while done < num
            invariant
                done <= num,
                self.wf(),
                self.same_search(old(self)),
                self.index() == old(self).index() + done,
                old(self).index() + num <= old(self).input@.len(),
                self@ == passed_by(old(self)@, done as nat),
            decreases num - done,
        {
            let ghost before = self@;
            proof {
                reveal(passed);
            }
            let len_limit: usize = self.length_limit() as usize;
            if len_limit < 4 {
                self.pass();
            } else {
                let hashes = self.hashes();
                let candidate: u32 = self.hash[hashes.four];
                let mut rest: Vec<Match> = Vec::new();
                assert(rest@ =~= Seq::empty());
                self.search_tree(len_limit, candidate, len_limit, &mut rest);
                let ghost searched = self@;
                self.enter(&hashes);
                self.move_pos();
                assert(noted_in(searched) =~= noted_in(before));
            }
            done += 1;
            assert(self@ == passed(before));
        }
    }
}

/// The links that a walk leaves do not depend on the matches that it is asked for.
proof fn lemma_walk_links(
    f: Finder,
    len_limit: int,
    son: Seq<u32>,
    ptr0: int,
    ptr1: int,
    candidate: u32,
    left: nat,
    max_len: int,
    out: Seq<Match>,
    other_len: int,
    other_out: Seq<Match>,
)
    ensures
        walked(f, len_limit, son, ptr0, ptr1, candidate, left, max_len, out).son == walked(
            f,
            len_limit,
            son,
            ptr0,
            ptr1,
            candidate,
            left,
            other_len,
            other_out,
        ).son,
    decreases left,
{
    let least = if f.pos > f.size {
        f.pos - f.size
    } else {
        0
    };
    if left > 0 && candidate > least {
        let cur = f.pos - 1;
        let delta = f.pos - candidate;
        let pair = (f.place + f.size - delta) % (f.size as int) * 2;
        let back = cur - delta;
        let length = common_length(f.input, back, cur, 0, len_limit);
        let found = Match { len: length as u32, dist: (delta - 1) as u32 };
        let (best, more) = if max_len < length {
            (length, out.push(found))
        } else {
            (max_len, out)
        };
        let (other_best, other_more) = if other_len < length {
            (length, other_out.push(found))
        } else {
            (other_len, other_out)
        };
        if length < len_limit {
            let less = f.input[back + length] < f.input[cur + length];
            let linked = if less {
                son.update(ptr1, candidate)
            } else {
                son.update(ptr0, candidate)
            };
            lemma_walk_links(
                f,
                len_limit,
                linked,
                if less {
                    ptr0
                } else {
                    pair
                },
                if less {
                    pair + 1
                } else {
                    ptr1
                },
                linked[if less {
                    pair + 1
                } else {
                    pair
                }],
                (left - 1) as nat,
                best,
                more,
                other_best,
                other_more,
            );
        }
    }
}

/// Passing over a byte leaves the match finder as asking for its matches does.
pub proof fn lemma_skip_like_matches(f: Finder)
    ensures
        passed_by(f, 1) == matched(f).0,
{
    reveal(matched);
    reveal(passed);
    reveal_with_fuel(passed_by, 2);
    if limit_of(f) >= 4 {
        let candidate = f.hash[four_at(f.input, f.pos - 1, f.mask)];
        let short = short_matches(f);
        let longest = longest_of(short);
        lemma_walk_links(
            f,
            limit_of(f),
            f.son,
            f.place * 2 + 1,
            f.place * 2,
            candidate,
            f.cut as nat,
            limit_of(f),
            Seq::empty(),
            longest,
            if longest >= limit_of(f) {
                Seq::empty()
            } else {
                short
            },
        );
    }
}

proof fn lemma_short_match(input: Seq<u8>, position: int, distance: int, limit: int)
    requires
        1 <= distance <= position,
        0 <= limit,
        position + limit <= input.len(),
    ensures
        ({
            let length = common_length(input, position - distance, position, 0, limit);
            &&& 0 <= length <= limit
            &&& forall|n: int|
                0 <= n <= length ==> #[trigger] repeats(input, position, n, distance)
        }),
{
    let length = common_length(input, position - distance, position, 0, limit);
    lemma_common_length(input, position - distance, position, 0, limit);
    assert forall|n: int| 0 <= n <= length implies #[trigger] repeats(
        input,
        position,
        n,
        distance,
    ) by {
        assert forall|i: int| 0 <= i < n implies #[trigger] input[position + i] == input[position
            - distance + i] by {
            assert(input[position + i] == input[(position - distance) + i]);
        }
    }
}

} // verus!
