//! The match finder with the matches that it found last.

use vstd::prelude::*;

use crate::codecs::matchfinder::{common_length, lemma_common_length, match_length, repeats};
use crate::codecs::sdk::matchfinder::{
    matched, passed_by, valid_match, valid_matches, Finder, Match, MatchFinder,
};

verus! {

/// The longest match that can be coded.
pub const MATCH_LEN_MAX: usize = 273;

/// The longest input: distances stay clear of the mark for literals.
pub const INPUT_LIMIT: usize = 0xffff_fff0;

/// The match finder, which may be ahead of the encoder, and its last matches.
pub struct Search<'a> {
    pub finder: MatchFinder<'a>,
    pub matches: Vec<Match>,
    pub num_avail: usize,
    pub longest: usize,
    pub ahead: usize,
}

/// The last matches are those at `position`, and the last of them reaches `longest` bytes far
/// when it is as long as the search goes.
pub open spec fn stored(
    input: Seq<u8>,
    position: int,
    window: int,
    fast: int,
    matches: Seq<Match>,
    longest: int,
) -> bool {
    &&& 0 <= position < input.len()
    &&& valid_matches(input, position, window, fast, matches)
    &&& matches.len() == 0 ==> longest == 0
    &&& matches.len() > 0 ==> {
        &&& matches.last().len <= longest <= 273
        &&& longest == matches.last().len || matches.last().len == fast
        &&& repeats(input, position, longest, matches.last().dist + 1)
    }
}

/// A match finder and its last matches.
#[verifier::ext_equal]
pub struct Seeker {
    pub finder: Finder,
    pub matches: Seq<Match>,
    pub num_avail: usize,
    pub longest: usize,
    pub ahead: usize,
}

impl<'a> View for Search<'a> {
    type V = Seeker;

    open spec fn view(&self) -> Seeker {
        Seeker {
            finder: self.finder@,
            matches: self.matches@,
            num_avail: self.num_avail,
            longest: self.longest,
            ahead: self.ahead,
        }
    }
}

/// How far the longest match reaches: beyond the length at which the search ends, if it is that
/// long.
pub open spec fn longest_reach(f: Finder, matches: Seq<Match>) -> int {
    let cur = f.pos - 1;
    let rest = f.input.len() - cur;
    if matches.len() == 0 {
        0
    } else if matches.last().len != f.max_len {
        matches.last().len as int
    } else {
        common_length(
            f.input,
            cur - matches.last().dist - 1,
            cur,
            0,
            if rest < 273 {
                rest
            } else {
                273
            },
        )
    }
}

/// After the matches at the position of the finder were read.
pub open spec fn after_reading(s: Seeker) -> Seeker {
    let (finder, matches) = matched(s.finder);
    Seeker {
        finder,
        matches,
        num_avail: (s.finder.input.len() - (s.finder.pos - 1)) as usize,
        longest: longest_reach(s.finder, matches) as usize,
        ahead: (s.ahead + 1) as usize,
    }
}

/// After the finder has passed over `n` bytes.
pub open spec fn after_passing(s: Seeker, n: int) -> Seeker {
    Seeker { finder: passed_by(s.finder, n as nat), ahead: (s.ahead + n) as usize, ..s }
}

impl<'a> Search<'a> {
    pub open spec fn sound(&self) -> bool {
        &&& self.finder.wf()
        &&& 2 <= self.finder.match_max_len <= 273
    }

    pub open spec fn input(&self) -> Seq<u8> {
        self.finder.input@
    }

    /// What was found last was found at `position`.
    pub open spec fn stored_at(&self, position: int) -> bool {
        &&& self.num_avail == self.input().len() - position
        &&& stored(
            self.input(),
            position,
            self.finder.window(),
            self.finder.match_max_len as int,
            self.matches@,
            self.longest as int,
        )
    }

    /// The encoder is at `position`; the match finder is too, or one byte ahead.
    pub open spec fn at(&self, position: int) -> bool {
        &&& self.sound()
        &&& self.ahead <= 1
        &&& self.finder.index() == position + self.ahead
        &&& self.ahead == 1 ==> self.stored_at(position)
    }

    /// Reads the matches at the position of the finder.
    pub fn read_match_distances(&mut self)
        requires
            old(self).sound(),
            old(self).finder.index() < old(self).input().len(),
            old(self).ahead < usize::MAX,
        ensures
            final(self).sound(),
            final(self).finder.same_search(&old(self).finder),
            final(self).finder.index() == old(self).finder.index() + 1,
            final(self).ahead == old(self).ahead + 1,
            final(self).stored_at(old(self).finder.index()),
            final(self)@ == after_reading(old(self)@),
    {
        self.ahead = self.ahead + 1;
        self.num_avail = self.finder.num_available() as usize;
        let position: usize = self.finder.pos_index();
        let input: &[u8] = self.finder.input;
        let fast: u32 = self.finder.match_max_len;
        self.finder.get_matches(&mut self.matches);
        let count: usize = self.matches.len();
        if count == 0 {
            self.longest = 0;
            return ;
        }
        let last: Match = self.matches[count - 1];
        assert(valid_match(
            input@,
            position as int,
            self.finder.window(),
            old(self).finder.limit(),
            self.matches@[count - 1],
        ));
        if last.len != fast {
            self.longest = last.len as usize;
            return ;
        }
        let limit: usize = if self.num_avail < MATCH_LEN_MAX {
            self.num_avail
        } else {
            MATCH_LEN_MAX
        };
        let back: usize = position - last.dist as usize - 1;
        let length: usize = match_length(input, back, position, limit);
        proof {
            lemma_common_at_least(
                input@,
                back as int,
                position as int,
                0,
                limit as int,
                last.len as int,
            );
            lemma_common_length(input@, back as int, position as int, 0, limit as int);
            assert forall|i: int| 0 <= i < length implies #[trigger] input@[position + i]
                == input@[position - (last.dist + 1) + i] by {
                assert(input@[position + i] == input@[back + i]);
            }
        }
        self.longest = length;
    }

    /// Moves the finder on by `num` bytes.
    pub fn move_pos(&mut self, num: usize)
        requires
            old(self).sound(),
            old(self).finder.index() + num <= old(self).input().len(),
            old(self).ahead + num <= usize::MAX,
        ensures
            final(self).sound(),
            final(self).finder.same_search(&old(self).finder),
            final(self).finder.index() == old(self).finder.index() + num,
            final(self).ahead == old(self).ahead + num,
            final(self)@ == after_passing(old(self)@, num as int),
    {
        self.ahead = self.ahead + num;
        self.finder.skip(num as u32);
    }
}

/// Bytes that agree are counted.
pub proof fn lemma_common_at_least(
    input: Seq<u8>,
    a: int,
    b: int,
    n: int,
    max: int,
    length: int,
)
    requires
        a <= b,
        0 <= n <= length <= max,
        repeats(input, b, length, b - a),
    ensures
        common_length(input, a, b, n, max) >= length,
    decreases max - n,
{
    if n < length {
        assert(input[b + n] == input[b - (b - a) + n]);
        lemma_common_at_least(input, a, b, n + 1, max, length);
    } else {
        lemma_common_length(input, a, b, n, max);
    }
}

} // verus!
