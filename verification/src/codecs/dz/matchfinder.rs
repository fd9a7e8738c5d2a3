//! The parser that cuts input into literals and local matches.

use std::collections::BTreeSet;

use vstd::arithmetic::power2::pow2;
use vstd::prelude::*;

use crate::codecs::dz::coder::Model;
use crate::codecs::dz::frequencies::{costs_of, digits_cost, DzFixedCosts, DYNAMIC_CODE};
use crate::codecs::dz::model::offsets_of;
use crate::codecs::dz::range::{bit_length, bit_length_u64, AdaptiveModel};
use crate::codecs::dz::stream::{distance_code, MAX_MATCH, MIN_MATCH};
use crate::codecs::matchfinder::{
    chained, common_length, find_match, insert_position, lemma_common_length, match_from,
    match_length, new_chains, repeats, SearchLimits,
};
use crate::math::power_of_two;

verus! {

/// What the parser decided.
#[derive(Debug, Clone, Copy, PartialEq, Eq, Structural)]
pub enum LzDecision {
    Literal { position: usize },
    Match { length: usize, distance: usize },
}

/// How matches are compared with literals.
pub enum MatchScoring<'a> {
    /// By the size of the numbers alone.
    Heuristic,
    /// By known costs.
    Fixed { costs: &'a DzFixedCosts, dynamic_offsets: &'a Vec<Vec<AdaptiveModel>> },
}

/// What a match is judged by.
pub struct MatchCost<'a> {
    pub scoring: MatchScoring<'a>,
    pub recent_offsets: &'a [usize; 4],
    /// The size of the distance alphabets.
    pub bits: u8,
    /// The number of distance contexts.
    pub contexts: usize,
}

/// How far back matches may reach: two to the power of the setting, as far as that fits.
pub open spec fn window_of(win_size: u8) -> usize {
    if win_size < 63 && pow2(win_size as nat) <= usize::MAX {
        pow2(win_size as nat) as usize
    } else {
        usize::MAX
    }
}

/// How far back matches may reach.
pub fn window_size(win_size: u8) -> (window: usize)
    ensures
        window == window_of(win_size),
        1 <= window,
{
    proof {
        vstd::arithmetic::power2::lemma2_to64();
    }
    if win_size < 63 {
        let window: u64 = power_of_two(win_size as usize);
        proof {
            vstd::arithmetic::power2::lemma_pow2_pos(win_size as nat);
        }
        if window <= usize::MAX as u64 {
            return window as usize;
        }
    }
    usize::MAX
}

/// The code of a distance.
pub fn code_of_distance(distance: usize, recent: &[usize; 4]) -> (code: usize)
    requires
        distance + 3 <= usize::MAX,
    ensures
        code == distance_code(distance, recent@),
{
    if recent[0] == distance {
        0
    } else if recent[1] == distance {
        1
    } else if recent[2] == distance {
        2
    } else if recent[3] == distance {
        3
    } else {
        distance + 3
    }
}

/// What the literals of the first `n` bytes from `position` on cost.
pub open spec fn literals_cost(top: Seq<i32>, input: Seq<u8>, position: int, n: nat) -> int
    decreases n,
{
    if n == 0 {
        0
    } else {
        let byte = input[position + n - 1] as int;
        literals_cost(top, input, position, (n - 1) as nat) + (if byte < top.len() {
            top[byte] as int
        } else {
            0
        })
    }
}

/// Known costs, and the models of the distances as they are now.
#[verifier::ext_equal]
pub struct Known {
    pub top: Seq<i32>,
    pub offsets: Seq<Seq<Seq<i32>>>,
    pub models: Seq<Seq<Model>>,
}

/// What a match is judged by.
#[verifier::ext_equal]
pub struct Judge {
    pub known: Option<Known>,
    pub recent: Seq<usize>,
    pub bits: u8,
    pub contexts: int,
}

/// The costs of all contexts.
pub open spec fn contexts_of(offsets: Seq<Vec<Vec<i32>>>) -> Seq<Seq<Seq<i32>>> {
    Seq::new(offsets.len(), |c: int| costs_of(offsets[c]@))
}

/// What symbols cost.
#[verifier::ext_equal]
pub struct Costs {
    pub top: Seq<i32>,
    pub offsets: Seq<Seq<Seq<i32>>>,
}

/// What symbols cost by the given table.
pub open spec fn costs_in(costs: DzFixedCosts) -> Costs {
    Costs { top: costs.top@, offsets: contexts_of(costs.offsets@) }
}

impl<'a> MatchCost<'a> {
    pub open spec fn judge(self) -> Judge {
        Judge {
            known: match self.scoring {
                MatchScoring::Heuristic => None,
                MatchScoring::Fixed { costs, dynamic_offsets } => Some(
                    Known {
                        top: costs.top@,
                        offsets: contexts_of(costs.offsets@),
                        models: offsets_of(dynamic_offsets@),
                    },
                ),
            },
            recent: self.recent_offsets@,
            bits: self.bits,
            contexts: self.contexts as int,
        }
    }
}

/// How many bits a match saves, about.
pub open spec fn gain_of(
    input: Seq<u8>,
    position: int,
    length: int,
    distance: usize,
    judge: Judge,
) -> int {
    let code = distance_code(distance, judge.recent);
    match judge.known {
        None => 8 * length - 12 - bit_length(code as nat),
        Some(known) => {
            if judge.bits < 2 || judge.bits > 15 || judge.contexts == 0 || length + 254
                >= known.top.len() {
                -1
            } else {
                let context = if length - MIN_MATCH < judge.contexts - 1 {
                    length - MIN_MATCH
                } else {
                    judge.contexts - 1
                };
                match digits_cost(
                    code >= DYNAMIC_CODE,
                    if context < known.models.len() {
                        known.models[context]
                    } else {
                        seq![]
                    },
                    if context < known.offsets.len() {
                        known.offsets[context]
                    } else {
                        seq![]
                    },
                    judge.bits,
                    0,
                    code,
                    0,
                ) {
                    Ok(offset_cost) => literals_cost(known.top, input, position, length as nat)
                        - known.top[length + 254] - offset_cost,
                    Err(_) => -1,
                }
            }
        },
    }
}

/// A match with what it saves.
pub struct Offer {
    pub length: int,
    pub distance: usize,
    pub gain: int,
}

/// Where matches may lie: the end of the input that is looked at, the largest distance, whether
/// the first byte may be a source, and the keys of positions that are not looked ahead to.
#[verifier::ext_equal]
pub struct Reach {
    pub bound: int,
    pub distance: int,
    pub first: bool,
    pub stale: Set<u32>,
}

/// The key of a position: the three bytes there, if there are three.
pub open spec fn key_at(input: Seq<u8>, position: int) -> Option<u32> {
    if position + 3 <= input.len() {
        Some(
            (input[position] + 0x100 * input[position + 1] + 0x1_0000 * input[position
                + 2]) as u32,
        )
    } else {
        None
    }
}

/// The key of the position is among the given ones.
pub open spec fn stale_at(input: Seq<u8>, position: int, stale: Set<u32>) -> bool {
    key_at(input, position) matches Some(key) && stale.contains(key)
}

/// The keys together with those of the positions from `position` on before `end`.
pub open spec fn keys_with(input: Seq<u8>, position: int, end: int, keys: Set<u32>) -> Set<u32>
    decreases end - position,
{
    if position >= end {
        keys
    } else {
        keys_with(
            input,
            position + 1,
            end,
            match key_at(input, position) {
                Some(key) => keys.insert(key),
                None => keys,
            },
        )
    }
}

/// The key of a position: the three bytes there, if there are three.
pub fn local_match_key(input: &[u8], position: usize) -> (key: Option<u32>)
    requires
        position <= input@.len(),
    ensures
        key == key_at(input@, position as int),
{
    if input.len() - position < 3 {
        return None;
    }
    Some(
        input[position] as u32 + 0x100 * input[position + 1] as u32 + 0x1_0000 * input[position
            + 2] as u32,
    )
}

/// The better of an offer and the match at the given distance.
pub open spec fn better_offer(
    input: Seq<u8>,
    position: int,
    reach: Reach,
    distance: usize,
    found: Option<Offer>,
    judge: Judge,
) -> Option<Offer> {
    if distance == 0 || distance > position || distance > reach.distance || (distance == position
        && !reach.first) {
        found
    } else {
        let max = if reach.bound - position < MAX_MATCH {
            reach.bound - position
        } else {
            MAX_MATCH as int
        };
        let length = common_length(input, position - distance, position, 0, max);
        let gain = gain_of(input, position, length, distance, judge);
        if length < MIN_MATCH || (found is Some && found->Some_0.gain >= gain) {
            found
        } else {
            Some(Offer { length, distance, gain })
        }
    }
}

/// The match at a position that saves most, if any saves something: the first of the longest
/// earlier match, the recent distances and the byte before.
pub open spec fn best_offer(input: Seq<u8>, position: int, reach: Reach, judge: Judge) -> Option<
    Offer,
> {
    if judge.bits < 2 || reach.distance == 0 {
        None
    } else {
        let limits = SearchLimits {
            length: MAX_MATCH,
            window: reach.distance as usize,
            attempts: 16,
            nice: 128,
        };
        let (length, distance) = match_from(input, position, limits);
        let recent = judge.recent;
        let f0 = if length >= 3 {
            better_offer(input, position, reach, distance as usize, None, judge)
        } else {
            None
        };
        let f1 = better_offer(input, position, reach, recent[0], f0, judge);
        let f2 = better_offer(input, position, reach, recent[1], f1, judge);
        let f3 = better_offer(input, position, reach, recent[2], f2, judge);
        let f4 = better_offer(input, position, reach, recent[3], f3, judge);
        let f5 = better_offer(input, position, reach, 1, f4, judge);
        if f5 is Some && f5->Some_0.gain > 0 {
            f5
        } else {
            None
        }
    }
}

/// What is decided at a position: the best match there, unless there is none or the best match
/// one byte later saves more than eight bits more. A position with a stale key is not looked
/// ahead to.
pub open spec fn decided(input: Seq<u8>, position: int, reach: Reach, judge: Judge) -> Option<
    LzDecision,
> {
    if position >= reach.bound {
        None
    } else {
        match best_offer(input, position, reach, judge) {
            None => Some(LzDecision::Literal { position: position as usize }),
            Some(found) => {
                let later = best_offer(input, position + 1, reach, judge);
                if position + 1 < reach.bound && !stale_at(input, position + 1, reach.stale)
                    && later is Some && later->Some_0.gain - 8 > found.gain {
                    Some(LzDecision::Literal { position: position as usize })
                } else {
                    Some(
                        LzDecision::Match {
                            length: found.length as usize,
                            distance: found.distance,
                        },
                    )
                }
            },
        }
    }
}

/// An offer as it is worked with.
pub open spec fn offered(found: Option<(usize, usize, i64)>) -> Option<Offer> {
    match found {
        None => None,
        Some((length, distance, gain)) => Some(
            Offer { length: length as int, distance, gain: gain as int },
        ),
    }
}

/// The largest distance in a window.
pub open spec fn reach_of(window: usize) -> int {
    if window == 0 {
        0
    } else if window > usize::MAX - 3 {
        usize::MAX - 3
    } else {
        window - 1
    }
}

/// A parser that looks one position ahead before it takes a match.
pub struct LazyLzParser<'a> {
    position: usize,
    inserted: usize,
    head: Vec<usize>,
    previous: Vec<usize>,
    /// The largest distance.
    reach: usize,
    /// Matches may begin at the first byte.
    allow_position_zero: bool,
    /// The keys of positions that are not looked ahead to.
    stale: Option<&'a BTreeSet<u32>>,
}

/// The keys in a set, if there is one.
pub open spec fn keys_in(keys: Option<&BTreeSet<u32>>) -> Set<u32> {
    match keys {
        Some(keys) => keys@,
        None => Set::empty(),
    }
}

impl<'a> LazyLzParser<'a> {
    /// The position that is decided next.
    pub closed spec fn place(&self) -> int {
        self.position as int
    }

    /// Where matches may lie in the input before `bound`.
    pub closed spec fn reach(&self, bound: int) -> Reach {
        Reach {
            bound,
            distance: self.reach as int,
            first: self.allow_position_zero,
            stale: keys_in(self.stale),
        }
    }

    /// The parser has taken in the input before its position.
    pub closed spec fn follows(&self, input: Seq<u8>) -> bool {
        &&& self.inserted <= self.position <= input.len()
        &&& chained(input, self.inserted as int, self.head@, self.previous@)
        &&& self.reach + 3 <= usize::MAX
    }

    /// A parser for a chunk.
    pub fn new(window: usize, input: &[u8]) -> (parser: LazyLzParser<'a>)
        ensures
            parser.follows(input@),
            parser.place() == 0,
            forall|bound: int| #[trigger]
                parser.reach(bound) == (Reach {
                    bound,
                    distance: reach_of(window),
                    first: false,
                    stale: Set::empty(),
                }),
    {
        LazyLzParser::with_source(window, false, None, input)
    }

    /// A parser whose matches may begin at the first byte.
    pub fn new_common(window: usize, input: &[u8]) -> (parser: LazyLzParser<'a>)
        ensures
            parser.follows(input@),
            parser.place() == 0,
            forall|bound: int| #[trigger]
                parser.reach(bound) == (Reach {
                    bound,
                    distance: reach_of(window),
                    first: true,
                    stale: Set::empty(),
                }),
    {
        LazyLzParser::with_source(window, true, None, input)
    }

    /// A parser that does not look ahead to positions with the given keys.
    pub fn new_with_stale_keys(
        window: usize,
        allow_position_zero: bool,
        stale_keys: &'a BTreeSet<u32>,
        input: &[u8],
    ) -> (parser: LazyLzParser<'a>)
        ensures
            parser.follows(input@),
            parser.place() == 0,
            forall|bound: int| #[trigger]
                parser.reach(bound) == (Reach {
                    bound,
                    distance: reach_of(window),
                    first: allow_position_zero,
                    stale: stale_keys@,
                }),
    {
        LazyLzParser::with_source(window, allow_position_zero, Some(stale_keys), input)
    }

    fn with_source(
        window: usize,
        allow_position_zero: bool,
        stale: Option<&'a BTreeSet<u32>>,
        input: &[u8],
    ) -> (parser: LazyLzParser<'a>)
        ensures
            parser.follows(input@),
            parser.place() == 0,
            forall|bound: int| #[trigger]
                parser.reach(bound) == (Reach {
                    bound,
                    distance: reach_of(window),
                    first: allow_position_zero,
                    stale: keys_in(stale),
                }),
    {
        let (head, previous) = new_chains(input.len(), Ghost(input@));
        let reach: usize = if window == 0 {
            0
        } else if window > usize::MAX - 3 {
            usize::MAX - 3
        } else {
            window - 1
        };
        LazyLzParser { position: 0, inserted: 0, head, previous, reach, allow_position_zero, stale }
    }

    /// Takes in the input before a position.
    fn insert_to(&mut self, input: &[u8], position: usize)
        requires
            old(self).follows(input@),
            old(self).inserted <= position <= input@.len(),
        ensures
            final(self).inserted == position,
            final(self).position == old(self).position,
            final(self).reach == old(self).reach,
            final(self).allow_position_zero == old(self).allow_position_zero,
            final(self).stale == old(self).stale,
            chained(input@, position as int, final(self).head@, final(self).previous@),
    {
        while self.inserted < position
            invariant
                self.inserted <= position <= input@.len(),
                chained(input@, self.inserted as int, self.head@, self.previous@),
                self.position == old(self).position,
                self.reach == old(self).reach,
                self.allow_position_zero == old(self).allow_position_zero,
                self.stale == old(self).stale,
            decreases position - self.inserted,
        {
            insert_position(input, self.inserted, &mut self.head, &mut self.previous);
            self.inserted = self.inserted + 1;
        }
    }

    /// How many bits a match saves, about.
    fn gain(
        input: &[u8],
        position: usize,
        length: usize,
        distance: usize,
        cost: &MatchCost<'_>,
    ) -> (gain: i64)
        requires
            MIN_MATCH <= length <= MAX_MATCH,
            position + length <= input@.len(),
            distance + 3 <= usize::MAX,
        ensures
            -0x1000_0000_0000 <= gain <= 0x1000_0000_0000,
            gain == gain_of(input@, position as int, length as int, distance, cost.judge()),
    {
        let code: usize = code_of_distance(distance, cost.recent_offsets);
        match &cost.scoring {
            MatchScoring::Heuristic => {
                8 * length as i64 - 12 - bit_length_u64(code as u64) as i64
            },
            MatchScoring::Fixed { costs, dynamic_offsets } => {
                if cost.bits < 2 || cost.bits > 15 || cost.contexts == 0 || length + 254
                    >= costs.top.len() {
                    return -1;
                }
                let context: usize = if length - MIN_MATCH < cost.contexts - 1 {
                    length - MIN_MATCH
                } else {
                    cost.contexts - 1
                };
                let offset_cost: i64 = match costs.grouped_cost(
                    dynamic_offsets,
                    context,
                    cost.bits,
                    code,
                ) {
                    Ok(offset_cost) => offset_cost as i64,
                    Err(_) => return -1,
                };
                let mut literals: i64 = 0;
                let mut i: usize = 0;
                let size: usize = input.len();
                while i < length
                    invariant
                        size == input@.len(),
                        i <= length <= MAX_MATCH,
                        position + length <= input@.len(),
                        -0x8000_0000 * i <= literals <= 0x8000_0000 * i,
                        literals == literals_cost(
                            costs.top@,
                            input@,
                            position as int,
                            i as nat,
                        ),
                    decreases length - i,
                {
                    let byte: usize = input[position + i] as usize;
                    if byte < costs.top.len() {
                        literals = literals + costs.top[byte] as i64;
                    }
                    i += 1;
                }
                literals - costs.top[length + 254] as i64 - offset_cost
            },
        }
    }

    /// The better of a match and a further one at the given distance.
    fn better(
        &self,
        input: &[u8],
        position: usize,
        bound: usize,
        distance: usize,
        found: Option<(usize, usize, i64)>,
        cost: &MatchCost<'_>,
    ) -> (best: Option<(usize, usize, i64)>)
        requires
            position < bound <= input@.len(),
            self.reach + 3 <= usize::MAX,
            found matches Some((length, back, _)) ==> fair(
                input@,
                position as int,
                bound as int,
                length as int,
                back as int,
                self.reach as int,
            ),
        ensures
            best matches Some((length, back, _)) ==> fair(
                input@,
                position as int,
                bound as int,
                length as int,
                back as int,
                self.reach as int,
            ),
            offered(best) == better_offer(
                input@,
                position as int,
                self.reach(bound as int),
                distance,
                offered(found),
                cost.judge(),
            ),
    {
        if distance == 0 || distance > position || distance > self.reach || (distance == position
            && !self.allow_position_zero) {
            return found;
        }
        let room: usize = bound - position;
        let max: usize = if room < MAX_MATCH {
            room
        } else {
            MAX_MATCH
        };
        let length: usize = match_length(input, position - distance, position, max);
        proof {
            lemma_common_length(input@, position - distance, position as int, 0, max as int);
        }
        if length < MIN_MATCH {
            return found;
        }
        let gain: i64 = LazyLzParser::gain(input, position, length, distance, cost);
        match found {
            Some((_, _, other)) if other >= gain => found,
            _ => Some((length, distance, gain)),
        }
    }

    /// The match at a position that saves most, if any saves something.
    fn best(&self, input: &[u8], position: usize, bound: usize, cost: &MatchCost<'_>) -> (best:
        Option<(usize, usize, i64)>)
        requires
            position < bound <= input@.len(),
            self.reach + 3 <= usize::MAX,
            chained(input@, position as int, self.head@, self.previous@),
        ensures
            best matches Some((length, back, gain)) ==> fair(
                input@,
                position as int,
                bound as int,
                length as int,
                back as int,
                self.reach as int,
            ) && gain > 0 && cost.bits >= 2,
            offered(best) == best_offer(
                input@,
                position as int,
                self.reach(bound as int),
                cost.judge(),
            ),
    {
        if cost.bits < 2 || self.reach == 0 {
            return None;
        }
        let limits = SearchLimits { length: MAX_MATCH, window: self.reach, attempts: 16, nice: 128 };
        let (length, distance) = find_match(input, position, limits, &self.head, &self.previous);
        let mut found: Option<(usize, usize, i64)> = None;
        if length >= 3 {
            found = self.better(input, position, bound, distance, found, cost);
        }
        found = self.better(input, position, bound, cost.recent_offsets[0], found, cost);
        found = self.better(input, position, bound, cost.recent_offsets[1], found, cost);
        found = self.better(input, position, bound, cost.recent_offsets[2], found, cost);
        found = self.better(input, position, bound, cost.recent_offsets[3], found, cost);
        found = self.better(input, position, bound, 1, found, cost);
        match found {
            Some((_, _, gain)) if gain > 0 => found,
            _ => None,
        }
    }

    /// The key of the position is stale.
    fn is_stale(&self, input: &[u8], position: usize) -> (stale: bool)
        requires
            position <= input@.len(),
        ensures
            stale == stale_at(input@, position as int, keys_in(self.stale)),
    {
        match (self.stale, local_match_key(input, position)) {
            (Some(keys), Some(key)) => keys.contains(&key),
            _ => false,
        }
    }

    /// Decides what stands at the parser's position, within the input before `bound`.
    pub fn next_bounded(&mut self, input: &[u8], bound: usize, cost: MatchCost<'_>) -> (decision:
        Option<LzDecision>)
        requires
            old(self).follows(input@),
            bound <= input@.len(),
        ensures
            final(self).follows(input@),
            forall|b: int| #[trigger] final(self).reach(b) == old(self).reach(b),
            decision == decided(
                input@,
                old(self).place(),
                old(self).reach(bound as int),
                cost.judge(),
            ),
            match decision {
                None => old(self).place() >= bound && final(self).place() == old(self).place(),
                Some(LzDecision::Literal { position }) => {
                    &&& old(self).place() < bound
                    &&& position == old(self).place()
                    &&& final(self).place() == old(self).place() + 1
                },
                Some(LzDecision::Match { length, distance }) => {
                    &&& MIN_MATCH <= length <= MAX_MATCH
                    &&& repeats(input@, old(self).place(), length as int, distance as int)
                    &&& old(self).place() + length <= bound
                    &&& distance + 3 <= usize::MAX
                    &&& cost.bits >= 2
                    &&& final(self).place() == old(self).place() + length
                },
            },
    {
        let position: usize = self.position;
        if position >= bound {
            return None;
        }
        self.insert_to(input, position);
        let found = self.best(input, position, bound, &cost);
        let (length, distance, gain) = match found {
            Some(found) => found,
            None => {
                self.position = position + 1;
                return Some(LzDecision::Literal { position });
            },
        };
        if position + 1 < bound && !self.is_stale(input, position + 1) {
            self.insert_to(input, position + 1);
            match self.best(input, position + 1, bound, &cost) {
                Some((_, _, later)) if later - 8 > gain => {
                    self.position = position + 1;
                    return Some(LzDecision::Literal { position });
                },
                _ => {},
            }
        }
        self.position = position + length;
        Some(LzDecision::Match { length, distance })
    }

    /// Passes over input that is coded otherwise.
    pub fn skip_range(&mut self, input: &[u8], end: usize)
        requires
            old(self).follows(input@),
            old(self).place() <= end <= input@.len(),
        ensures
            final(self).follows(input@),
            final(self).place() == end,
            forall|b: int| #[trigger] final(self).reach(b) == old(self).reach(b),
    {
        self.position = end;
    }
}

/// A match that may be taken.
pub open spec fn fair(
    input: Seq<u8>,
    position: int,
    bound: int,
    length: int,
    distance: int,
    reach: int,
) -> bool {
    &&& MIN_MATCH <= length <= MAX_MATCH
    &&& position + length <= bound
    &&& distance <= reach
    &&& repeats(input, position, length, distance)
}

} // verus!
