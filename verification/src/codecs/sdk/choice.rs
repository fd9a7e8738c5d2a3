//! Which way through the next bytes is chosen.

use vstd::prelude::*;

use crate::codecs::lzma::decoding::reps_view;
use crate::codecs::lzma::operations::{
    position_state, state_after_literal, state_after_match, state_after_rep, state_after_short_rep,
    Operation, Shape,
};
use crate::codecs::lzma::symbols::{slot_of, IS_MATCH, IS_REP};
use crate::codecs::matchfinder::common_length;
use crate::codecs::sdk::costs::{literal_cost, rep_cost, short_rep_cost};
use crate::codecs::sdk::matchfinder::Match;
use crate::codecs::sdk::parse::{
    source, step_of, steps_of, Optimal, INFINITY_PRICE, MARK_LIT, NUM_OPTS,
};
use crate::codecs::sdk::price::{bit_price, one_price, zero_price};
use crate::codecs::sdk::prices::length_context;
use crate::codecs::sdk::search::{after_passing, after_reading, Seeker};

verus! {

/// The models, and the tables of prices.
#[verifier::ext_equal]
pub struct Tariff {
    pub shape: Shape,
    pub probs: Seq<u16>,
    pub aligns: Seq<u32>,
    pub slots: Seq<Seq<u32>>,
    pub distances: Seq<Seq<u32>>,
    pub lens: Seq<Seq<u32>>,
    pub rep_lens: Seq<Seq<u32>>,
}

/// What stays the same while a way is searched for.
#[verifier::ext_equal]
pub struct Field {
    pub input: Seq<u8>,
    pub start: int,
    pub fast: int,
    pub tariff: Tariff,
}

/// The table, and the last cell reached.
#[verifier::ext_equal]
pub struct Table {
    pub opt: Seq<Optimal>,
    pub last: int,
}

/// A settled cell from which ways lead on.
#[verifier::ext_equal]
pub struct Stand {
    pub data: int,
    pub cur: int,
    pub state: int,
    pub pos_state: int,
    pub reps: Seq<int>,
    pub match_price: int,
    pub rep_match_price: int,
    pub num_avail: int,
    pub num_avail_full: int,
}

/// A cell that was not reached.
pub open spec fn blank() -> Optimal {
    Optimal {
        price: INFINITY_PRICE,
        state: 0,
        extra: 0,
        len: 0,
        dist: 0,
        reps: (0u32, 0u32, 0u32, 0u32),
    }
}

pub open spec fn way(price: int, extra: int, len: int, dist: u32) -> Optimal {
    Optimal {
        price: price as u32,
        state: 0,
        extra: extra as u32,
        len: len as u32,
        dist,
        reps: (0u32, 0u32, 0u32, 0u32),
    }
}

/// The smaller number.
pub open spec fn least(a: int, b: int) -> int {
    if a < b {
        a
    } else {
        b
    }
}

pub open spec fn literal_flag(t: Tariff, state: int, pos_state: int) -> int {
    zero_price(t.probs[IS_MATCH + state * 16 + pos_state])
}

pub open spec fn match_flag(t: Tariff, state: int, pos_state: int) -> int {
    one_price(t.probs[IS_MATCH + state * 16 + pos_state])
}

pub open spec fn rep_flag(t: Tariff, state: int, again: int) -> int {
    bit_price(t.probs[IS_REP + state], again)
}

/// A match at the last distance, without its length.
pub open spec fn rep_0_price(t: Tariff, state: int, pos_state: int) -> int {
    match_flag(t, state, pos_state) + rep_flag(t, state, 1) + rep_cost(
        t.probs,
        0,
        state,
        pos_state,
    )
}

/// The literal at a position, without its flag.
pub open spec fn literal_price(f: Field, position: int, matched: bool, expected: u8) -> int {
    literal_cost(
        f.tariff.shape,
        f.tariff.probs,
        f.input.take(position),
        matched,
        f.input[position],
        expected,
    )
}

/// A distance, by the tables.
pub open spec fn distance_price(t: Tariff, len: int, distance: int) -> int {
    let context = length_context(len);
    if distance < 128 {
        t.distances[context][distance] as int
    } else {
        t.slots[context][slot_of(distance)] + t.aligns[distance % 16]
    }
}

/// The way is taken if it is cheaper, or equally cheap where `ties` says so.
pub open spec fn taken(table: Table, j: int, offer: Optimal, ties: bool) -> bool {
    offer.price < table.opt[j].price || ties && offer.price == table.opt[j].price
}

/// The table after a way to cell `j` was offered.
pub open spec fn offered(table: Table, j: int, offer: Optimal, ties: bool) -> Table {
    Table {
        opt: if taken(table, j, offer, ties) {
            table.opt.update(j, offer)
        } else {
            table.opt
        },
        last: if table.last < j {
            j
        } else {
            table.last
        },
    }
}

/// How far bytes repeat, if at least two do.
pub open spec fn repeated(input: Seq<u8>, data: int, distance: int, skip: int, limit: int) -> int {
    let length = common_length(
        input,
        data - distance - 1 + skip,
        data + skip,
        0,
        limit - skip,
    );
    if limit - skip < 2 || length < 2 {
        0
    } else {
        length
    }
}

/// A match at a repeated distance is offered, in all lengths from `len` down.
pub open spec fn rep_offered(
    f: Field,
    at: Stand,
    index: int,
    price: int,
    len: int,
    table: Table,
) -> Table
    decreases len,
{
    if len < 2 {
        table
    } else {
        rep_offered(
            f,
            at,
            index,
            price,
            len - 1,
            offered(
                table,
                at.cur + len,
                way(price + f.tariff.rep_lens[at.pos_state][len - 2], 0, len, index as u32),
                false,
            ),
        )
    }
}

/// A literal and a match at the last distance are offered.
pub open spec fn literal_rep_offered(f: Field, at: Stand, lit_price: int, table: Table) -> Table {
    let limit = least(f.fast + 1, at.num_avail_full);
    let length = repeated(f.input, at.data, at.reps[0], 1, limit);
    let pos_state = position_state(f.tariff.shape, at.data + 1);
    let price = lit_price + rep_0_price(f.tariff, state_after_literal(at.state), pos_state)
        + f.tariff.rep_lens[pos_state][length - 2];
    if length == 0 {
        table
    } else {
        offered(table, at.cur + length + 1, way(price, 1, length, 0), false)
    }
}

/// A match, a literal and a match at the same distance are offered.
pub open spec fn match_literal_rep_offered(
    f: Field,
    at: Stand,
    length: int,
    dist: u32,
    distance: int,
    price: int,
    table: Table,
) -> Table {
    let t = f.tariff;
    let limit = least(length + 1 + f.fast, at.num_avail_full);
    let again = repeated(f.input, at.data, distance, length + 1, limit);
    let literal = at.data + length;
    let state = if dist < 4 {
        state_after_rep(at.state)
    } else {
        state_after_match(at.state)
    };
    let after_literal = if dist < 4 {
        5int
    } else {
        4
    };
    let pos_state = position_state(t.shape, literal);
    let next_pos_state = position_state(t.shape, literal + 1);
    let middle = literal_flag(t, state, pos_state) + literal_price(
        f,
        literal,
        true,
        f.input[literal - distance - 1],
    );
    let end = rep_0_price(t, after_literal, next_pos_state)
        + t.rep_lens[next_pos_state][again - 2];
    if again == 0 {
        table
    } else {
        offered(
            table,
            at.cur + length + 1 + again,
            way(price + middle + end, length + 1, again, dist),
            false,
        )
    }
}

/// Matches at all repeated distances from `index` on are offered. Says also how long new
/// matches have to be to be worth a look.
pub open spec fn reps_offered(f: Field, at: Stand, index: int, from: int, table: Table) -> (
    Table,
    int,
)
    decreases 4 - index,
{
    if index >= 4 {
        (table, from)
    } else {
        let length = repeated(f.input, at.data, at.reps[index], 0, at.num_avail);
        let price = at.rep_match_price + rep_cost(f.tariff.probs, index, at.state, at.pos_state);
        if length == 0 {
            reps_offered(f, at, index + 1, from, table)
        } else {
            reps_offered(
                f,
                at,
                index + 1,
                if index == 0 {
                    length + 1
                } else {
                    from
                },
                match_literal_rep_offered(
                    f,
                    at,
                    length,
                    index as u32,
                    at.reps[index],
                    price + f.tariff.rep_lens[at.pos_state][length - 2],
                    rep_offered(f, at, index, price, length, table),
                ),
            )
        }
    }
}

/// The first match from number `i` on that is long enough.
pub open spec fn reaching(matches: Seq<Match>, i: int, len: int) -> int
    decreases matches.len() - i,
{
    if 0 <= i < matches.len() && matches[i].len < len {
        reaching(matches, i + 1, len)
    } else {
        i
    }
}

/// New matches of `len` bytes and more are offered, each length at the nearest distance.
pub open spec fn matches_offered(
    f: Field,
    at: Stand,
    matches: Seq<Match>,
    offs: int,
    len: int,
    to: int,
    tails: bool,
    table: Table,
) -> Table
    decreases to + 1 - len,
{
    if len > to {
        table
    } else {
        let i = reaching(matches, offs, len);
        let distance = matches[i].dist;
        let price = at.match_price + rep_flag(f.tariff, at.state, 0)
            + f.tariff.lens[at.pos_state][len - 2] + distance_price(
            f.tariff,
            len,
            distance as int,
        );
        let once = offered(
            table,
            at.cur + len,
            way(price, 0, len, (distance + 4) as u32),
            false,
        );
        matches_offered(
            f,
            at,
            matches,
            i,
            len + 1,
            to,
            tails,
            if tails && (len == matches[i].len || len == to) {
                match_literal_rep_offered(
                    f,
                    at,
                    len,
                    (distance + 4) as u32,
                    distance as int,
                    price,
                    once,
                )
            } else {
                once
            },
        )
    }
}

/// The cell with the state of the way to it.
pub open spec fn state_of(opt: Seq<Optimal>, cur: int) -> int {
    let cell = opt[cur];
    let before = opt[source(cell, cur)].state as int;
    if cell.len == 1 {
        if cell.dist == 0 {
            state_after_short_rep(before)
        } else {
            state_after_literal(before)
        }
    } else if cell.extra == 1 {
        if cell.dist < 4 {
            8
        } else {
            7
        }
    } else if cell.extra > 1 {
        8
    } else if cell.dist < 4 {
        state_after_rep(before)
    } else {
        state_after_match(before)
    }
}

/// The last distances after the way to a cell.
pub open spec fn reps_of(opt: Seq<Optimal>, cur: int) -> (u32, u32, u32, u32) {
    let cell = opt[cur];
    let r = opt[source(cell, cur)].reps;
    if cell.dist == MARK_LIT || cell.len == 1 || cell.dist == 0 {
        r
    } else if cell.dist == 1 {
        (r.1, r.0, r.2, r.3)
    } else if cell.dist == 2 {
        (r.2, r.0, r.1, r.3)
    } else if cell.dist == 3 {
        (r.3, r.0, r.1, r.2)
    } else {
        ((cell.dist - 4) as u32, r.0, r.1, r.2)
    }
}

/// The table with the cell `cur` settled.
pub open spec fn settled_at(opt: Seq<Optimal>, cur: int) -> Seq<Optimal> {
    opt.update(
        cur,
        Optimal { state: state_of(opt, cur) as u32, reps: reps_of(opt, cur), ..opt[cur] },
    )
}

/// The price of a literal at a cell, with its flag.
pub open spec fn literal_way_price(f: Field, cell: Optimal, data: int, expected: u8) -> int {
    cell.price + literal_flag(
        f.tariff,
        cell.state as int,
        position_state(f.tariff.shape, data),
    ) + literal_price(f, data, cell.state >= 7, expected)
}

/// Where a settled cell stands.
pub open spec fn stand_at(f: Field, cell: Optimal, cur: int, num_avail: int, full: int) -> Stand {
    let data = f.start + cur;
    let state = cell.state as int;
    let pos_state = position_state(f.tariff.shape, data);
    let match_price = cell.price + match_flag(f.tariff, state, pos_state);
    Stand {
        data,
        cur,
        state,
        pos_state,
        reps: reps_view(cell.reps),
        match_price,
        rep_match_price: match_price + rep_flag(f.tariff, state, 1),
        num_avail,
        num_avail_full: full,
    }
}

/// The byte at the last distance of a cell.
pub open spec fn expected_at(f: Field, cell: Optimal, cur: int) -> u8 {
    f.input[f.start + cur - cell.reps.0 - 1]
}

/// The ways of one byte from a settled cell are offered: a literal and a repeated byte. Says
/// also whether one of them was taken.
pub open spec fn bytes_offered(f: Field, cell: Optimal, cur: int, table: Table) -> (Table, bool) {
    let data = f.start + cur;
    let expected = expected_at(f, cell, cur);
    let lit = way(literal_way_price(f, cell, data, expected), 0, 1, MARK_LIT);
    let at = stand_at(f, cell, cur, 0, 0);
    let once = offered(table, cur + 1, lit, false);
    let short = way(
        at.rep_match_price + short_rep_cost(f.tariff.probs, at.state, at.pos_state),
        0,
        1,
        0,
    );
    if f.input[data] == expected && !(once.opt[cur + 1].len > 1 && once.opt[cur + 1].dist == 0) {
        (
            offered(once, cur + 1, short, true),
            taken(table, cur + 1, lit, false) || taken(once, cur + 1, short, true),
        )
    } else {
        (once, taken(table, cur + 1, lit, false))
    }
}

/// The longer ways from a settled cell are offered.
pub open spec fn runs_offered(
    f: Field,
    at: Stand,
    lit_price: int,
    tries_literal: bool,
    matches: Seq<Match>,
    new_len: int,
    table: Table,
) -> Table {
    let t1 = if tries_literal && at.num_avail_full > 2 {
        literal_rep_offered(f, at, lit_price, table)
    } else {
        table
    };
    let (t2, from) = reps_offered(f, at, 0, 2, t1);
    let to = least(new_len, at.num_avail);
    if to >= from {
        matches_offered(f, at, matches, 0, from, to, true, t2)
    } else {
        t2
    }
}

/// The table after all ways from the cell `cur` were offered.
#[verifier::opaque]
pub open spec fn went_on_from(
    f: Field,
    table: Table,
    cur: int,
    num_avail: int,
    matches: Seq<Match>,
    new_len: int,
) -> Table {
    let opt = settled_at(table.opt, cur);
    let cell = opt[cur];
    let data = f.start + cur;
    let expected = expected_at(f, cell, cur);
    let (near, next_is_lit) = bytes_offered(f, cell, cur, Table { opt, last: table.last });
    let full = least(num_avail, NUM_OPTS - 1 - cur);
    if full < 2 {
        near
    } else {
        runs_offered(
            f,
            stand_at(f, cell, cur, least(full, f.fast), full),
            literal_way_price(f, cell, data, expected),
            !next_is_lit && f.input[data] != expected,
            matches,
            new_len,
            near,
        )
    }
}

/// A table of which only the first cell is known.
pub open spec fn first_table(state: int, reps: (u32, u32, u32, u32)) -> Seq<Optimal> {
    Seq::new(NUM_OPTS as nat, |j: int| blank()).update(
        0,
        Optimal { price: 0, state: state as u32, extra: 0, len: 0, dist: 0, reps },
    )
}

/// The matches at the repeated distances are offered from the first cell.
pub open spec fn reps_seeded(f: Field, at: Stand, index: int, lens: Seq<int>, table: Table) -> Table
    decreases 4 - index,
{
    if index >= 4 {
        table
    } else {
        let price = at.rep_match_price + rep_cost(f.tariff.probs, index, at.state, at.pos_state);
        reps_seeded(
            f,
            at,
            index + 1,
            lens,
            if lens[index] >= 2 {
                rep_offered(f, at, index, price, lens[index], table)
            } else {
                table
            },
        )
    }
}

/// The table after all ways from the first cell were offered.
#[verifier::opaque]
pub open spec fn seeded(
    f: Field,
    state: int,
    reps: (u32, u32, u32, u32),
    lens: Seq<int>,
    main_len: int,
    num_avail: int,
    matches: Seq<Match>,
) -> Table {
    let opt = first_table(state, reps);
    let expected = f.input[f.start - reps.0 - 1];
    let at = stand_at(f, opt[0], 0, num_avail, num_avail);
    let t0 = Table { opt, last: 0 };
    let t1 = offered(
        t0,
        1,
        way(literal_way_price(f, opt[0], f.start, expected), 0, 1, MARK_LIT),
        false,
    );
    let t2 = if f.input[f.start] == expected {
        offered(
            t1,
            1,
            way(
                at.rep_match_price + short_rep_cost(f.tariff.probs, state, at.pos_state),
                0,
                1,
                0,
            ),
            false,
        )
    } else {
        t1
    };
    let t3 = reps_seeded(f, at, 0, lens, t2);
    let from = if lens[0] < 1 {
        2
    } else {
        lens[0] + 1
    };
    if from <= main_len {
        matches_offered(f, at, matches, 0, from, main_len, false, t3)
    } else {
        t3
    }
}

/// How far the last distances repeat, from number `index` on; a repetition of full length ends
/// the search.
pub open spec fn rep_lens_from(
    input: Seq<u8>,
    data: int,
    reps: Seq<int>,
    num_avail: int,
    index: int,
    lens: Seq<int>,
) -> Seq<int>
    decreases 4 - index,
{
    if index >= 4 {
        lens
    } else {
        let length = repeated(input, data, reps[index], 0, num_avail);
        let after = lens.update(index, length);
        if length == 273 {
            after
        } else {
            rep_lens_from(input, data, reps, num_avail, index + 1, after)
        }
    }
}

/// The number of the longest repetition among the first `n`, the first of equals.
pub open spec fn longest_rep(lens: Seq<int>, n: nat) -> int
    decreases n,
{
    if n <= 1 {
        0
    } else {
        let before = longest_rep(lens, (n - 1) as nat);
        if lens[n - 1] > lens[before] {
            n - 1
        } else {
            before
        }
    }
}

/// The cheapest cell from `cur` on among those up to `j`, the last of equals.
pub open spec fn cheapest_of(opt: Seq<Optimal>, cur: int, j: int) -> int
    decreases j - cur,
{
    if j <= cur {
        cur
    } else {
        let before = cheapest_of(opt, cur, j - 1);
        if opt[before].price >= opt[j].price {
            j
        } else {
            before
        }
    }
}

/// What a search ends with: the table, the seeker and the cell that it led to.
#[verifier::ext_equal]
pub struct Search {
    pub table: Table,
    pub seeker: Seeker,
    pub goal: int,
}

/// Searches on from the cell `cur`.
pub open spec fn searched(f: Field, table: Table, seeker: Seeker, cur: int) -> Search
    decreases NUM_OPTS - cur,
{
    if cur == table.last {
        Search { table, seeker, goal: cur }
    } else if cur >= NUM_OPTS - 64 {
        let goal = cheapest_of(table.opt, cur, table.last);
        Search { table, seeker: after_passing(seeker, goal - cur), goal }
    } else {
        let read = after_reading(seeker);
        if read.longest >= f.fast {
            Search { table, seeker: read, goal: cur }
        } else {
            searched(
                f,
                went_on_from(
                    f,
                    table,
                    cur,
                    read.num_avail as int,
                    read.matches,
                    read.longest as int,
                ),
                read,
                cur + 1,
            )
        }
    }
}

/// The way to a cell.
pub open spec fn way_to(input: Seq<u8>, start: int, opt: Seq<Optimal>, j: int) -> Seq<Operation>
    decreases j,
{
    let from = source(opt[j], j);
    if j <= 0 || !(0 <= from < j) {
        Seq::empty()
    } else {
        way_to(input, start, opt, from) + steps_of(input, start + from, opt[j])
    }
}

/// A seeker that is ahead of the encoder by what is left after `n` bytes.
pub open spec fn caught_up(seeker: Seeker, n: int) -> Seeker {
    Seeker { ahead: (seeker.ahead - n) as usize, ..seeker }
}

/// The operations that are chosen next, and the seeker after them.
pub open spec fn optimum(f: Field, given: Seeker, state: int, reps: (u32, u32, u32, u32)) -> (
    Seq<Operation>,
    Seeker,
) {
    let seeker = if given.ahead == 0 {
        after_reading(given)
    } else {
        given
    };
    let data = f.start;
    let num_avail = least(seeker.num_avail as int, 273);
    let lens = rep_lens_from(
        f.input,
        data,
        reps_view(reps),
        num_avail,
        0,
        seq![0int, 0, 0, 0],
    );
    let best = longest_rep(lens, 4);
    let main_len = seeker.longest as int;
    let literal = (seq![Operation::Literal(f.input[data])], caught_up(seeker, 1));
    if seeker.num_avail < 2 {
        literal
    } else if lens[best] >= f.fast {
        (
            seq![step_of(f.input[data], lens[best], best as u32)],
            caught_up(after_passing(seeker, lens[best] - 1), lens[best]),
        )
    } else if main_len >= f.fast {
        (
            seq![
                step_of(
                    f.input[data],
                    main_len,
                    (seeker.matches.last().dist + 4) as u32,
                ),
            ],
            caught_up(after_passing(seeker, main_len - 1), main_len),
        )
    } else if lens[best] < 2 && main_len < 2 && f.input[data] != f.input[data - reps.0 - 1] {
        literal
    } else {
        let table = seeded(f, state, reps, lens, main_len, num_avail, seeker.matches);
        let end = searched(f, table, seeker, 1);
        (
            way_to(f.input, f.start, end.table.opt, end.goal),
            caught_up(end.seeker, end.goal),
        )
    }
}

} // verus!
