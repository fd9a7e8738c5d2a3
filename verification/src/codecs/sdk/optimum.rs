//! The search for a cheap way through the next bytes.

use vstd::prelude::*;

use crate::codecs::lzma::decoding::{
    reps_view, update_literal_state, update_match_state, update_rep_state, Action,
};
use crate::codecs::lzma::operations::Operation;
use crate::codecs::matchfinder::{lemma_common_length, match_length, repeats};
use crate::codecs::sdk::choice::{
    blank, bytes_offered, cheapest_of, expected_at, first_table, literal_rep_offered,
    literal_way_price, longest_rep, match_literal_rep_offered, matches_offered, offered, optimum,
    reaching, rep_flag, rep_lens_from, rep_offered, repeated, reps_offered, reps_seeded,
    runs_offered, searched, stand_at, seeded, taken, went_on_from, Field, Stand, Table,
};
use crate::codecs::sdk::costs::Costs;
use crate::codecs::sdk::matchfinder::{valid_match, valid_matches, Match};
use crate::codecs::sdk::parse::{
    action_of, applies, backward, leads, plan, relax, reps_after, reps_fine, runs, settle, source,
    step_of, steps_of, table_fine, total, Optimal, INFINITY_PRICE, MARK_LIT, NUM_OPTS, STEP_LIMIT,
};
use crate::codecs::sdk::search::{Search, INPUT_LIMIT, MATCH_LEN_MAX};

verus! {

/// What stays the same while a way is searched for.
pub struct Frame<'b> {
    pub input: &'b [u8],
    pub start: usize,
    pub fast: usize,
    pub costs: &'b Costs,
    pub dict: Ghost<int>,
}

impl<'b> Frame<'b> {
    pub open spec fn sound(&self) -> bool {
        &&& self.costs.sound()
        &&& 2 <= self.fast <= 273
        &&& 1 <= self.dict@ < u32::MAX
        &&& self.start < self.input@.len() <= INPUT_LIMIT
    }

    /// What the search goes by.
    pub open spec fn field(&self) -> Field {
        Field {
            input: self.input@,
            start: self.start as int,
            fast: self.fast as int,
            tariff: self.costs.tariff(),
        }
    }

    /// The table, with the cells up to `cur` settled and `last` the last cell reached.
    pub open spec fn fine(&self, opt: Seq<Optimal>, cur: int, last: int) -> bool {
        &&& self.sound()
        &&& table_fine(self.input@, self.dict@, self.start as int, opt, cur, last)
        &&& last > 0 ==> opt[last].price < INFINITY_PRICE
        &&& forall|j: int| last < j < NUM_OPTS ==> #[trigger] opt[j] == blank()
    }
}

/// A settled cell from which ways lead on.
#[derive(Clone, Copy)]
pub struct Spot {
    pub data: usize,
    pub cur: usize,
    pub state: usize,
    pub pos_state: usize,
    pub reps: (u32, u32, u32, u32),
    pub match_price: u32,
    pub rep_match_price: u32,
    pub num_avail: usize,
    pub num_avail_full: usize,
}

impl View for Spot {
    type V = Stand;

    open spec fn view(&self) -> Stand {
        Stand {
            data: self.data as int,
            cur: self.cur as int,
            state: self.state as int,
            pos_state: self.pos_state as int,
            reps: reps_view(self.reps),
            match_price: self.match_price as int,
            rep_match_price: self.rep_match_price as int,
            num_avail: self.num_avail as int,
            num_avail_full: self.num_avail_full as int,
        }
    }
}

/// A table with its last cell.
pub open spec fn table_of(opt: Seq<Optimal>, last: usize) -> Table {
    Table { opt, last: last as int }
}

/// The spot is that of the settled cell.
pub open spec fn spot_fine(frame: &Frame<'_>, opt: Seq<Optimal>, spot: Spot) -> bool {
    &&& spot.data == frame.start + spot.cur
    &&& spot.state < 12
    &&& spot.pos_state < 16
    &&& spot.reps == opt[spot.cur as int].reps
    &&& reps_fine(frame.dict@, spot.data as int, reps_view(spot.reps))
    &&& spot.match_price <= spot.cur * STEP_LIMIT + 161
    &&& spot.rep_match_price <= spot.cur * STEP_LIMIT + 322
    &&& 2 <= spot.num_avail <= spot.num_avail_full
    &&& spot.num_avail <= 273
    &&& spot.data + spot.num_avail_full <= frame.input@.len()
    &&& spot.cur + spot.num_avail_full < NUM_OPTS
}

/// Only cells behind `cur` differ.
pub open spec fn same_to(before: Seq<Optimal>, after: Seq<Optimal>, cur: int) -> bool {
    forall|k: int| 0 <= k <= cur ==> #[trigger] after[k] == before[k]
}

/// Cells that were reached still are.
pub open spec fn still_reached(before: Seq<Optimal>, after: Seq<Optimal>) -> bool {
    forall|j: int|
        0 <= j < NUM_OPTS && (#[trigger] before[j]).price < INFINITY_PRICE ==> after[j].price
            < INFINITY_PRICE
}

/// A single step leads on.
proof fn lemma_leads_step(
    input: Seq<u8>,
    dict: int,
    start: int,
    reps: Seq<int>,
    way: Optimal,
    cur: int,
)
    requires
        way.extra == 0,
        way.len >= 1,
        0 <= cur,
        way.dist == MARK_LIT ==> way.len == 1,
        applies(input, dict, start + cur, reps, step_of(input[start + cur], way.len as int, way.dist)),
    ensures
        leads(input, dict, start, reps, way, cur + way.len),
        source(way, cur + way.len) == cur,
{
    reveal_with_fuel(runs, 2);
    let ops = steps_of(input, start + cur, way);
    assert(ops.drop_first() =~= Seq::<Operation>::empty());
}

/// A literal and a match at the last distance lead on.
proof fn lemma_leads_literal_rep(
    input: Seq<u8>,
    dict: int,
    start: int,
    reps: Seq<int>,
    way: Optimal,
    cur: int,
)
    requires
        way.extra == 1,
        way.dist == 0,
        0 <= cur,
        0 <= start,
        2 <= way.len <= 273,
        repeats(input, start + cur + 1, way.len as int, reps[0] + 1),
    ensures
        leads(input, dict, start, reps, way, cur + way.len + 1),
        source(way, cur + way.len + 1) == cur,
{
    reveal_with_fuel(runs, 3);
    let ops = steps_of(input, start + cur, way);
    assert(ops.drop_first() =~= seq![ops[1]]);
    assert(ops.drop_first().drop_first() =~= Seq::<Operation>::empty());
}

/// A match, a literal and a match at the same distance lead on.
proof fn lemma_leads_match_literal_rep(
    input: Seq<u8>,
    dict: int,
    start: int,
    reps: Seq<int>,
    way: Optimal,
    cur: int,
    distance: int,
)
    requires
        reps.len() == 4,
        way.extra >= 3,
        way.dist != MARK_LIT,
        0 <= cur,
        0 <= start,
        2 <= way.len <= 273,
        way.dist < 4 ==> distance == reps[way.dist as int],
        way.dist >= 4 ==> distance == way.dist - 4,
        applies(
            input,
            dict,
            start + cur,
            reps,
            step_of(input[start + cur], way.extra - 1, way.dist),
        ),
        repeats(input, start + cur + way.extra, way.len as int, distance + 1),
    ensures
        leads(input, dict, start, reps, way, cur + way.len + way.extra),
        source(way, cur + way.len + way.extra) == cur,
{
    reveal_with_fuel(runs, 4);
    let ops = steps_of(input, start + cur, way);
    assert(ops.drop_first() =~= seq![ops[1], ops[2]]);
    assert(ops.drop_first().drop_first() =~= seq![ops[2]]);
    assert(ops.drop_first().drop_first().drop_first() =~= Seq::<Operation>::empty());
    assert(reps_after(reps, ops[0])[0] == distance);
}

/// Offers a way and keeps track of the last cell reached.
fn offer(
    frame: &Frame<'_>,
    opt: &mut Vec<Optimal>,
    last: usize,
    j: usize,
    way: Optimal,
    ties: bool,
    Ghost(cur): Ghost<int>,
) -> (result: (usize, bool))
    requires
        frame.fine(old(opt)@, cur, last as int),
        cur < j < NUM_OPTS,
        frame.start + j <= frame.input@.len(),
        way.price <= j * STEP_LIMIT,
        source(way, j as int) == cur,
        leads(
            frame.input@,
            frame.dict@,
            frame.start as int,
            reps_view(old(opt)@[cur].reps),
            way,
            j as int,
        ),
    ensures
        frame.fine(final(opt)@, cur, result.0 as int),
        result.0 == (if last < j {
            j
        } else {
            last
        }),
        final(opt)@[j as int].price < INFINITY_PRICE,
        same_to(old(opt)@, final(opt)@, cur),
        still_reached(old(opt)@, final(opt)@),
        result.1 == (way.price < old(opt)@[j as int].price || ties && way.price == old(opt)@[j as int].price),
        final(opt)@ == (if result.1 {
            old(opt)@.update(j as int, way)
        } else {
            old(opt)@
        }),
        table_of(final(opt)@, result.0) == offered(
            table_of(old(opt)@, last),
            j as int,
            way,
            ties,
        ),
        result.1 == taken(table_of(old(opt)@, last), j as int, way, ties),
{
    let taken = relax(
        opt,
        j,
        way,
        ties,
        Ghost(frame.input@),
        Ghost(frame.dict@),
        Ghost(frame.start as int),
        Ghost(cur),
        Ghost(last as int),
    );
    if last < j {
        (j, taken)
    } else {
        (last, taken)
    }
}

/// How far the bytes from `skip` on repeat, if at least two of them do.
fn agreeing(input: &[u8], back: usize, data: usize, skip: usize, limit: usize) -> (length: usize)
    requires
        back < data,
        skip <= 274,
        data + limit <= input@.len(),
    ensures
        length == 0 || 2 <= length <= limit - skip && repeats(
            input@,
            data + skip,
            length as int,
            data - back,
        ),
        length == repeated(input@, data as int, data - back - 1, skip as int, limit as int),
{
    let size: usize = input.len();
    if limit < skip || limit - skip < 2 {
        return 0;
    }
    let length: usize = match_length(input, back + skip, data + skip, limit - skip);
    proof {
        lemma_common_length(input@, back + skip, data + skip, 0, limit - skip);
        assert forall|i: int| 0 <= i < length implies #[trigger] input@[data + skip + i]
            == input@[data + skip - (data - back) + i] by {
            assert(input@[(data + skip) + i] == input@[(back + skip) + i]);
        }
    }
    if length < 2 {
        0
    } else {
        length
    }
}

/// How far the bytes repeat what lies at the given distance, if at least two of them do.
fn rep_length(input: &[u8], data: usize, distance: u32, limit: usize) -> (length: usize)
    requires
        distance < data,
        data + limit <= input@.len(),
    ensures
        length == 0 || 2 <= length <= limit,
        forall|n: int| 0 <= n <= length ==> #[trigger] repeats(input@, data as int, n, distance + 1),
        length == repeated(input@, data as int, distance as int, 0, limit as int),
{
    let size: usize = input.len();
    let back: usize = data - distance as usize - 1;
    let length: usize = match_length(input, back, data, limit);
    proof {
        lemma_common_length(input@, back as int, data as int, 0, limit as int);
        assert(data - distance - 1 + 0 == back && data + 0 == data);
        assert forall|n: int| 0 <= n <= length implies #[trigger] repeats(
            input@,
            data as int,
            n,
            distance + 1,
        ) by {
            assert forall|i: int| 0 <= i < n implies #[trigger] input@[data + i] == input@[data - (
            distance + 1) + i] by {
                assert(input@[data + i] == input@[back + i]);
            }
        }
    }
    if length < 2 {
        0
    } else {
        length
    }
}

fn rep_at(reps: (u32, u32, u32, u32), index: usize) -> (distance: u32)
    requires
        index < 4,
    ensures
        distance == reps_view(reps)[index as int],
{
    if index == 0 {
        reps.0
    } else if index == 1 {
        reps.1
    } else if index == 2 {
        reps.2
    } else {
        reps.3
    }
}

/// Offers a match at a repeated distance, in all its lengths.
#[verifier::rlimit(40)]
fn offer_rep(
    frame: &Frame<'_>,
    opt: &mut Vec<Optimal>,
    spot: &Spot,
    last: usize,
    index: usize,
    length: usize,
    price: u32,
) -> (result: usize)
    requires
        frame.fine(old(opt)@, spot.cur as int, last as int),
        spot_fine(frame, old(opt)@, *spot),
        index < 4,
        2 <= length <= 273,
        length <= spot.num_avail_full,
        price <= spot.cur * STEP_LIMIT + 900,
        forall|n: int|
            0 <= n <= length ==> #[trigger] repeats(
                frame.input@,
                spot.data as int,
                n,
                reps_view(spot.reps)[index as int] + 1,
            ),
    ensures
        frame.fine(final(opt)@, spot.cur as int, result as int),
        table_of(final(opt)@, result) == rep_offered(
            frame.field(),
            spot@,
            index as int,
            price as int,
            length as int,
            table_of(old(opt)@, last),
        ),
        same_to(old(opt)@, final(opt)@, spot.cur as int),
        result >= last,
        still_reached(old(opt)@, final(opt)@),
{
    let ghost whole = rep_offered(
        frame.field(),
        spot@,
        index as int,
        price as int,
        length as int,
        table_of(opt@, last),
    );
    let mut len: usize = length;
    let ghost first = last;
    let mut last: usize = last;
    while len >= 2
        invariant
            1 <= len <= length <= 273,
            whole == rep_offered(
                frame.field(),
                spot@,
                index as int,
                price as int,
                length as int,
                table_of(old(opt)@, first),
            ),
            whole == rep_offered(
                frame.field(),
                spot@,
                index as int,
                price as int,
                len as int,
                table_of(opt@, last),
            ),
            length <= spot.num_avail_full,
            index < 4,
            first <= last,
            frame.fine(opt@, spot.cur as int, last as int),
            spot_fine(frame, opt@, *spot),
            price <= spot.cur * STEP_LIMIT + 900,
            same_to(old(opt)@, opt@, spot.cur as int),
            forall|n: int|
                0 <= n <= length ==> #[trigger] repeats(
                    frame.input@,
                    spot.data as int,
                    n,
                    reps_view(spot.reps)[index as int] + 1,
                ),
            still_reached(old(opt)@, opt@),
        decreases len,
    {
        let way = Optimal {
            price: price + frame.costs.prices.rep_len_enc.price(spot.pos_state, len),
            state: 0,
            extra: 0,
            len: len as u32,
            dist: index as u32,
            reps: (0, 0, 0, 0),
        };
        proof {
            assert(repeats(
                frame.input@,
                spot.data as int,
                len as int,
                reps_view(spot.reps)[index as int] + 1,
            ));
            lemma_leads_step(
                frame.input@,
                frame.dict@,
                frame.start as int,
                reps_view(spot.reps),
                way,
                spot.cur as int,
            );
        }
        let (next, _) = offer(
            frame,
            opt,
            last,
            spot.cur + len,
            way,
            false,
            Ghost(spot.cur as int),
        );
        last = next;
        len -= 1;
    }
    last
}

/// Offers a literal and a match at the last distance after it.
fn offer_literal_rep(
    frame: &Frame<'_>,
    opt: &mut Vec<Optimal>,
    spot: &Spot,
    last: usize,
    lit_price: u32,
) -> (result: usize)
    requires
        frame.fine(old(opt)@, spot.cur as int, last as int),
        spot_fine(frame, old(opt)@, *spot),
        lit_price <= spot.cur * STEP_LIMIT + 1449,
    ensures
        table_of(final(opt)@, result) == literal_rep_offered(
            frame.field(),
            spot@,
            lit_price as int,
            table_of(old(opt)@, last),
        ),
        frame.fine(final(opt)@, spot.cur as int, result as int),
        same_to(old(opt)@, final(opt)@, spot.cur as int),
        result >= last,
        still_reached(old(opt)@, final(opt)@),
{
    assert(0 <= reps_view(spot.reps)[0] < spot.data);
    let back: usize = spot.data - spot.reps.0 as usize - 1;
    let limit: usize = if frame.fast + 1 > spot.num_avail_full {
        spot.num_avail_full
    } else {
        frame.fast + 1
    };
    let length: usize = agreeing(frame.input, back, spot.data, 1, limit);
    if length == 0 {
        return last;
    }
    let state: usize = update_literal_state(spot.state);
    let pos_state: usize = frame.costs.shape.pos_state(spot.data + 1);
    let way = Optimal {
        price: lit_price + frame.costs.price_rep_0(state, pos_state)
            + frame.costs.prices.rep_len_enc.price(pos_state, length),
        state: 0,
        extra: 1,
        len: length as u32,
        dist: 0,
        reps: (0, 0, 0, 0),
    };
    proof {
        lemma_leads_literal_rep(
            frame.input@,
            frame.dict@,
            frame.start as int,
            reps_view(spot.reps),
            way,
            spot.cur as int,
        );
    }
    let (next, _) = offer(
        frame,
        opt,
        last,
        spot.cur + length + 1,
        way,
        false,
        Ghost(spot.cur as int),
    );
    next
}

/// Offers a match, a literal and a match at the same distance after it.
#[verifier::rlimit(40)]
fn offer_match_literal_rep(
    frame: &Frame<'_>,
    opt: &mut Vec<Optimal>,
    spot: &Spot,
    last: usize,
    length: usize,
    dist: u32,
    distance: u32,
    price: u32,
) -> (result: usize)
    requires
        frame.fine(old(opt)@, spot.cur as int, last as int),
        spot_fine(frame, old(opt)@, *spot),
        2 <= length <= spot.num_avail,
        price <= spot.cur * STEP_LIMIT + 12500,
        dist != MARK_LIT,
        dist < 4 ==> distance == reps_view(spot.reps)[dist as int],
        dist >= 4 ==> distance == dist - 4,
        distance < frame.dict@,
        repeats(frame.input@, spot.data as int, length as int, distance + 1),
    ensures
        table_of(final(opt)@, result) == match_literal_rep_offered(
            frame.field(),
            spot@,
            length as int,
            dist,
            distance as int,
            price as int,
            table_of(old(opt)@, last),
        ),
        frame.fine(final(opt)@, spot.cur as int, result as int),
        same_to(old(opt)@, final(opt)@, spot.cur as int),
        result >= last,
        still_reached(old(opt)@, final(opt)@),
{
    let back: usize = spot.data - distance as usize - 1;
    let limit: usize = if length + 1 + frame.fast > spot.num_avail_full {
        spot.num_avail_full
    } else {
        length + 1 + frame.fast
    };
    let again: usize = agreeing(frame.input, back, spot.data, length + 1, limit);
    if again == 0 {
        return last;
    }
    let literal: usize = spot.data + length;
    let state: usize = if dist < 4 {
        update_rep_state(spot.state)
    } else {
        update_match_state(spot.state)
    };
    let after_literal: usize = if dist < 4 {
        5
    } else {
        4
    };
    let pos_state: usize = frame.costs.shape.pos_state(literal);
    let next_pos_state: usize = frame.costs.shape.pos_state(literal + 1);
    let middle: u32 = frame.costs.literal_flag(state, pos_state) + frame.costs.literal_price(
        frame.input,
        literal,
        true,
        frame.input[back + length],
    );
    let end: u32 = frame.costs.price_rep_0(after_literal, next_pos_state)
        + frame.costs.prices.rep_len_enc.price(next_pos_state, again);
    let way = Optimal {
        price: price + middle + end,
        state: 0,
        extra: (length + 1) as u32,
        len: again as u32,
        dist,
        reps: (0, 0, 0, 0),
    };
    proof {
        lemma_leads_match_literal_rep(
            frame.input@,
            frame.dict@,
            frame.start as int,
            reps_view(spot.reps),
            way,
            spot.cur as int,
            distance as int,
        );
    }
    let (next, _) = offer(
        frame,
        opt,
        last,
        spot.cur + length + 1 + again,
        way,
        false,
        Ghost(spot.cur as int),
    );
    next
}

/// Offers matches at all repeated distances. Says how long new matches have to be to be worth
/// a look.
#[verifier::rlimit(40)]
fn offer_reps(
    frame: &Frame<'_>,
    opt: &mut Vec<Optimal>,
    spot: &Spot,
    last: usize,
) -> (result: (usize, usize))
    requires
        frame.fine(old(opt)@, spot.cur as int, last as int),
        spot_fine(frame, old(opt)@, *spot),
    ensures
        (table_of(final(opt)@, result.0), result.1 as int) == reps_offered(
            frame.field(),
            spot@,
            0,
            2,
            table_of(old(opt)@, last),
        ),
        frame.fine(final(opt)@, spot.cur as int, result.0 as int),
        same_to(old(opt)@, final(opt)@, spot.cur as int),
        result.0 >= last,
        2 <= result.1 <= 274,
        still_reached(old(opt)@, final(opt)@),
{
    let ghost first = last;
    let ghost whole = reps_offered(frame.field(), spot@, 0, 2, table_of(opt@, last));
    let mut last: usize = last;
    let mut start_len: usize = 2;
    let mut index: usize = 0;
    while index < 4
        invariant
            index <= 4,
            whole == reps_offered(frame.field(), spot@, 0, 2, table_of(old(opt)@, first)),
            whole == reps_offered(
                frame.field(),
                spot@,
                index as int,
                start_len as int,
                table_of(opt@, last),
            ),
            first <= last,
            2 <= start_len <= 274,
            frame.fine(opt@, spot.cur as int, last as int),
            spot_fine(frame, opt@, *spot),
            same_to(old(opt)@, opt@, spot.cur as int),
            still_reached(old(opt)@, opt@),
        decreases 4 - index,
    {
        let distance: u32 = rep_at(spot.reps, index);
        assert(0 <= reps_view(spot.reps)[index as int] < spot.data);
        let length: usize = rep_length(frame.input, spot.data, distance, spot.num_avail);
        if length > 0 {
            let price: u32 = spot.rep_match_price + frame.costs.price_pure_rep(
                index,
                spot.state,
                spot.pos_state,
            );
            let ghost before = opt@;
            last = offer_rep(frame, opt, spot, last, index, length, price);
            assert(opt@[spot.cur as int] == before[spot.cur as int]);
            if index == 0 {
                start_len = length + 1;
            }
            let whole: u32 = price + frame.costs.prices.rep_len_enc.price(
                spot.pos_state,
                length,
            );
            assert(repeats(
                frame.input@,
                spot.data as int,
                length as int,
                reps_view(spot.reps)[index as int] + 1,
            ));
            let ghost middle = opt@;
            last = offer_match_literal_rep(
                frame,
                opt,
                spot,
                last,
                length,
                index as u32,
                distance,
                whole,
            );
            assert(opt@[spot.cur as int] == middle[spot.cur as int]);
        }
        index += 1;
    }
    (last, start_len)
}

/// Offers new matches of `from` bytes up to `to`, each length at the nearest distance; where a
/// distance ends and `tails` says so, also with a literal and the same distance after it.
#[verifier::rlimit(40)]
fn offer_matches(
    frame: &Frame<'_>,
    opt: &mut Vec<Optimal>,
    spot: &Spot,
    last: usize,
    matches: &Vec<Match>,
    from: usize,
    to: usize,
    tails: bool,
) -> (result: usize)
    requires
        frame.fine(old(opt)@, spot.cur as int, last as int),
        spot_fine(frame, old(opt)@, *spot),
        valid_matches(
            frame.input@,
            spot.data as int,
            frame.dict@,
            frame.fast as int,
            matches@,
        ),
        2 <= from <= to,
        to <= spot.num_avail,
        matches@.len() > 0,
        to <= matches@.last().len,
    ensures
        table_of(final(opt)@, result) == matches_offered(
            frame.field(),
            spot@,
            matches@,
            0,
            from as int,
            to as int,
            tails,
            table_of(old(opt)@, last),
        ),
        frame.fine(final(opt)@, spot.cur as int, result as int),
        same_to(old(opt)@, final(opt)@, spot.cur as int),
        result >= last,
        still_reached(old(opt)@, final(opt)@),
{
    let ghost first = last;
    let ghost whole = matches_offered(
        frame.field(),
        spot@,
        matches@,
        0,
        from as int,
        to as int,
        tails,
        table_of(opt@, last),
    );
    let mut last: usize = last;
    let normal: u32 = spot.match_price + frame.costs.rep_flag(spot.state, 0);
    let count: usize = matches.len();
    let mut offs: usize = 0;
    let mut len: usize = from;
    while len <= to
        invariant
            whole == matches_offered(
                frame.field(),
                spot@,
                matches@,
                0,
                from as int,
                to as int,
                tails,
                table_of(old(opt)@, first),
            ),
            whole == matches_offered(
                frame.field(),
                spot@,
                matches@,
                offs as int,
                len as int,
                to as int,
                tails,
                table_of(opt@, last),
            ),
            normal == spot.match_price + rep_flag(frame.costs.tariff(), spot.state as int, 0),
            count == matches@.len(),
            2 <= len <= to + 1,
            to <= spot.num_avail,
            first <= last,
            normal <= spot.cur * STEP_LIMIT + 322,
            offs < matches@.len(),
            to <= matches@.last().len,
            frame.fine(opt@, spot.cur as int, last as int),
            spot_fine(frame, opt@, *spot),
            valid_matches(
                frame.input@,
                spot.data as int,
                frame.dict@,
                frame.fast as int,
                matches@,
            ),
            same_to(old(opt)@, opt@, spot.cur as int),
            still_reached(old(opt)@, opt@),
        decreases to + 1 - len,
    {
        let ghost before_skip = offs as int;
        while matches[offs].len < len as u32
            invariant
                count == matches@.len(),
                reaching(matches@, before_skip, len as int) == reaching(
                    matches@,
                    offs as int,
                    len as int,
                ),
                offs < matches@.len(),
                len <= to <= 273,
                to <= matches@.last().len,
            ensures
                offs < matches@.len(),
                matches@[offs as int].len >= len,
            decreases matches@.len() - offs,
        {
            offs += 1;
        }
        let found: Match = matches[offs];
        assert(valid_match(
            frame.input@,
            spot.data as int,
            frame.dict@,
            frame.fast as int,
            matches@[offs as int],
        ));
        let distance: u32 = found.dist;
        assert(repeats(frame.input@, spot.data as int, len as int, distance + 1));
        let price: u32 = normal + frame.costs.prices.len_enc.price(spot.pos_state, len)
            + frame.costs.distance_price(len, distance);
        let way = Optimal {
            price,
            state: 0,
            extra: 0,
            len: len as u32,
            dist: distance + 4,
            reps: (0, 0, 0, 0),
        };
        proof {
            lemma_leads_step(
                frame.input@,
                frame.dict@,
                frame.start as int,
                reps_view(spot.reps),
                way,
                spot.cur as int,
            );
        }
        let ghost before = opt@;
        let (next, _) = offer(
            frame,
            opt,
            last,
            spot.cur + len,
            way,
            false,
            Ghost(spot.cur as int),
        );
        last = next;
        assert(opt@[spot.cur as int] == before[spot.cur as int]);
        if tails && (len as u32 == found.len || len == to) {
            let ghost middle = opt@;
            last = offer_match_literal_rep(
                frame,
                opt,
                spot,
                last,
                len,
                distance + 4,
                distance,
                price,
            );
            assert(opt@[spot.cur as int] == middle[spot.cur as int]);
        }
        len += 1;
    }
    last
}

/// The price of a literal at a cell, with its flag.
fn literal_way(frame: &Frame<'_>, cell: &Optimal, data: usize, expected: u8) -> (price: u32)
    requires
        frame.sound(),
        data < frame.input@.len(),
        cell.state < 12,
        cell.price <= 2048 * STEP_LIMIT,
    ensures
        price == literal_way_price(frame.field(), *cell, data as int, expected),
        cell.price <= price <= cell.price + 1449,
{
    let state: usize = cell.state as usize;
    let pos_state: usize = frame.costs.shape.pos_state(data);
    cell.price + frame.costs.literal_flag(state, pos_state) + frame.costs.literal_price(
        frame.input,
        data,
        state >= 7,
        expected,
    )
}

/// Offers the ways of one byte from a settled cell, which costs `cell.price`.
#[verifier::rlimit(40)]
fn offer_bytes(
    frame: &Frame<'_>,
    opt: &mut Vec<Optimal>,
    cell: &Optimal,
    cur: usize,
    last: usize,
    expected: u8,
    lit_price: u32,
    rep_match_price: u32,
) -> (result: (usize, bool))
    requires
        frame.fine(old(opt)@, cur as int, last as int),
        cur + 1 < NUM_OPTS,
        frame.start + cur < frame.input@.len(),
        *cell == old(opt)@[cur as int],
        cell.price <= cur * STEP_LIMIT,
        cell.state < 12,
        reps_fine(frame.dict@, frame.start + cur, reps_view(cell.reps)),
        expected == expected_at(frame.field(), *cell, cur as int),
        lit_price == literal_way_price(frame.field(), *cell, frame.start + cur, expected),
        lit_price <= cell.price + 1449,
        rep_match_price == stand_at(
            frame.field(),
            *cell,
            cur as int,
            0,
            0,
        ).rep_match_price,
        rep_match_price <= cell.price + 322,
    ensures
        frame.fine(final(opt)@, cur as int, result.0 as int),
        (table_of(final(opt)@, result.0), result.1) == bytes_offered(
            frame.field(),
            *cell,
            cur as int,
            table_of(old(opt)@, last),
        ),
        result.0 > cur,
        final(opt)@[cur + 1].price < INFINITY_PRICE,
        same_to(old(opt)@, final(opt)@, cur as int),
{
    let input: &[u8] = frame.input;
    let size: usize = input.len();
    let data: usize = frame.start + cur;
    let state: usize = cell.state as usize;
    let pos_state: usize = frame.costs.shape.pos_state(data);
    let literal = Optimal {
        price: lit_price,
        state: 0,
        extra: 0,
        len: 1,
        dist: MARK_LIT,
        reps: (0, 0, 0, 0),
    };
    proof {
        lemma_leads_step(
            input@,
            frame.dict@,
            frame.start as int,
            reps_view(cell.reps),
            literal,
            cur as int,
        );
    }
    let (next, taken_literal) = offer(frame, opt, last, cur + 1, literal, false, Ghost(cur as int));
    if input[data] != expected || (opt[cur + 1].len > 1 && opt[cur + 1].dist == 0) {
        return (next, taken_literal);
    }
    let short = Optimal {
        price: rep_match_price + frame.costs.price_short_rep(state, pos_state),
        state: 0,
        extra: 0,
        len: 1,
        dist: 0,
        reps: (0, 0, 0, 0),
    };
    proof {
        assert(0 <= reps_view(cell.reps)[0] < data);
        assert(opt@[cur as int] == old(opt)@[cur as int]);
        assert(repeats(input@, data as int, 1, cell.reps.0 + 1));
        lemma_leads_step(
            input@,
            frame.dict@,
            frame.start as int,
            reps_view(cell.reps),
            short,
            cur as int,
        );
    }
    let ghost middle = opt@;
    let (end, taken_short) = offer(frame, opt, next, cur + 1, short, true, Ghost(cur as int));
    proof {
        assert forall|k: int| 0 <= k <= cur implies #[trigger] opt@[k] == old(opt)@[k] by {
            assert(opt@[k] == middle[k]);
        }
    }
    (end, taken_literal || taken_short)
}

/// Offers the longer ways from a settled cell.
#[verifier::rlimit(40)]
fn offer_runs(
    frame: &Frame<'_>,
    opt: &mut Vec<Optimal>,
    spot: &Spot,
    last: usize,
    lit_price: u32,
    tries_literal: bool,
    matches: &Vec<Match>,
    new_len: usize,
) -> (result: usize)
    requires
        frame.fine(old(opt)@, spot.cur as int, last as int),
        spot_fine(frame, old(opt)@, *spot),
        lit_price <= spot.cur * STEP_LIMIT + 1449,
        valid_matches(
            frame.input@,
            spot.data as int,
            frame.dict@,
            frame.fast as int,
            matches@,
        ),
        new_len == (if matches@.len() == 0 {
            0
        } else {
            matches@.last().len
        }),
    ensures
        frame.fine(final(opt)@, spot.cur as int, result as int),
        table_of(final(opt)@, result) == runs_offered(
            frame.field(),
            spot@,
            lit_price as int,
            tries_literal,
            matches@,
            new_len as int,
            table_of(old(opt)@, last),
        ),
        result >= last,
        same_to(old(opt)@, final(opt)@, spot.cur as int),
        still_reached(old(opt)@, final(opt)@),
{
    let mut last: usize = last;
    if tries_literal && spot.num_avail_full > 2 {
        last = offer_literal_rep(frame, opt, spot, last, lit_price);
        assert(opt@[spot.cur as int] == old(opt)@[spot.cur as int]);
    }
    let ghost before = opt@;
    let (next, start_len) = offer_reps(frame, opt, spot, last);
    last = next;
    assert(opt@[spot.cur as int] == before[spot.cur as int]);
    let to: usize = if new_len < spot.num_avail {
        new_len
    } else {
        spot.num_avail
    };
    if to >= start_len {
        last = offer_matches(frame, opt, spot, last, matches, start_len, to, true);
    }
    last
}

/// Settles the cell `cur`, from which `num_avail` bytes are left, and offers all ways from it.
#[verifier::rlimit(40)]
fn advance(
    frame: &Frame<'_>,
    opt: &mut Vec<Optimal>,
    cur: usize,
    last: usize,
    num_avail: usize,
    matches: &Vec<Match>,
    new_len: usize,
) -> (result: usize)
    requires
        1 <= cur < last,
        cur < NUM_OPTS - 64,
        frame.fine(old(opt)@, cur - 1, last as int),
        old(opt)@[cur as int].price < INFINITY_PRICE,
        num_avail == frame.input@.len() - frame.start - cur,
        valid_matches(
            frame.input@,
            frame.start + cur,
            frame.dict@,
            frame.fast as int,
            matches@,
        ),
        new_len == (if matches@.len() == 0 {
            0
        } else {
            matches@.last().len
        }),
    ensures
        table_of(final(opt)@, result) == went_on_from(
            frame.field(),
            table_of(old(opt)@, last),
            cur as int,
            num_avail as int,
            matches@,
            new_len as int,
        ),
        frame.fine(final(opt)@, cur as int, result as int),
        result > cur,
        final(opt)@[cur + 1].price < INFINITY_PRICE,
        final(opt)@[0] == old(opt)@[0],
{
    let input: &[u8] = frame.input;
    let size: usize = input.len();
    settle(
        opt,
        cur,
        Ghost(input@),
        Ghost(frame.dict@),
        Ghost(frame.start as int),
        Ghost(last as int),
    );
    let cell: Optimal = opt[cur];
    let ghost settled_table = opt@;
    proof {
        reveal(went_on_from);
        assert(opt@[cur as int].price != INFINITY_PRICE);
        assert(cell.state < 12);
        assert(reps_fine(frame.dict@, frame.start + cur, reps_view(opt@[cur as int].reps)));
        assert(0 <= reps_view(cell.reps)[0] < frame.start + cur);
    }
    let data: usize = frame.start + cur;
    let state: usize = cell.state as usize;
    let pos_state: usize = frame.costs.shape.pos_state(data);
    let expected: u8 = input[data - cell.reps.0 as usize - 1];
    let match_price: u32 = cell.price + frame.costs.match_flag(state, pos_state);
    let rep_match_price: u32 = match_price + frame.costs.rep_flag(state, 1);
    let lit_price: u32 = literal_way(frame, &cell, data, expected);
    let (near, next_is_lit) = offer_bytes(
        frame,
        opt,
        &cell,
        cur,
        last,
        expected,
        lit_price,
        rep_match_price,
    );
    let room: usize = NUM_OPTS - 1 - cur;
    let full: usize = if num_avail < room {
        num_avail
    } else {
        room
    };
    if full < 2 {
        return near;
    }
    let spot = Spot {
        data,
        cur,
        state,
        pos_state,
        reps: cell.reps,
        match_price,
        rep_match_price,
        num_avail: if full < frame.fast {
            full
        } else {
            frame.fast
        },
        num_avail_full: full,
    };
    assert(opt@[cur as int] == settled_table[cur as int]);
    let ghost before = opt@;
    let tries_literal: bool = !next_is_lit && input[data] != expected;
    let end: usize = offer_runs(
        frame,
        opt,
        &spot,
        near,
        lit_price,
        tries_literal,
        matches,
        new_len,
    );
    proof {
        assert(before[cur + 1].price < INFINITY_PRICE);
        assert(opt@[0] == before[0]);
        assert(before[0] == settled_table[0]);
        assert(spot@ =~= stand_at(
            frame.field(),
            cell,
            cur as int,
            spot.num_avail as int,
            full as int,
        ));
    }
    end
}

/// The table between two searches: nothing but the first cells has been reached.
pub open spec fn fresh(opt: Seq<Optimal>) -> bool {
    &&& opt.len() == NUM_OPTS
    &&& forall|j: int| 1 <= j < NUM_OPTS ==> #[trigger] opt[j] == blank()
}

/// Lengths as numbers.
pub open spec fn lens_of(lens: Seq<usize>) -> Seq<int> {
    Seq::new(lens.len(), |i: int| lens[i] as int)
}

/// How far each of the last distances repeats, and which does so the furthest.
#[verifier::rlimit(40)]
fn rep_lengths(input: &[u8], data: usize, reps: (u32, u32, u32, u32), num_avail: usize) -> (found: (
    [usize; 4],
    usize,
))
    requires
        data + num_avail <= input@.len(),
        num_avail <= 273,
        forall|i: int| 0 <= i < 4 ==> 0 <= #[trigger] reps_view(reps)[i] < data,
    ensures
        found.1 < 4,
        lens_of(found.0@) == rep_lens_from(
            input@,
            data as int,
            reps_view(reps),
            num_avail as int,
            0,
            seq![0int, 0, 0, 0],
        ),
        found.1 == longest_rep(lens_of(found.0@), 4),
        forall|i: int|
            0 <= i < 4 ==> {
                let length = #[trigger] found.0@[i];
                length == 0 || 2 <= length <= num_avail
            },
        forall|i: int, n: int|
            0 <= i < 4 && 0 <= n <= found.0@[i] && found.0@[i] > 0 ==> #[trigger] repeats(
                input@,
                data as int,
                n,
                reps_view(reps)[i] + 1,
            ),
        forall|i: int| 0 <= i < 4 ==> #[trigger] found.0@[i] <= found.0@[found.1 as int],
{
    let mut lengths: [usize; 4] = [0, 0, 0, 0];
    let mut best: usize = 0;
    let mut index: usize = 0;
    let ghost whole = rep_lens_from(
        input@,
        data as int,
        reps_view(reps),
        num_avail as int,
        0,
        seq![0int, 0, 0, 0],
    );
    assert(lens_of(lengths@) =~= seq![0int, 0, 0, 0]);
    while index < 4
        invariant
            index <= 4,
            whole == rep_lens_from(
                input@,
                data as int,
                reps_view(reps),
                num_avail as int,
                0,
                seq![0int, 0, 0, 0],
            ),
            whole == rep_lens_from(
                input@,
                data as int,
                reps_view(reps),
                num_avail as int,
                index as int,
                lens_of(lengths@),
            ),
            best == longest_rep(lens_of(lengths@), index as nat),
            best < 4,
            data + num_avail <= input@.len(),
            num_avail <= 273,
            forall|i: int| 0 <= i < 4 ==> 0 <= #[trigger] reps_view(reps)[i] < data,
            forall|i: int|
                0 <= i < 4 ==> {
                    let length = #[trigger] lengths@[i];
                    length == 0 || 2 <= length <= num_avail
                },
            forall|i: int| index <= i < 4 ==> #[trigger] lengths@[i] == 0,
            forall|i: int, n: int|
                0 <= i < 4 && 0 <= n <= lengths@[i] && lengths@[i] > 0 ==> #[trigger] repeats(
                    input@,
                    data as int,
                    n,
                    reps_view(reps)[i] + 1,
                ),
            forall|i: int| 0 <= i < 4 ==> #[trigger] lengths@[i] <= lengths@[best as int],
        decreases 4 - index,
    {
        assert(0 <= reps_view(reps)[index as int] < data);
        let length: usize = rep_length(input, data, rep_at(reps, index), num_avail);
        let ghost before = lens_of(lengths@);
        lengths[index] = length;
        if length > lengths[best] {
            best = index;
        }
        proof {
            reveal_with_fuel(longest_rep, 5);
            assert(lens_of(lengths@) =~= before.update(index as int, length as int));
        }
        index += 1;
        if length == MATCH_LEN_MAX {
            return (lengths, best);
        }
    }
    (lengths, best)
}

/// A way of one step.
fn single(input: &[u8], data: usize, len: u32, dist: u32, Ghost(dict): Ghost<int>, Ghost(
    reps,
): Ghost<Seq<int>>) -> (path: Vec<Action>)
    requires
        data < input@.len(),
        applies(input@, dict, data as int, reps, step_of(input@[data as int], len as int, dist)),
        dist == MARK_LIT ==> len == 1,
    ensures
        plan(path@) == seq![step_of(input@[data as int], len as int, dist)],
        runs(input@, dict, data as int, reps, plan(path@)),
        total(plan(path@)) == len,
{
    let action = action_of(input[data], len, dist);
    let path: Vec<Action> = vec![action];
    proof {
        reveal_with_fuel(runs, 2);
        reveal_with_fuel(total, 2);
        assert(plan(path@) =~= seq![action@]);
        assert(plan(path@).drop_first() =~= Seq::<Operation>::empty());
    }
    path
}

/// Forgets the ways that were found.
fn forget(opt: &mut Vec<Optimal>, last: usize)
    requires
        old(opt)@.len() == NUM_OPTS,
        last < NUM_OPTS,
        forall|j: int| last < j < NUM_OPTS ==> #[trigger] old(opt)@[j] == blank(),
    ensures
        fresh(final(opt)@),
{
    let mut left: usize = last;
    while left > 0
        invariant
            left <= last < NUM_OPTS,
            opt@.len() == NUM_OPTS,
            forall|j: int| left < j < NUM_OPTS ==> #[trigger] opt@[j] == blank(),
        decreases left,
    {
        opt.set(left, Optimal::default());
        left -= 1;
    }
}

/// The cell with the lowest price from `cur` on, the last of those that cost the same.
fn cheapest(opt: &Vec<Optimal>, cur: usize, last: usize) -> (best: usize)
    requires
        cur <= last < opt@.len(),
    ensures
        best == cheapest_of(opt@, cur as int, last as int),
        cur <= best <= last,
        opt@[best as int].price <= opt@[cur as int].price,
        forall|j: int|
            cur <= j <= last ==> opt@[best as int].price <= (#[trigger] opt@[j]).price,
{
    let size: usize = opt.len();
    let mut best: usize = cur;
    let mut j: usize = cur + 1;
    while j <= last
        invariant
            size == opt@.len(),
            best == cheapest_of(opt@, cur as int, j - 1),
            cur <= best < j <= last + 1,
            last < opt@.len(),
            forall|k: int| cur <= k < j ==> opt@[best as int].price <= (#[trigger] opt@[k]).price,
        decreases last + 1 - j,
    {
        if opt[best].price >= opt[j].price {
            best = j;
        }
        j += 1;
    }
    best
}

/// The ways from the first cell: a literal, a repeated byte and all matches there.
#[verifier::rlimit(40)]
fn seed(
    frame: &Frame<'_>,
    opt: &mut Vec<Optimal>,
    state: usize,
    reps: (u32, u32, u32, u32),
    rep_lens: &[usize; 4],
    main_len: usize,
    num_avail: usize,
    matches: &Vec<Match>,
) -> (last: usize)
    requires
        frame.sound(),
        fresh(old(opt)@),
        state < 12,
        reps_fine(frame.dict@, frame.start as int, reps_view(reps)),
        2 <= num_avail <= 273,
        frame.start + num_avail <= frame.input@.len(),
        forall|i: int|
            0 <= i < 4 ==> {
                let length = #[trigger] rep_lens@[i];
                length == 0 || 2 <= length <= num_avail
            },
        forall|i: int, n: int|
            0 <= i < 4 && 0 <= n <= rep_lens@[i] && rep_lens@[i] > 0 ==> #[trigger] repeats(
                frame.input@,
                frame.start as int,
                n,
                reps_view(reps)[i] + 1,
            ),
        valid_matches(
            frame.input@,
            frame.start as int,
            frame.dict@,
            frame.fast as int,
            matches@,
        ),
        main_len == (if matches@.len() == 0 {
            0
        } else {
            matches@.last().len
        }),
        main_len <= num_avail,
    ensures
        table_of(final(opt)@, last) == seeded(
            frame.field(),
            state as int,
            reps,
            lens_of(rep_lens@),
            main_len as int,
            num_avail as int,
            matches@,
        ),
        frame.fine(final(opt)@, 0, last as int),
        last >= 1,
        final(opt)@[1].price < INFINITY_PRICE,
        final(opt)@[0].reps == reps,
        forall|j: int|
            last < j < NUM_OPTS ==> (#[trigger] final(opt)@[j]).price == INFINITY_PRICE,
{
    let input: &[u8] = frame.input;
    let data: usize = frame.start;
    opt.set(
        0,
        Optimal { price: 0, state: state as u32, extra: 0, len: 0, dist: 0, reps },
    );
    assert(opt@ =~= first_table(state as int, reps));
    assert(frame.fine(opt@, 0, 0));
    let ghost f = frame.field();
    let ghost lens = lens_of(rep_lens@);
    assert(0 <= reps_view(reps)[0] < data);
    let start_cell: Optimal = opt[0];
    let pos_state: usize = frame.costs.shape.pos_state(data);
    let cur_byte: u8 = input[data];
    let match_byte: u8 = input[data - reps.0 as usize - 1];
    let match_price: u32 = frame.costs.match_flag(state, pos_state);
    let rep_match_price: u32 = match_price + frame.costs.rep_flag(state, 1);
    let literal = Optimal {
        price: literal_way(frame, &start_cell, data, match_byte),
        state: 0,
        extra: 0,
        len: 1,
        dist: MARK_LIT,
        reps: (0, 0, 0, 0),
    };
    proof {
        lemma_leads_step(input@, frame.dict@, data as int, reps_view(reps), literal, 0);
    }
    let (next, _) = offer(frame, opt, 0, 1, literal, false, Ghost(0));
    let mut last: usize = next;
    if match_byte == cur_byte {
        let short = Optimal {
            price: rep_match_price + frame.costs.price_short_rep(state, pos_state),
            state: 0,
            extra: 0,
            len: 1,
            dist: 0,
            reps: (0, 0, 0, 0),
        };
        proof {
            assert(repeats(input@, data as int, 1, reps.0 + 1));
            lemma_leads_step(input@, frame.dict@, data as int, reps_view(reps), short, 0);
        }
        let (next, _) = offer(frame, opt, last, 1, short, false, Ghost(0));
        last = next;
    }
    let spot = Spot {
        data,
        cur: 0,
        state,
        pos_state,
        reps,
        match_price,
        rep_match_price,
        num_avail,
        num_avail_full: num_avail,
    };
    let mut index: usize = 0;
    let ghost near = table_of(opt@, last);
    proof {
        reveal(seeded);
        assert(spot@ =~= stand_at(
            f,
            start_cell,
            0,
            num_avail as int,
            num_avail as int,
        ));
    }
    while index < 4
        invariant
            index <= 4,
            f == frame.field(),
            lens == lens_of(rep_lens@),
            reps_seeded(f, spot@, 0, lens, near) == reps_seeded(
                f,
                spot@,
                index as int,
                lens,
                table_of(opt@, last),
            ),
            1 <= last,
            frame.fine(opt@, 0, last as int),
            spot_fine(frame, opt@, spot),
            spot.reps == reps,
            spot.cur == 0,
            spot.data == frame.start,
            spot.num_avail_full == num_avail,
            num_avail <= 273,
            opt@[1].price < INFINITY_PRICE,
            opt@[0].reps == reps,
            forall|i: int|
                0 <= i < 4 ==> {
                    let length = #[trigger] rep_lens@[i];
                    length == 0 || 2 <= length <= num_avail
                },
            forall|i: int, n: int|
                0 <= i < 4 && 0 <= n <= rep_lens@[i] && rep_lens@[i] > 0 ==> #[trigger] repeats(
                    frame.input@,
                    frame.start as int,
                    n,
                    reps_view(reps)[i] + 1,
                ),
        decreases 4 - index,
    {
        let length: usize = rep_lens[index];
        if length >= 2 {
            let price: u32 = spot.rep_match_price + frame.costs.price_pure_rep(
                index,
                spot.state,
                spot.pos_state,
            );
            let ghost before = opt@;
            assert(length == rep_lens@[index as int]);
            last = offer_rep(frame, opt, &spot, last, index, length, price);
            assert(opt@[0] == before[0]);
            assert(before[1].price < INFINITY_PRICE);
        }
        index += 1;
    }
    let from: usize = if rep_lens[0] < 1 {
        2
    } else {
        rep_lens[0] + 1
    };
    if from <= main_len {
        let ghost before = opt@;
        last = offer_matches(frame, opt, &spot, last, matches, from, main_len, false);
        assert(opt@[0] == before[0]);
        assert(before[1].price < INFINITY_PRICE);
    }
    last
}

/// Searches for a cheap way from the start of the frame on, and returns its steps in reverse
/// order. The search is left behind the way, or one byte further with what was found there.
#[verifier::rlimit(40)]
pub fn get_optimum(
    frame: &Frame<'_>,
    search: &mut Search<'_>,
    opt: &mut Vec<Optimal>,
    state: usize,
    reps: (u32, u32, u32, u32),
) -> (path: Vec<Action>)
    requires
        frame.sound(),
        old(search).at(frame.start as int),
        old(search).input() == frame.input@,
        old(search).finder.window() == frame.dict@,
        old(search).finder.match_max_len == frame.fast,
        fresh(old(opt)@),
        state < 12,
        reps_fine(frame.dict@, frame.start as int, reps_view(reps)),
    ensures
        (plan(path@), final(search)@) == optimum(
            frame.field(),
            old(search)@,
            state as int,
            reps,
        ),
        runs(frame.input@, frame.dict@, frame.start as int, reps_view(reps), plan(path@)),
        total(plan(path@)) >= 1,
        final(search).at(frame.start + total(plan(path@))),
        final(search).finder.same_search(&old(search).finder),
        fresh(final(opt)@),
{
    let input: &[u8] = frame.input;
    let size: usize = input.len();
    let data: usize = frame.start;
    if search.ahead == 0 {
        search.read_match_distances();
    }
    let main_len: usize = search.longest;
    if search.num_avail < 2 {
        search.ahead = 0;
        return single(input, data, 1, MARK_LIT, Ghost(frame.dict@), Ghost(reps_view(reps)));
    }
    let num_avail: usize = if search.num_avail > MATCH_LEN_MAX {
        MATCH_LEN_MAX
    } else {
        search.num_avail
    };
    proof {
        assert forall|i: int| 0 <= i < 4 implies 0 <= #[trigger] reps_view(reps)[i] < data by {}
    }
    let (rep_lens, rep_max) = rep_lengths(input, data, reps, num_avail);
    let rep_len: usize = rep_lens[rep_max];
    if rep_len >= frame.fast {
        proof {
            assert(rep_lens@[rep_max as int] == rep_len);
            assert(repeats(
                input@,
                data as int,
                rep_len as int,
                reps_view(reps)[rep_max as int] + 1,
            ));
        }
        search.move_pos(rep_len - 1);
        search.ahead = 0;
        return single(
            input,
            data,
            rep_len as u32,
            rep_max as u32,
            Ghost(frame.dict@),
            Ghost(reps_view(reps)),
        );
    }
    if main_len >= frame.fast {
        let count: usize = search.matches.len();
        let nearest: Match = search.matches[count - 1];
        assert(valid_match(
            input@,
            data as int,
            frame.dict@,
            frame.fast as int,
            search.matches@[count - 1],
        ));
        search.move_pos(main_len - 1);
        search.ahead = 0;
        return single(
            input,
            data,
            main_len as u32,
            nearest.dist + 4,
            Ghost(frame.dict@),
            Ghost(reps_view(reps)),
        );
    }
    assert(0 <= reps_view(reps)[0] < data);
    let same_byte: bool = input[data] == input[data - reps.0 as usize - 1];
    if rep_len < 2 && main_len < 2 && !same_byte {
        search.ahead = 0;
        return single(input, data, 1, MARK_LIT, Ghost(frame.dict@), Ghost(reps_view(reps)));
    }
    proof {
        if search.matches@.len() > 0 {
            assert(valid_match(
                input@,
                data as int,
                frame.dict@,
                frame.fast as int,
                search.matches@.last(),
            ));
        }
    }
    let mut last: usize = seed(
        frame,
        opt,
        state,
        reps,
        &rep_lens,
        main_len,
        num_avail,
        &search.matches,
    );
    let mut cur: usize = 1;
    let mut goal: usize = 1;
    let mut done: bool = last == 1;
    let ghost f = frame.field();
    let ghost whole = searched(f, table_of(opt@, last), search@, 1);
    let ghost beginning = search@;
    let ghost table = table_of(opt@, last);
    while !done
        invariant
            f == frame.field(),
            whole == searched(f, table, beginning, 1),
            !done ==> whole == searched(f, table_of(opt@, last), search@, cur as int),
            done ==> whole == (crate::codecs::sdk::choice::Search {
                table: table_of(opt@, last),
                seeker: search@,
                goal: goal as int,
            }),
            !done ==> 1 <= cur < last,
            !done ==> search.ahead == cur,
            done ==> 1 <= goal <= last && goal >= cur && (search.ahead == goal || search.ahead == goal + 1
                && search.stored_at(frame.start + goal)),
            done ==> opt@[goal as int].price < INFINITY_PRICE,
            cur >= 1,
            search.sound(),
            search.finder.same_search(&old(search).finder),
            search.finder.index() == frame.start + search.ahead,
            size == input@.len(),
            input == frame.input,
            search.input() == frame.input@,
            search.finder.window() == frame.dict@,
            search.finder.match_max_len == frame.fast,
            frame.fine(opt@, cur - 1, last as int),
            opt@[cur as int].price < INFINITY_PRICE,
            opt@[0].reps == reps,
        decreases NUM_OPTS - cur + (if done {
            0int
        } else {
            1
        }),
    {
        if cur >= NUM_OPTS - 64 {
            goal = cheapest(opt, cur, last);
            search.move_pos(goal - cur);
            done = true;
        } else {
            search.read_match_distances();
            let new_len: usize = search.longest;
            if new_len >= frame.fast {
                goal = cur;
                done = true;
            } else {
                last = advance(
                    frame,
                    opt,
                    cur,
                    last,
                    search.num_avail,
                    &search.matches,
                    new_len,
                );
                cur += 1;
                if cur == last {
                    goal = cur;
                    done = true;
                    assert(whole == searched(f, table_of(opt@, last), search@, cur as int));
                }
            }
        }
    }
    let path = backward(
        opt,
        input,
        data,
        goal,
        Ghost(frame.dict@),
        Ghost(cur - 1),
        Ghost(last as int),
    );
    search.ahead = search.ahead - goal;
    forget(opt, last);
    path
}

} // verus!
