//! The table of cheapest ways to get from one position to later ones.

use vstd::prelude::*;

use crate::codecs::lzma::decoding::{
    move_rep, reps_view, update_literal_state, update_match_state, update_rep_state,
    update_short_rep_state, Action,
};
use crate::codecs::lzma::operations::{
    continues, operation_length, reps_after_match, reps_after_rep, History, Operation, Shape,
};
use crate::codecs::matchfinder::repeats;
use crate::codecs::sdk::choice::{blank, settled_at, way_to};

verus! {

/// How many positions the table covers.
pub const NUM_OPTS: usize = 2048;

/// The price of what has not been reached.
pub const INFINITY_PRICE: u32 = 0x4000_0000;

/// Stands for a literal.
pub const MARK_LIT: u32 = 0xffff_ffff;

/// No step adds more to the price.
pub const STEP_LIMIT: u32 = 20000;

/// The cheapest known way to a position. The last step has `len` bytes. With `extra` one, a
/// literal comes before it; with `extra` above one, a match of `extra - 1` bytes and a literal
/// come before it, and the step uses the distance of that match again.
#[derive(Debug, Clone, Copy)]
pub struct Optimal {
    pub price: u32,
    pub state: u32,
    pub extra: u32,
    pub len: u32,
    pub dist: u32,
    pub reps: (u32, u32, u32, u32),
}

impl Default for Optimal {
    fn default() -> (cell: Self)
        ensures
            cell == blank(),
    {
        Optimal {
            price: INFINITY_PRICE,
            state: 0,
            extra: 0,
            len: 0,
            dist: 0,
            reps: (0, 0, 0, 0),
        }
    }
}

/// The operation can be done at `position` after the given distances.
pub open spec fn applies(
    input: Seq<u8>,
    dict: int,
    position: int,
    reps: Seq<int>,
    op: Operation,
) -> bool {
    &&& 0 <= position < input.len()
    &&& match op {
        Operation::Literal(byte) => byte == input[position],
        Operation::ShortRep => repeats(input, position, 1, reps[0] + 1),
        Operation::Rep { index, length } => 0 <= index < 4 && 2 <= length <= 273 && repeats(
            input,
            position,
            length,
            reps[index] + 1,
        ),
        Operation::Match { length, distance } => 2 <= length <= 273 && 0 <= distance < dict
            && repeats(input, position, length, distance + 1),
    }
}

/// The last distances after an operation.
pub open spec fn reps_after(reps: Seq<int>, op: Operation) -> Seq<int> {
    match op {
        Operation::Literal(_) => reps,
        Operation::ShortRep => reps,
        Operation::Rep { index, length } => reps_after_rep(reps, index),
        Operation::Match { length, distance } => reps_after_match(reps, distance),
    }
}

/// The last distances after several operations.
pub open spec fn reps_after_all(reps: Seq<int>, ops: Seq<Operation>) -> Seq<int>
    decreases ops.len(),
{
    if ops.len() == 0 {
        reps
    } else {
        reps_after_all(reps_after(reps, ops[0]), ops.drop_first())
    }
}

/// How many bytes operations append.
pub open spec fn total(ops: Seq<Operation>) -> int
    decreases ops.len(),
{
    if ops.len() == 0 {
        0
    } else {
        operation_length(ops[0]) + total(ops.drop_first())
    }
}

/// The operations can be done one after the other.
pub open spec fn runs(
    input: Seq<u8>,
    dict: int,
    position: int,
    reps: Seq<int>,
    ops: Seq<Operation>,
) -> bool
    decreases ops.len(),
{
    if ops.len() == 0 {
        true
    } else {
        applies(input, dict, position, reps, ops[0]) && runs(
            input,
            dict,
            position + operation_length(ops[0]),
            reps_after(reps, ops[0]),
            ops.drop_first(),
        )
    }
}

/// The last distances lie within the window and within the output.
pub open spec fn reps_fine(dict: int, position: int, reps: Seq<int>) -> bool {
    &&& reps.len() == 4
    &&& forall|i: int| 0 <= i < 4 ==> 0 <= #[trigger] reps[i] < dict && reps[i] < position
}

pub proof fn lemma_applies(
    shape: Shape,
    input: Seq<u8>,
    dict: int,
    h: History,
    op: Operation,
)
    requires
        0 <= h.state < 12,
        dict <= shape.dict,
        dict <= 0xffff_ffff,
        reps_fine(dict, h.out.len() as int, h.reps),
        applies(input, dict, h.out.len() as int, h.reps, op),
    ensures
        continues(shape, h, op, input),
        reps_fine(dict, h.out.len() + operation_length(op), reps_after(h.reps, op)),
        h.out.len() + operation_length(op) <= input.len(),
        operation_length(op) >= 1,
{
    lemma_reps_after(input, dict, h.out.len() as int, h.reps, op);
}

pub proof fn lemma_reps_after(
    input: Seq<u8>,
    dict: int,
    position: int,
    reps: Seq<int>,
    op: Operation,
)
    requires
        reps_fine(dict, position, reps),
        applies(input, dict, position, reps, op),
    ensures
        reps_fine(dict, position + operation_length(op), reps_after(reps, op)),
        position + operation_length(op) <= input.len(),
        operation_length(op) >= 1,
{
    let after = reps_after(reps, op);
    assert(0 <= reps[0] < dict && reps[0] < position);
    assert(0 <= reps[1] < dict && reps[1] < position);
    assert(0 <= reps[2] < dict && reps[2] < position);
    assert(0 <= reps[3] < dict && reps[3] < position);
}

pub proof fn lemma_runs_reps(
    input: Seq<u8>,
    dict: int,
    position: int,
    reps: Seq<int>,
    ops: Seq<Operation>,
)
    requires
        reps_fine(dict, position, reps),
        position <= input.len(),
        runs(input, dict, position, reps, ops),
    ensures
        reps_fine(dict, position + total(ops), reps_after_all(reps, ops)),
        position + total(ops) <= input.len(),
        total(ops) >= 0,
        ops.len() > 0 ==> total(ops) >= 1,
    decreases ops.len(),
{
    if ops.len() > 0 {
        lemma_reps_after(input, dict, position, reps, ops[0]);
        lemma_runs_reps(
            input,
            dict,
            position + operation_length(ops[0]),
            reps_after(reps, ops[0]),
            ops.drop_first(),
        );
    }
}

/// Operations followed by others.
pub proof fn lemma_runs_append(
    input: Seq<u8>,
    dict: int,
    position: int,
    reps: Seq<int>,
    first: Seq<Operation>,
    rest: Seq<Operation>,
)
    requires
        runs(input, dict, position, reps, first),
        runs(input, dict, position + total(first), reps_after_all(reps, first), rest),
    ensures
        runs(input, dict, position, reps, first + rest),
        total(first + rest) == total(first) + total(rest),
    decreases first.len(),
{
    if first.len() == 0 {
        assert(first + rest =~= rest);
    } else {
        lemma_runs_append(
            input,
            dict,
            position + operation_length(first[0]),
            reps_after(reps, first[0]),
            first.drop_first(),
            rest,
        );
        assert((first + rest).drop_first() =~= first.drop_first() + rest);
    }
}

/// The operation that a length and a coded distance stand for.
pub open spec fn step_of(byte: u8, len: int, dist: u32) -> Operation {
    if dist == MARK_LIT {
        Operation::Literal(byte)
    } else if dist == 0 && len == 1 {
        Operation::ShortRep
    } else if dist < 4 {
        Operation::Rep { index: dist as int, length: len }
    } else {
        Operation::Match { length: len, distance: dist - 4 }
    }
}

/// The operations of a cell, done at `position`.
pub open spec fn steps_of(input: Seq<u8>, position: int, cell: Optimal) -> Seq<Operation> {
    if cell.extra == 0 {
        seq![step_of(input[position], cell.len as int, cell.dist)]
    } else if cell.extra == 1 {
        seq![
            Operation::Literal(input[position]),
            step_of(input[position + 1], cell.len as int, cell.dist),
        ]
    } else {
        seq![
            step_of(input[position], cell.extra - 1, cell.dist),
            Operation::Literal(input[position + cell.extra - 1]),
            Operation::Rep { index: 0, length: cell.len as int },
        ]
    }
}

/// Where the operations of the cell at `j` start.
pub open spec fn source(cell: Optimal, j: int) -> int {
    j - cell.len - cell.extra
}

/// The operations of a cell lead from its source to it.
pub open spec fn leads(
    input: Seq<u8>,
    dict: int,
    start: int,
    reps: Seq<int>,
    cell: Optimal,
    j: int,
) -> bool {
    let from = start + source(cell, j);
    &&& 0 <= source(cell, j) < j
    &&& cell.dist == MARK_LIT ==> cell.len == 1 && cell.extra == 0
    &&& runs(input, dict, from, reps, steps_of(input, from, cell))
}

pub proof fn lemma_steps_total(
    input: Seq<u8>,
    dict: int,
    start: int,
    reps: Seq<int>,
    cell: Optimal,
    j: int,
)
    requires
        leads(input, dict, start, reps, cell, j),
    ensures
        total(steps_of(input, start + source(cell, j), cell)) == j - source(cell, j),
        steps_of(input, start + source(cell, j), cell).len() > 0,
        cell.len >= 1,
{
    reveal_with_fuel(total, 4);
    reveal_with_fuel(runs, 4);
    let ops = steps_of(input, start + source(cell, j), cell);
    if cell.extra == 0 {
        assert(ops.drop_first() =~= Seq::<Operation>::empty());
    } else if cell.extra == 1 {
        assert(ops.drop_first() =~= seq![ops[1]]);
        assert(ops.drop_first().drop_first() =~= Seq::<Operation>::empty());
    } else {
        assert(ops.drop_first() =~= seq![ops[1], ops[2]]);
        assert(ops.drop_first().drop_first() =~= seq![ops[2]]);
        assert(ops.drop_first().drop_first().drop_first() =~= Seq::<Operation>::empty());
    }
}

/// A cell that is written leads from a settled cell.
pub open spec fn cell_fine(
    input: Seq<u8>,
    dict: int,
    start: int,
    opt: Seq<Optimal>,
    cur: int,
    j: int,
) -> bool {
    let cell = opt[j];
    let from = source(cell, j);
    &&& 0 <= from <= cur
    &&& leads(input, dict, start, reps_view(opt[from].reps), cell, j)
    &&& cell.price <= j * STEP_LIMIT
}

/// A settled cell has the state and the distances of the way to it.
pub open spec fn settled(
    input: Seq<u8>,
    dict: int,
    start: int,
    opt: Seq<Optimal>,
    j: int,
) -> bool {
    let cell = opt[j];
    let from = source(cell, j);
    &&& cell.price < INFINITY_PRICE
    &&& reps_view(cell.reps) == reps_after_all(
        reps_view(opt[from].reps),
        steps_of(input, start + from, cell),
    )
}

/// The table, with the cells up to `cur` settled and none after `last` reached.
pub open spec fn table_fine(
    input: Seq<u8>,
    dict: int,
    start: int,
    opt: Seq<Optimal>,
    cur: int,
    last: int,
) -> bool {
    &&& opt.len() == NUM_OPTS
    &&& 0 <= cur <= last < NUM_OPTS
    &&& 0 <= start
    &&& start + last <= input.len()
    &&& 1 <= dict
    &&& forall|j: int| 0 <= j <= cur ==> (#[trigger] opt[j]).state < 12 && reps_fine(
            dict,
            start + j,
            reps_view(opt[j].reps),
        )
    &&& forall|j: int| 1 <= j <= cur ==> settled(input, dict, start, opt, j) && (#[trigger] opt[j]).price
            < INFINITY_PRICE
    &&& forall|j: int|
        1 <= j < NUM_OPTS && (#[trigger] opt[j]).price != INFINITY_PRICE ==> opt[j].price
            < INFINITY_PRICE && j <= last && cell_fine(input, dict, start, opt, cur, j)
}

/// Offers a way from the cell `cur` to the cell `j`; it is taken if it is cheaper, or equally
/// cheap where `ties` says so.
#[verifier::rlimit(40)]
pub fn relax(
    opt: &mut Vec<Optimal>,
    j: usize,
    way: Optimal,
    ties: bool,
    Ghost(input): Ghost<Seq<u8>>,
    Ghost(dict): Ghost<int>,
    Ghost(start): Ghost<int>,
    Ghost(cur): Ghost<int>,
    Ghost(last): Ghost<int>,
) -> (taken: bool)
    requires
        table_fine(input, dict, start, old(opt)@, cur, last),
        cur < j < NUM_OPTS,
        start + j <= input.len(),
        way.price <= j * STEP_LIMIT,
        source(way, j as int) == cur,
        leads(input, dict, start, reps_view(old(opt)@[cur].reps), way, j as int),
    ensures
        table_fine(
            input,
            dict,
            start,
            final(opt)@,
            cur,
            if last < j {
                j as int
            } else {
                last
            },
        ),
        taken == (way.price < old(opt)@[j as int].price || ties && way.price == old(
            opt,
        )@[j as int].price),
        final(opt)@[j as int].price < INFINITY_PRICE,
        !taken ==> final(opt)@ == old(opt)@,
        taken ==> final(opt)@ == old(opt)@.update(j as int, way),
{
    let price: u32 = opt[j].price;
    if way.price < price || ties && way.price == price {
        opt.set(j, way);
        proof {
            assert forall|k: int|
                1 <= k < NUM_OPTS && (#[trigger] opt@[k]).price
                    != INFINITY_PRICE implies opt@[k].price < INFINITY_PRICE && k <= (if last < j {
                j as int
            } else {
                last
            }) && cell_fine(input, dict, start, opt@, cur, k) by {
                if k != j {
                    assert(old(opt)@[k] == opt@[k]);
                    assert(cell_fine(input, dict, start, old(opt)@, cur, k));
                }
            }
            assert forall|k: int| 1 <= k <= cur implies settled(input, dict, start, opt@, k) && (
            #[trigger] opt@[k]).price < INFINITY_PRICE by {
                assert(old(opt)@[k] == opt@[k]);
                assert(settled(input, dict, start, old(opt)@, k));
                assert(cell_fine(input, dict, start, old(opt)@, cur, k));
            }
            assert forall|k: int| 0 <= k <= cur implies (#[trigger] opt@[k]).state < 12
                && reps_fine(dict, start + k, reps_view(opt@[k].reps)) by {
                assert(old(opt)@[k] == opt@[k]);
            }
        }
        true
    } else {
        false
    }
}

/// Settles the cell `cur`: works out the state and the distances of the way to it.
#[verifier::rlimit(40)]
pub fn settle(
    opt: &mut Vec<Optimal>,
    cur: usize,
    Ghost(input): Ghost<Seq<u8>>,
    Ghost(dict): Ghost<int>,
    Ghost(start): Ghost<int>,
    Ghost(last): Ghost<int>,
)
    requires
        1 <= cur <= last,
        table_fine(input, dict, start, old(opt)@, cur - 1, last),
        old(opt)@[cur as int].price < INFINITY_PRICE,
    ensures
        table_fine(input, dict, start, final(opt)@, cur as int, last),
        final(opt)@[cur as int].price == old(opt)@[cur as int].price,
        final(opt)@ == settled_at(old(opt)@, cur as int),
        forall|k: int| 0 <= k < NUM_OPTS && k != cur ==> #[trigger] final(opt)@[k] == old(opt)@[k],
{
    let cell: Optimal = opt[cur];
    proof {
        assert(cell_fine(input, dict, start, opt@, cur - 1, cur as int));
        lemma_steps_total(
            input,
            dict,
            start,
            reps_view(opt@[source(cell, cur as int)].reps),
            cell,
            cur as int,
        );
    }
    let from: usize = cur - cell.len as usize - cell.extra as usize;
    let before: Optimal = opt[from];
    let dist: u32 = cell.dist;
    let reps = if dist == MARK_LIT || cell.len == 1 {
        before.reps
    } else if dist < 4 {
        move_rep(before.reps, dist as usize)
    } else {
        (dist - 4, before.reps.0, before.reps.1, before.reps.2)
    };
    let state: usize = if cell.len == 1 {
        if dist == 0 {
            update_short_rep_state(before.state as usize)
        } else {
            update_literal_state(before.state as usize)
        }
    } else if cell.extra == 1 {
        if dist < 4 {
            8
        } else {
            7
        }
    } else if cell.extra > 1 {
        8
    } else if dist < 4 {
        update_rep_state(before.state as usize)
    } else {
        update_match_state(before.state as usize)
    };
    proof {
        let ops = steps_of(input, start + from, cell);
        let r = reps_view(before.reps);
        lemma_runs_reps(input, dict, start + from, r, ops);
        lemma_cell_reps(input, dict, start, before.reps, cell, cur as int, reps);
    }
    opt.set(
        cur,
        Optimal {
            price: cell.price,
            state: state as u32,
            extra: cell.extra,
            len: cell.len,
            dist: cell.dist,
            reps,
        },
    );
    proof {
        let now = opt@;
        let was = old(opt)@;
        assert(steps_of(input, start + from, now[cur as int]) == steps_of(
            input,
            start + from,
            cell,
        ));
        assert forall|k: int|
            1 <= k < NUM_OPTS && (#[trigger] now[k]).price != INFINITY_PRICE implies now[k].price
            < INFINITY_PRICE && k <= last && cell_fine(input, dict, start, now, cur as int, k) by {
            assert(was[k].price != INFINITY_PRICE);
            assert(cell_fine(input, dict, start, was, cur - 1, k));
            let f = source(was[k], k);
            assert(now[f] == was[f]);
            assert(steps_of(input, start + f, now[k]) == steps_of(input, start + f, was[k]));
        }
        assert forall|k: int| 1 <= k <= cur implies settled(input, dict, start, now, k) && (
        #[trigger] now[k]).price < INFINITY_PRICE by {
            if k < cur {
                assert(now[k] == was[k]);
                assert(settled(input, dict, start, was, k));
                assert(cell_fine(input, dict, start, was, cur - 1, k));
            }
        }
        assert forall|k: int| 0 <= k <= cur implies (#[trigger] now[k]).state < 12 && reps_fine(
            dict,
            start + k,
            reps_view(now[k].reps),
        ) by {
            if k < cur {
                assert(now[k] == was[k]);
            }
        }
    }
}

/// The distances that are worked out are those after the operations of the cell.
proof fn lemma_cell_reps(
    input: Seq<u8>,
    dict: int,
    start: int,
    before: (u32, u32, u32, u32),
    cell: Optimal,
    j: int,
    reps: (u32, u32, u32, u32),
)
    requires
        leads(input, dict, start, reps_view(before), cell, j),
        cell.dist == MARK_LIT || cell.len == 1 ==> reps == before,
        cell.dist != MARK_LIT && cell.len != 1 ==> reps_view(reps) == (if cell.dist < 4 {
            reps_after_rep(reps_view(before), cell.dist as int)
        } else {
            reps_after_match(reps_view(before), cell.dist - 4)
        }),
    ensures
        reps_view(reps) == reps_after_all(
            reps_view(before),
            steps_of(input, start + source(cell, j), cell),
        ),
{
    reveal_with_fuel(runs, 4);
    reveal_with_fuel(reps_after_all, 4);
    let ops = steps_of(input, start + source(cell, j), cell);
    if cell.extra == 0 {
        assert(ops.drop_first() =~= Seq::<Operation>::empty());
    } else if cell.extra == 1 {
        assert(ops.drop_first() =~= seq![ops[1]]);
        assert(ops.drop_first().drop_first() =~= Seq::<Operation>::empty());
    } else {
        assert(ops.drop_first() =~= seq![ops[1], ops[2]]);
        assert(ops.drop_first().drop_first() =~= seq![ops[2]]);
        assert(ops.drop_first().drop_first().drop_first() =~= Seq::<Operation>::empty());
    }
}

/// Actions in reverse order, as the operations that they stand for.
pub open spec fn plan(path: Seq<Action>) -> Seq<Operation> {
    Seq::new(path.len(), |i: int| path[path.len() - 1 - i]@)
}

proof fn lemma_plan_push(path: Seq<Action>, action: Action)
    ensures
        plan(path.push(action)) == seq![action@] + plan(path),
{
    assert(plan(path.push(action)) =~= seq![action@] + plan(path));
}

/// The action that a length and a coded distance stand for.
pub fn action_of(byte: u8, len: u32, dist: u32) -> (action: Action)
    ensures
        action@ == step_of(byte, len as int, dist),
{
    if dist == MARK_LIT {
        Action::Literal(byte)
    } else if dist == 0 && len == 1 {
        Action::ShortRep
    } else if dist < 4 {
        Action::Rep { index: dist as usize, length: len as usize }
    } else {
        Action::Match { length: len as usize, distance: dist - 4 }
    }
}

/// Traces the way to the cell `goal` back to the start.
#[verifier::rlimit(40)]
pub fn backward(
    opt: &Vec<Optimal>,
    input: &[u8],
    start: usize,
    goal: usize,
    Ghost(dict): Ghost<int>,
    Ghost(settled_to): Ghost<int>,
    Ghost(last): Ghost<int>,
) -> (path: Vec<Action>)
    requires
        table_fine(input@, dict, start as int, opt@, settled_to, last),
        1 <= goal <= last,
        opt@[goal as int].price < INFINITY_PRICE,
    ensures
        runs(input@, dict, start as int, reps_view(opt@[0].reps), plan(path@)),
        total(plan(path@)) == goal,
        plan(path@) == way_to(input@, start as int, opt@, goal as int),
{
    let size: usize = input.len();
    let mut path: Vec<Action> = Vec::new();
    let mut cur: usize = goal;
    let ghost mut arrival: Seq<int> = reps_after_all(
        reps_view(opt@[source(opt@[goal as int], goal as int)].reps),
        steps_of(
            input@,
            start + source(opt@[goal as int], goal as int),
            opt@[goal as int],
        ),
    );
    assert(plan(path@) =~= Seq::<Operation>::empty());
    let ghost whole = way_to(input@, start as int, opt@, goal as int);
    assert(whole =~= whole + plan(path@));
    while cur > 0
        invariant
            table_fine(input@, dict, start as int, opt@, settled_to, last),
            goal <= last,
            cur <= goal,
            size == input@.len(),
            cur > 0 ==> opt@[cur as int].price < INFINITY_PRICE,
            cur > 0 ==> arrival == reps_after_all(
                reps_view(opt@[source(opt@[cur as int], cur as int)].reps),
                steps_of(
                    input@,
                    start + source(opt@[cur as int], cur as int),
                    opt@[cur as int],
                ),
            ),
            cur == 0 ==> arrival == reps_view(opt@[0].reps),
            runs(input@, dict, start + cur, arrival, plan(path@)),
            total(plan(path@)) == goal - cur,
            whole == way_to(input@, start as int, opt@, goal as int),
            whole == way_to(input@, start as int, opt@, cur as int) + plan(path@),
        decreases cur,
    {
        let cell: Optimal = opt[cur];
        let ghost before = plan(path@);
        assert(cell_fine(input@, dict, start as int, opt@, settled_to, cur as int));
        let from: usize = cur - cell.len as usize - cell.extra as usize;
        let ghost ops = steps_of(input@, start + from, cell);
        let ghost reps = reps_view(opt@[from as int].reps);
        proof {
            lemma_steps_total(input@, dict, start as int, reps, cell, cur as int);
            lemma_runs_append(input@, dict, start + from, reps, ops, before);
            lemma_runs_reps(input@, dict, start + from, reps, ops);
        }
        let ghost p0 = path@;
        if cell.extra == 0 {
            let last_step = action_of(input[start + from], cell.len, cell.dist);
            path.push(last_step);
            proof {
                lemma_plan_push(p0, last_step);
                assert(plan(path@) =~= ops + before);
            }
        } else if cell.extra == 1 {
            let last_step = action_of(input[start + from + 1], cell.len, cell.dist);
            let first_step = Action::Literal(input[start + from]);
            path.push(last_step);
            path.push(first_step);
            proof {
                lemma_plan_push(p0, last_step);
                lemma_plan_push(p0.push(last_step), first_step);
                assert(plan(path@) =~= ops + before);
            }
        } else {
            let last_step = Action::Rep { index: 0, length: cell.len as usize };
            let middle_step = Action::Literal(input[start + from + cell.extra as usize - 1]);
            let first_step = action_of(input[start + from], cell.extra - 1, cell.dist);
            path.push(last_step);
            path.push(middle_step);
            path.push(first_step);
            proof {
                lemma_plan_push(p0, last_step);
                lemma_plan_push(p0.push(last_step), middle_step);
                lemma_plan_push(p0.push(last_step).push(middle_step), first_step);
                assert(plan(path@) =~= ops + before);
            }
        }
        proof {
            let ahead = way_to(input@, start as int, opt@, from as int);
            assert((ahead + ops) + before =~= ahead + (ops + before));
        }
        cur = from;
        proof {
            arrival = reps;
            if cur > 0 {
                assert(settled(input@, dict, start as int, opt@, cur as int));
            }
        }
    }
    assert(whole =~= plan(path@));
    path
}

} // verus!
