//! The move-to-front step of BZip2 and the second run-length step.

use vstd::prelude::*;

use crate::codecs::bzip::fault::Fault;
use crate::codecs::bzip::transform::repeated;

verus! {

/// The first position of `byte` in `list`, counted from `i` on.
pub open spec fn place_of<T>(list: Seq<T>, byte: T, i: int) -> int
    decreases list.len() - i,
{
    if i >= list.len() || list[i] == byte {
        i
    } else {
        place_of(list, byte, i + 1)
    }
}

/// The list with element `i` moved to its front.
pub open spec fn fronted<T>(list: Seq<T>, i: int) -> Seq<T> {
    seq![list[i]] + list.remove(i)
}

/// The bytes below `n` that occur in `s`, in ascending order.
pub open spec fn used_below(s: Seq<u8>, n: nat) -> Seq<u8>
    decreases n,
{
    if n == 0 {
        Seq::empty()
    } else if s.contains((n - 1) as u8) {
        used_below(s, (n - 1) as nat).push((n - 1) as u8)
    } else {
        used_below(s, (n - 1) as nat)
    }
}

/// The bytes that occur in `s`, in ascending order.
pub open spec fn used_bytes(s: Seq<u8>) -> Seq<u8> {
    used_below(s, 256)
}

/// A run length in base two with the digits one and two, least significant first, written as
/// the symbols zero and one.
pub open spec fn run_digits(run: int) -> Seq<int>
    decreases run,
{
    if run <= 0 {
        Seq::empty()
    } else {
        seq![(run - 1) % 2] + run_digits((run - 1) / 2)
    }
}

/// The symbols for `s` from `k` on, given that the last `run` bytes before it were at the front
/// of the list and are not yet written; the last symbol is `end`.
pub open spec fn mtf_symbols(s: Seq<u8>, k: int, list: Seq<u8>, run: int, end: int) -> Seq<int>
    decreases s.len() - k,
{
    if k >= s.len() {
        run_digits(run).push(end)
    } else {
        let i = place_of(list, s[k], 0);
        if i == 0 {
            mtf_symbols(s, k + 1, list, run + 1, end)
        } else {
            run_digits(run).push(i + 1) + mtf_symbols(s, k + 1, fronted(list, i), 0, end)
        }
    }
}

/// All symbols of a block.
pub open spec fn block_symbols(s: Seq<u8>) -> Seq<int> {
    mtf_symbols(s, 0, used_bytes(s), 0, used_bytes(s).len() as int + 1)
}

/// A decoder of symbols: the list, the bytes so far, and the run being read with the weight of
/// its next digit.
pub struct Front {
    pub list: Seq<u8>,
    pub out: Seq<u8>,
    pub run: int,
    pub weight: int,
}

/// Writes out the run being read.
pub open spec fn flushed(f: Front, limit: int) -> Result<Front, Fault> {
    if f.run == 0 {
        Ok(f)
    } else if f.out.len() + f.run > limit {
        Err(Fault::BlockTooLarge)
    } else {
        Ok(
            Front {
                list: f.list,
                out: f.out + repeated(f.list[0], f.run as nat),
                run: 0,
                weight: 1,
            },
        )
    }
}

/// Takes in a symbol; tells whether it ended the block.
pub open spec fn feed(f: Front, symbol: int, limit: int) -> Result<(Front, bool), Fault> {
    if symbol <= 1 {
        let addition = (symbol + 1) * f.weight;
        if f.run + addition > usize::MAX {
            Err(Fault::RunLengthOverflow)
        } else if 2 * f.weight > usize::MAX {
            Err(Fault::RunWeightOverflow)
        } else {
            Ok((Front { run: f.run + addition, weight: 2 * f.weight, ..f }, false))
        }
    } else {
        match flushed(f, limit) {
            Err(fault) => Err(fault),
            Ok(g) => if symbol == g.list.len() + 1 {
                Ok((g, true))
            } else if symbol > g.list.len() {
                Err(Fault::InvalidSymbol)
            } else if g.out.len() == limit {
                Err(Fault::BlockTooLarge)
            } else {
                Ok(
                    (
                        Front {
                            list: fronted(g.list, symbol - 1),
                            out: g.out.push(g.list[symbol - 1]),
                            ..g
                        },
                        false,
                    ),
                )
            },
        }
    }
}

/// Takes in symbols up to the one that ends the block.
pub open spec fn feed_all(f: Front, symbols: Seq<int>, limit: int) -> Result<Seq<u8>, Fault>
    decreases symbols.len(),
{
    if symbols.len() == 0 {
        Ok(f.out)
    } else {
        match feed(f, symbols[0], limit) {
            Err(fault) => Err(fault),
            Ok((g, ended)) => if ended {
                Ok(g.out)
            } else {
                feed_all(g, symbols.drop_first(), limit)
            },
        }
    }
}

pub proof fn lemma_place_of<T>(list: Seq<T>, byte: T, i: int)
    requires
        0 <= i <= list.len(),
    ensures
        i <= place_of(list, byte, i) <= list.len(),
        place_of(list, byte, i) < list.len() ==> list[place_of(list, byte, i)] == byte,
        place_of(list, byte, i) == list.len() ==> forall|k: int|
            i <= k < list.len() ==> #[trigger] list[k] != byte,
    decreases list.len() - i,
{
    if i < list.len() && list[i] != byte {
        lemma_place_of(list, byte, i + 1);
    }
}

/// Moving an element keeps what the list holds.
pub proof fn lemma_fronted<T>(list: Seq<T>, i: int, byte: T)
    requires
        0 <= i < list.len(),
    ensures
        fronted(list, i).len() == list.len(),
        list.contains(byte) ==> fronted(list, i).contains(byte),
{
    let moved = fronted(list, i);
    if list.contains(byte) {
        let k = choose|k: int| 0 <= k < list.len() && list[k] == byte;
        if k == i {
            assert(moved[0] == byte);
        } else if k < i {
            assert(moved[k + 1] == byte);
        } else {
            assert(moved[k] == byte);
        }
    }
}

/// Every byte of `s` is listed among those used.
pub proof fn lemma_used_below(s: Seq<u8>, n: nat)
    requires
        n <= 256,
    ensures
        used_below(s, n).len() <= n,
        forall|b: u8| b < n && s.contains(b) ==> #[trigger] used_below(s, n).contains(b),
        forall|k: int|
            0 <= k < used_below(s, n).len() ==> #[trigger] used_below(s, n)[k] < n && s.contains(
                used_below(s, n)[k],
            ),
        forall|a: int, b: int|
            0 <= a < b < used_below(s, n).len() ==> #[trigger] used_below(s, n)[a]
                < #[trigger] used_below(s, n)[b],
    decreases n,
{
    if n > 0 {
        let m = (n - 1) as nat;
        let front = used_below(s, m);
        lemma_used_below(s, m);
        if s.contains(m as u8) {
            let all = front.push(m as u8);
            assert forall|b: u8| b < n && s.contains(b) implies #[trigger] used_below(
                s,
                n,
            ).contains(b) by {
                if b < m {
                    assert(front.contains(b));
                    let k = choose|k: int| 0 <= k < front.len() && front[k] == b;
                    assert(all[k] == b);
                } else {
                    assert(all[front.len() as int] == b);
                }
            }
        } else {
            assert forall|b: u8| b < n && s.contains(b) implies #[trigger] used_below(
                s,
                n,
            ).contains(b) by {
                assert(b < m);
                assert(front.contains(b));
            }
        }
    }
}

/// The weight behind the digits of a run.
spec fn weight_behind(run: int, weight: int) -> int
    decreases run,
{
    if run <= 0 {
        weight
    } else {
        weight_behind((run - 1) / 2, 2 * weight)
    }
}

/// Reading the digits of a run adds it, scaled by the weight; a number with `d` digits is at
/// least `2^d - 1`.
proof fn lemma_feed_digits(f: Front, run: int, rest: Seq<int>, limit: int)
    requires
        0 <= run,
        1 <= f.weight,
        0 <= f.run,
        f.run + run * f.weight <= 0x7fff_ffff,
    ensures
        feed_all(f, run_digits(run) + rest, limit) == feed_all(
            Front { run: f.run + run * f.weight, weight: weight_behind(run, f.weight), ..f },
            rest,
            limit,
        ),
    decreases run,
{
    let all = run_digits(run) + rest;
    if run == 0 {
        assert(all =~= rest);
        assert(run * f.weight == 0) by (nonlinear_arith)
            requires
                run == 0,
        ;
    } else {
        let d = (run - 1) % 2;
        let half = (run - 1) / 2;
        let w = f.weight;
        assert(run == 2 * half + d + 1);
        let g = Front { run: f.run + (d + 1) * w, weight: 2 * w, ..f };
        assert(run * w == (d + 1) * w + half * (2 * w)) by (nonlinear_arith)
            requires
                run == 2 * half + d + 1,
        ;
        assert((d + 1) * w == d * w + w && 0 <= d * w <= w) by (nonlinear_arith)
            requires
                0 <= d <= 1,
                w >= 1,
        ;
        assert(half * (2 * w) >= 0) by (nonlinear_arith)
            requires
                half >= 0,
                w >= 1,
        ;
        lemma_feed_digits(g, half, rest, limit);
        assert(all[0] == d);
        assert(all.drop_first() =~= run_digits(half) + rest);
        assert(feed(f, d, limit) == Ok::<(Front, bool), Fault>((g, false)));
    }
}

/// What the list holds lets the rest of `s` be looked up.
pub open spec fn covers(list: Seq<u8>, s: Seq<u8>) -> bool {
    forall|b: u8| s.contains(b) ==> #[trigger] list.contains(b)
}

/// Symbols bring back the bytes they were made of.
proof fn lemma_symbols_read_back(s: Seq<u8>, k: int, list: Seq<u8>, run: int, limit: int)
    requires
        0 <= run <= k <= s.len(),
        s.len() <= limit <= 0x1000_0000,
        list.len() > 0,
        covers(list, s),
        forall|i: int| k - run <= i < k ==> #[trigger] s[i] == list[0],
    ensures
        feed_all(
            Front { list, out: s.take(k - run), run: 0, weight: 1 },
            mtf_symbols(s, k, list, run, list.len() as int + 1),
            limit,
        ) == Ok::<Seq<u8>, Fault>(s),
    decreases s.len() - k,
{
    let end = list.len() as int + 1;
    let f = Front { list, out: s.take(k - run), run: 0, weight: 1 };
    let all = mtf_symbols(s, k, list, run, end);
    if k < s.len() && place_of(list, s[k], 0) == 0 {
        lemma_place_of(list, s[k], 0);
        lemma_symbols_read_back(s, k + 1, list, run + 1, limit);
        assert(s.take(k + 1 - (run + 1)) =~= s.take(k - run));
    } else {
        assert(s.take(k - run) + repeated(list[0], run as nat) =~= s.take(k));
        let (symbol, tail) = if k < s.len() {
            let i = place_of(list, s[k], 0);
            (i + 1, mtf_symbols(s, k + 1, fronted(list, i), 0, end))
        } else {
            (end, Seq::empty())
        };
        let rest = seq![symbol] + tail;
        assert(all =~= run_digits(run) + rest);
        assert(run * 1 == run);
        lemma_feed_digits(f, run, rest, limit);
        let g = if run == 0 {
            f
        } else {
            Front { run: run, weight: weight_behind(run, 1), ..f }
        };
        assert(feed_all(f, all, limit) == feed_all(g, rest, limit));
        let h = Front { list, out: s.take(k), run: 0, weight: 1 };
        assert(flushed(g, limit) == Ok::<Front, Fault>(h)) by {
            if run == 0 {
                assert(s.take(k - run) =~= s.take(k));
            }
        }
        assert(rest[0] == symbol);
        assert(rest.drop_first() =~= tail);
        if k < s.len() {
            let i = place_of(list, s[k], 0);
            lemma_place_of(list, s[k], 0);
            assert(s.contains(s[k]));
            assert(list.contains(s[k]));
            let list2 = fronted(list, i);
            assert forall|b: u8| s.contains(b) implies #[trigger] list2.contains(b) by {
                lemma_fronted(list, i, b);
            }
            lemma_fronted(list, i, s[k]);
            lemma_symbols_read_back(s, k + 1, list2, 0, limit);
            assert(s.take(k).push(list[i]) =~= s.take(k + 1));
            assert(s.take(k + 1 - 0) =~= s.take(k + 1));
        } else {
            assert(s.take(k) =~= s);
        }
    }
}

/// The move-to-front step can be undone.
pub proof fn lemma_mtf_round_trip(s: Seq<u8>, limit: int)
    requires
        0 < s.len() <= limit <= 0x1000_0000,
    ensures
        feed_all(
            Front { list: used_bytes(s), out: Seq::empty(), run: 0, weight: 1 },
            block_symbols(s),
            limit,
        ) == Ok::<Seq<u8>, Fault>(s),
        0 < used_bytes(s).len() <= 256,
{
    lemma_used_below(s, 256);
    assert(s.contains(s[0]));
    assert(used_bytes(s).contains(s[0]));
    assert(covers(used_bytes(s), s));
    lemma_symbols_read_back(s, 0, used_bytes(s), 0, limit);
    assert(s.take(0 - 0) =~= Seq::<u8>::empty());
}

/// There are at most as many digits as the run is long.
proof fn lemma_run_digits_len(run: int)
    requires
        run >= 0,
    ensures
        run_digits(run).len() <= run,
        forall|i: int|
            0 <= i < run_digits(run).len() ==> 0 <= #[trigger] run_digits(run)[i] <= 1,
    decreases run,
{
    if run > 0 {
        lemma_run_digits_len((run - 1) / 2);
    }
}

/// A block has at most one symbol for each byte, and its end.
pub proof fn lemma_symbols_bound(s: Seq<u8>, k: int, list: Seq<u8>, run: int)
    requires
        0 <= run,
        0 <= k <= s.len(),
        covers(list, s),
        list.len() > 0,
    ensures
        mtf_symbols(s, k, list, run, list.len() as int + 1).len() <= run + (s.len() - k) + 1,
        mtf_symbols(s, k, list, run, list.len() as int + 1).len() >= 1,
        forall|i: int|
            0 <= i < mtf_symbols(s, k, list, run, list.len() as int + 1).len() ==> 0
                <= #[trigger] mtf_symbols(s, k, list, run, list.len() as int + 1)[i] < list.len() + 2,
    decreases s.len() - k,
{
    lemma_run_digits_len(run);
    if k < s.len() {
        let i = place_of(list, s[k], 0);
        lemma_place_of(list, s[k], 0);
        assert(s.contains(s[k]));
        assert(list.contains(s[k]));
        if i == 0 {
            lemma_symbols_bound(s, k + 1, list, run + 1);
        } else {
            assert forall|b: u8| s.contains(b) implies #[trigger] fronted(list, i).contains(b) by {
                lemma_fronted(list, i, b);
            }
            lemma_fronted(list, i, s[k]);
            lemma_symbols_bound(s, k + 1, fronted(list, i), 0);
        }
    }
}

/// Only the last symbol of a block is the one that ends it.
pub proof fn lemma_symbols_end(s: Seq<u8>, k: int, list: Seq<u8>, run: int)
    requires
        0 <= run,
        0 <= k <= s.len(),
        covers(list, s),
        list.len() > 0,
    ensures
        ({
            let all = mtf_symbols(s, k, list, run, list.len() as int + 1);
            &&& all.len() > 0
            &&& all.last() == list.len() + 1
            &&& forall|i: int|
                0 <= i < all.len() - 1 ==> 0 <= #[trigger] all[i] <= list.len()
        }),
    decreases s.len() - k,
{
    lemma_run_digits_len(run);
    let all = mtf_symbols(s, k, list, run, list.len() as int + 1);
    if k < s.len() {
        let i = place_of(list, s[k], 0);
        lemma_place_of(list, s[k], 0);
        assert(s.contains(s[k]));
        assert(list.contains(s[k]));
        if i == 0 {
            lemma_symbols_end(s, k + 1, list, run + 1);
        } else {
            assert forall|b: u8| s.contains(b) implies #[trigger] fronted(list, i).contains(b) by {
                lemma_fronted(list, i, b);
            }
            lemma_fronted(list, i, s[k]);
            lemma_symbols_end(s, k + 1, fronted(list, i), 0);
            let head = run_digits(run).push(i + 1);
            let tail = mtf_symbols(s, k + 1, fronted(list, i), 0, list.len() as int + 1);
            assert forall|j: int| 0 <= j < all.len() - 1 implies 0 <= #[trigger] all[j]
                <= list.len() by {
                if j >= head.len() {
                    assert(all[j] == tail[j - head.len()]);
                }
            }
        }
    }
}

/// Moves element `i` of `list` to its front.
pub fn move_to_front<T>(list: &mut Vec<T>, i: usize)
    requires
        i < old(list)@.len(),
    ensures
        final(list)@ == fronted(old(list)@, i as int),
{
    let item = list.remove(i);
    list.insert(0, item);
    assert(list@ =~= fronted(old(list)@, i as int));
}

/// The bytes that occur in `input`, in ascending order.
fn find_used(input: &Vec<u8>) -> (used: Vec<u8>)
    ensures
        used@ == used_bytes(input@),
{
    let mut present: Vec<bool> = vec![false; 256];
    let mut i: usize = 0;
    while i < input.len()
        invariant
            i <= input@.len(),
            present@.len() == 256,
            forall|b: int|
                0 <= b < 256 ==> #[trigger] present@[b] == input@.take(i as int).contains(b as u8),
        decreases input.len() - i,
    {
        let byte: u8 = input[i];
        let ghost before = present@;
        present.set(byte as usize, true);
        proof {
            let longer = input@.take(i + 1);
            assert(longer =~= input@.take(i as int).push(byte));
            assert forall|b: int| 0 <= b < 256 implies #[trigger] present@[b] == longer.contains(
                b as u8,
            ) by {
                if b == byte {
                    assert(longer[i as int] == b as u8);
                } else {
                    assert(present@[b] == before[b]);
                    if longer.contains(b as u8) {
                        let k = choose|k: int| 0 <= k < longer.len() && longer[k] == b as u8;
                        assert(input@.take(i as int)[k] == b as u8);
                    }
                    if input@.take(i as int).contains(b as u8) {
                        let k = choose|k: int|
                            0 <= k < i && input@.take(i as int)[k] == b as u8;
                        assert(longer[k] == b as u8);
                    }
                }
            }
        }
        i += 1;
    }
    assert(input@.take(i as int) =~= input@);
    let mut used: Vec<u8> = Vec::new();
    let mut byte: usize = 0;
    assert(used@ =~= used_below(input@, 0));
    while byte < 256
        invariant
            byte <= 256,
            present@.len() == 256,
            forall|b: int| 0 <= b < 256 ==> #[trigger] present@[b] == input@.contains(b as u8),
            used@ == used_below(input@, byte as nat),
        decreases 256 - byte,
    {
        assert(present@[byte as int] == input@.contains(byte as u8));
        if present[byte] {
            used.push(byte as u8);
        }
        byte += 1;
    }
    used
}

/// Appends the digits of a run.
fn flush_zero_run(symbols: &mut Vec<usize>, run: usize)
    ensures
        final(symbols)@ == old(symbols)@ + run_digits(run as int).map_values(|d: int| d as usize),
{
    let mut left: usize = run;
    let ghost target = symbols@ + run_digits(run as int).map_values(|d: int| d as usize);
    while left > 0
        invariant
            target == symbols@ + run_digits(left as int).map_values(|d: int| d as usize),
        decreases left,
    {
        let ghost before = symbols@;
        symbols.push((left - 1) % 2);
        proof {
            let d = (left - 1) % 2;
            let half = (left - 1) / 2;
            let rest = run_digits(half).map_values(|d: int| d as usize);
            assert(run_digits(left as int).map_values(|d: int| d as usize) =~= seq![d as usize]
                + rest);
            assert(target =~= symbols@ + rest);
        }
        left = (left - 1) / 2;
    }
    assert(target =~= symbols@);
}

/// The position of `byte` in `list`.
fn find_place(list: &Vec<u8>, byte: u8) -> (place: usize)
    ensures
        place == place_of(list@, byte, 0),
        place <= list@.len(),
{
    let mut i: usize = 0;
    while i < list.len() && list[i] != byte
        invariant
            i <= list@.len(),
            place_of(list@, byte, 0) == place_of(list@, byte, i as int),
        decreases list.len() - i,
    {
        i += 1;
    }
    i
}

/// The bytes that occur in `input`, and its symbols.
pub fn mtf_rle2(input: &Vec<u8>) -> (result: (Vec<u8>, Vec<usize>))
    requires
        input@.len() > 0,
    ensures
        result.0@ == used_bytes(input@),
        result.1@ == block_symbols(input@).map_values(|d: int| d as usize),
{
    let used = find_used(input);
    let mut mtf: Vec<u8> = Vec::with_capacity(used.len());
    let mut i: usize = 0;
    while i < used.len()
        invariant
            i <= used@.len(),
            mtf@ == used@.take(i as int),
        decreases used.len() - i,
    {
        mtf.push(used[i]);
        i += 1;
        assert(mtf@ =~= used@.take(i as int));
    }
    assert(mtf@ =~= used@);
    let mut symbols: Vec<usize> = Vec::new();
    let mut run: usize = 0;
    let mut k: usize = 0;
    let ghost whole = block_symbols(input@).map_values(|d: int| d as usize);
    let ghost end = used@.len() + 1;
    proof {
        lemma_used_below(input@, 256);
        assert(input@.contains(input@[0]));
        assert(mtf@.contains(input@[0]));
        assert(symbols@ + whole =~= whole);
    }
    while k < input.len()
        invariant
            k <= input@.len(),
            run <= k,
            mtf@.len() == used@.len(),
            0 < mtf@.len() <= 256,
            end == used@.len() + 1,
            covers(mtf@, input@),
            whole == symbols@ + mtf_symbols(
                input@,
                k as int,
                mtf@,
                run as int,
                end as int,
            ).map_values(|d: int| d as usize),
        decreases input.len() - k,
    {
        let place: usize = find_place(&mtf, input[k]);
        proof {
            lemma_place_of(mtf@, input@[k as int], 0);
            assert(input@.contains(input@[k as int]));
            assert(mtf@.contains(input@[k as int]));
        }
        if place == 0 {
            run += 1;
        } else {
            let ghost before = symbols@;
            let ghost list = mtf@;
            let ghost digits = run_digits(run as int);
            flush_zero_run(&mut symbols, run);
            run = 0;
            symbols.push(place + 1);
            move_to_front(&mut mtf, place);
            proof {
                lemma_fronted(list, place as int, input@[0]);
                assert forall|b: u8| input@.contains(b) implies #[trigger] mtf@.contains(b) by {
                    lemma_fronted(list, place as int, b);
                }
                let rest = mtf_symbols(input@, k + 1, mtf@, 0, end as int);
                let all = digits.push(place + 1) + rest;
                assert(all.map_values(|d: int| d as usize) =~= digits.map_values(
                    |d: int| d as usize,
                ).push((place + 1) as usize) + rest.map_values(|d: int| d as usize));
                assert(whole =~= symbols@ + rest.map_values(|d: int| d as usize));
            }
        }
        k += 1;
    }
    let ghost digits = run_digits(run as int);
    flush_zero_run(&mut symbols, run);
    symbols.push(used.len() + 1);
    proof {
        assert(digits.push(end as int).map_values(|d: int| d as usize) =~= digits.map_values(
            |d: int| d as usize,
        ).push(end as usize));
        assert(whole =~= symbols@);
    }
    (used, symbols)
}

} // verus!
