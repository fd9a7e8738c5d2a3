//! The content of a block: symbol map, selectors, code lengths and symbols.

use vstd::arithmetic::power2::lemma2_to64;
use vstd::prelude::*;

use crate::codecs::bzip::bitstream::{
    bit_at, bits_at, digit, holds, lemma_bits_at_bound, lemma_holds_number, lemma_holds_split,
    lemma_low_bits_len, low_bits, BitReader, BitWriter,
};
use crate::codecs::bzip::fault::Fault;
use crate::codecs::bzip::huffman::{
    balanced_code_lengths, balanced_lengths, bits_for, canonical_codes, lemma_balanced_valid,
    lemma_bits_for_unique, lemma_symbol_advances, lemma_symbol_read_back, symbol_at, symbol_bits,
    tree_fault, Huffman,
};
use crate::codecs::bzip::mtf::{
    block_symbols, covers, feed, feed_all, fronted, lemma_fronted, lemma_mtf_round_trip,
    lemma_place_of, lemma_symbols_bound, lemma_symbols_end, lemma_used_below, move_to_front,
    mtf_rle2, place_of, used_below, used_bytes, Front,
};
use crate::codecs::bzip::transform::append_run;
use crate::codecs::zlib::huffman::code_of;

verus! {

/// How many symbols share a selector.
pub const GROUP_SIZE: usize = 50;

/// An `n`-bit number at position `p`.
pub open spec fn field(data: Seq<u8>, p: int, n: nat) -> Result<int, Fault> {
    if p + n <= 8 * data.len() {
        Ok(bits_at(data, p, n))
    } else {
        Err(Fault::TruncatedStream)
    }
}

/// The bytes of group `group` that the bits from `q` on mark, from `low` on, behind `used`.
pub open spec fn marked(data: Seq<u8>, q: int, group: int, low: int, used: Seq<u8>) -> Seq<u8>
    decreases 16 - low,
{
    if low >= 16 {
        used
    } else {
        marked(
            data,
            q,
            group,
            low + 1,
            if bit_at(data, q + low) {
                used.push((group * 16 + low) as u8)
            } else {
                used
            },
        )
    }
}

/// The map of used bytes from group `group` on: sixteen bits at `p` mark the groups in use, and
/// sixteen bits for each of those mark its bytes.
pub open spec fn map_at(data: Seq<u8>, p: int, q: int, group: int, used: Seq<u8>) -> Result<
    (int, Seq<u8>),
    Fault,
>
    decreases 16 - group,
{
    if group >= 16 {
        Ok((q, used))
    } else if !bit_at(data, p + group) {
        map_at(data, p, q, group + 1, used)
    } else if q + 16 > 8 * data.len() {
        Err(Fault::TruncatedStream)
    } else {
        map_at(data, p, q + 16, group + 1, marked(data, q, group, 0, used))
    }
}

/// The used bytes that the map at `p` lists.
pub open spec fn used_at(data: Seq<u8>, p: int) -> Result<(int, Seq<u8>), Fault> {
    if p + 16 > 8 * data.len() {
        Err(Fault::TruncatedStream)
    } else {
        map_at(data, p, p + 16, 0, Seq::empty())
    }
}

/// A position in the list of selectors, in unary, given that `i` ones were read.
pub open spec fn selector_at(data: Seq<u8>, p: int, i: int, groups: int) -> Result<
    (int, int),
    Fault,
>
    decreases groups - i,
{
    if p + 1 > 8 * data.len() {
        Err(Fault::TruncatedStream)
    } else if !bit_at(data, p) {
        Ok((i, p + 1))
    } else if i + 1 >= groups {
        Err(Fault::SelectorValue)
    } else {
        selector_at(data, p + 1, i + 1, groups)
    }
}

/// `count` more selectors behind `found`.
pub open spec fn selectors_at(
    data: Seq<u8>,
    p: int,
    count: nat,
    list: Seq<usize>,
    found: Seq<usize>,
) -> Result<(int, Seq<usize>), Fault>
    decreases count,
{
    if count == 0 {
        Ok((p, found))
    } else {
        match selector_at(data, p, 0, list.len() as int) {
            Err(fault) => Err(fault),
            Ok((i, q)) => selectors_at(
                data,
                q,
                (count - 1) as nat,
                fronted(list, i),
                found.push(list[i]),
            ),
        }
    }
}

/// A code length as a sequence of steps from the one before.
pub open spec fn length_at(data: Seq<u8>, p: int, current: int) -> Result<(int, int), Fault>
    decreases 8 * data.len() - p,
{
    if p + 1 > 8 * data.len() {
        Err(Fault::TruncatedStream)
    } else if !bit_at(data, p) {
        Ok((current, p + 1))
    } else if p + 2 > 8 * data.len() {
        Err(Fault::TruncatedStream)
    } else {
        let next = if bit_at(data, p + 1) {
            current - 1
        } else {
            current + 1
        };
        if 1 <= next <= 20 {
            length_at(data, p + 2, next)
        } else {
            Err(Fault::CodeLength)
        }
    }
}

/// `count` more code lengths behind `lengths`.
pub open spec fn lengths_at(
    data: Seq<u8>,
    p: int,
    count: nat,
    current: int,
    lengths: Seq<u8>,
) -> Result<(int, Seq<u8>), Fault>
    decreases count,
{
    if count == 0 {
        Ok((p, lengths))
    } else {
        match length_at(data, p, current) {
            Err(fault) => Err(fault),
            Ok((length, q)) => lengths_at(
                data,
                q,
                (count - 1) as nat,
                length,
                lengths.push(length as u8),
            ),
        }
    }
}

/// The code lengths of one tree.
pub open spec fn tree_at(data: Seq<u8>, p: int, alphabet: nat) -> Result<(int, Seq<u8>), Fault> {
    match field(data, p, 5) {
        Err(fault) => Err(fault),
        Ok(start) => match lengths_at(data, p + 5, alphabet, start, Seq::empty()) {
            Err(fault) => Err(fault),
            Ok((q, lengths)) => match tree_fault(lengths) {
                Some(fault) => Err(fault),
                None => Ok((q, lengths)),
            },
        },
    }
}

/// `count` more trees behind `trees`.
pub open spec fn trees_at(
    data: Seq<u8>,
    p: int,
    count: nat,
    alphabet: nat,
    trees: Seq<Seq<u8>>,
) -> Result<(int, Seq<Seq<u8>>), Fault>
    decreases count,
{
    if count == 0 {
        Ok((p, trees))
    } else {
        match tree_at(data, p, alphabet) {
            Err(fault) => Err(fault),
            Ok((q, lengths)) => trees_at(
                data,
                q,
                (count - 1) as nat,
                alphabet,
                trees.push(lengths),
            ),
        }
    }
}

/// The symbols of a block from number `n` on.
pub open spec fn symbols_at(
    data: Seq<u8>,
    p: int,
    trees: Seq<Seq<u8>>,
    selectors: Seq<usize>,
    n: int,
    f: Front,
    limit: int,
) -> Result<(int, Seq<u8>), Fault>
    decreases 8 * data.len() - p,
{
    if n / 50 >= selectors.len() {
        Err(Fault::SelectorsExhausted)
    } else {
        let lengths = trees[selectors[n / 50] as int];
        match symbol_at(lengths, data, p) {
            Err(fault) => Err(fault),
            Ok((symbol, q)) => match feed(f, symbol, limit) {
                Err(fault) => Err(fault),
                Ok((g, ended)) => if ended {
                    Ok((q, g.out))
                } else {
                    proof {
                        lemma_symbol_advances(lengths, data, p, 1);
                    }
                    symbols_at(data, q, trees, selectors, n + 1, g, limit)
                },
            },
        }
    }
}

/// The list of selectors before the first one.
pub open spec fn fresh_selectors(groups: int) -> Seq<usize> {
    Seq::new(groups as nat, |i: int| i as usize)
}

/// What follows the symbol map of a block.
#[verifier::opaque]
pub open spec fn coded_at(data: Seq<u8>, p: int, used: Seq<u8>, limit: int) -> Result<
    (int, Seq<u8>),
    Fault,
> {
    match field(data, p, 3) {
        Err(fault) => Err(fault),
        Ok(groups) => if groups < 2 || groups > 6 {
            Err(Fault::GroupCount)
        } else {
            match field(data, p + 3, 15) {
                Err(fault) => Err(fault),
                Ok(count) => if count == 0 {
                    Err(Fault::NoSelectors)
                } else {
                    match selectors_at(
                        data,
                        p + 18,
                        count as nat,
                        fresh_selectors(groups),
                        Seq::empty(),
                    ) {
                        Err(fault) => Err(fault),
                        Ok((q, selectors)) => match trees_at(
                            data,
                            q,
                            groups as nat,
                            used.len() + 2,
                            Seq::empty(),
                        ) {
                            Err(fault) => Err(fault),
                            Ok((r, trees)) => symbols_at(
                                data,
                                r,
                                trees,
                                selectors,
                                0,
                                Front { list: used, out: Seq::empty(), run: 0, weight: 1 },
                                limit,
                            ),
                        },
                    }
                },
            }
        },
    }
}

/// The content of a block: the transformed bytes and the position behind them.
#[verifier::opaque]
pub open spec fn content_at(data: Seq<u8>, p: int, limit: int) -> Result<(int, Seq<u8>), Fault> {
    match used_at(data, p) {
        Err(fault) => Err(fault),
        Ok((q, used)) => if used.len() == 0 {
            Err(Fault::EmptySymbolMap)
        } else {
            coded_at(data, q, used, limit)
        },
    }
}

// What the encoder writes.

/// Some byte of the group occurs in `s`.
pub open spec fn group_used(s: Seq<u8>, group: int) -> bool {
    exists|low: int| 0 <= low < 16 && s.contains(#[trigger] byte_in(group, low))
}

pub open spec fn byte_in(group: int, low: int) -> u8 {
    (group * 16 + low) as u8
}

/// The bits that mark the groups in use.
pub open spec fn group_marks(s: Seq<u8>) -> Seq<bool> {
    Seq::new(16, |group: int| group_used(s, group))
}

/// The bits that mark the bytes of a group.
pub open spec fn byte_marks(s: Seq<u8>, group: int) -> Seq<bool> {
    Seq::new(16, |low: int| s.contains(byte_in(group, low)))
}

/// The marks of the bytes of all groups in use from `group` on.
pub open spec fn all_marks(s: Seq<u8>, group: int) -> Seq<bool>
    decreases 16 - group,
{
    if group >= 16 {
        Seq::empty()
    } else if group_used(s, group) {
        byte_marks(s, group) + all_marks(s, group + 1)
    } else {
        all_marks(s, group + 1)
    }
}

/// `n` ones and a zero.
pub open spec fn unary(n: nat) -> Seq<bool> {
    Seq::new(n, |i: int| true).push(false)
}

/// The number of trees for so many symbols.
pub open spec fn group_count(symbols: int) -> int {
    if symbols < 200 {
        2
    } else if symbols < 600 {
        3
    } else if symbols < 1200 {
        4
    } else if symbols < 2400 {
        5
    } else {
        6
    }
}

/// The selectors from number `k` on: the trees take turns.
pub open spec fn selector_bits(k: int, count: int, list: Seq<usize>) -> Seq<bool>
    decreases count - k,
{
    if k >= count {
        Seq::empty()
    } else {
        let i = place_of(list, (k % (list.len() as int)) as usize, 0);
        unary(i as nat) + selector_bits(k + 1, count, fronted(list, i))
    }
}

/// The steps from one code length to the next.
pub open spec fn step_bits(current: int, target: int) -> Seq<bool>
    decreases (if current < target { target - current } else { current - target }),
{
    if current < target {
        seq![true, false] + step_bits(current + 1, target)
    } else if current > target {
        seq![true, true] + step_bits(current - 1, target)
    } else {
        seq![false]
    }
}

/// The code lengths from number `i` on.
pub open spec fn length_bits(lengths: Seq<u8>, i: int, current: int) -> Seq<bool>
    decreases lengths.len() - i,
{
    if i >= lengths.len() {
        Seq::empty()
    } else {
        step_bits(current, lengths[i] as int) + length_bits(lengths, i + 1, lengths[i] as int)
    }
}

/// The code lengths of one tree.
pub open spec fn tree_bits(lengths: Seq<u8>) -> Seq<bool> {
    low_bits(lengths[0] as int, 5) + length_bits(lengths, 0, lengths[0] as int)
}

/// The same tree `count` times.
pub open spec fn trees_bits(lengths: Seq<u8>, count: nat) -> Seq<bool>
    decreases count,
{
    if count == 0 {
        Seq::empty()
    } else {
        tree_bits(lengths) + trees_bits(lengths, (count - 1) as nat)
    }
}

/// The codes of symbols.
pub open spec fn codes_bits(lengths: Seq<u8>, symbols: Seq<int>) -> Seq<bool>
    decreases symbols.len(),
{
    if symbols.len() == 0 {
        Seq::empty()
    } else {
        symbol_bits(lengths, symbols[0]) + codes_bits(lengths, symbols.drop_first())
    }
}

/// The number of selectors for so many symbols.
pub open spec fn selector_count(symbols: int) -> int {
    (symbols + 49) / 50
}

/// The code lengths for the symbols of a block.
#[verifier::opaque]
pub open spec fn block_lengths(column: Seq<u8>) -> Seq<u8> {
    let count = used_bytes(column).len() as int + 2;
    balanced_lengths(count, choose|bits: int| 2 <= bits <= 9 && bits_for(count, bits))
}

/// What follows the symbol map of a block.
#[verifier::opaque]
pub open spec fn coded_bits(column: Seq<u8>) -> Seq<bool> {
    let symbols = block_symbols(column);
    let groups = group_count(symbols.len() as int);
    let selectors = selector_count(symbols.len() as int);
    let lengths = block_lengths(column);
    low_bits(groups, 3) + (low_bits(selectors, 15) + (selector_bits(
        0,
        selectors,
        fresh_selectors(groups),
    ) + (trees_bits(lengths, groups as nat) + codes_bits(lengths, symbols))))
}

/// The content of a block with the given transformed bytes.
#[verifier::opaque]
pub open spec fn content_bits(column: Seq<u8>) -> Seq<bool> {
    group_marks(column) + (all_marks(column, 0) + coded_bits(column))
}

/// Marks bring back the bytes of a group.
proof fn lemma_marked(data: Seq<u8>, q: int, s: Seq<u8>, group: int, low: int)
    requires
        0 <= group < 16,
        0 <= low <= 16,
        holds(data, q, byte_marks(s, group)),
    ensures
        marked(data, q, group, low, used_below(s, (16 * group + low) as nat)) == used_below(
            s,
            (16 * group + 16) as nat,
        ),
    decreases 16 - low,
{
    if low < 16 {
        assert(bit_at(data, q + low) == byte_marks(s, group)[low]);
        assert((16 * group + low + 1) as nat - 1 == 16 * group + low);
        lemma_marked(data, q, s, group, low + 1);
    }
}

proof fn lemma_group_unused(s: Seq<u8>, group: int, low: nat)
    requires
        0 <= group < 16,
        low <= 16,
        !group_used(s, group),
    ensures
        used_below(s, (16 * group + low) as nat) == used_below(s, (16 * group) as nat),
    decreases low,
{
    if low > 0 {
        lemma_group_unused(s, group, (low - 1) as nat);
        assert(!s.contains(byte_in(group, low - 1)));
    }
}

/// The map of used bytes is read back.
proof fn lemma_map_read_back(data: Seq<u8>, p: int, q: int, s: Seq<u8>, group: int)
    requires
        0 <= group <= 16,
        holds(data, p, group_marks(s)),
        holds(data, q, all_marks(s, group)),
    ensures
        map_at(data, p, q, group, used_below(s, (16 * group) as nat)) == Ok::<
            (int, Seq<u8>),
            Fault,
        >((q + all_marks(s, group).len(), used_bytes(s))),
    decreases 16 - group,
{
    if group < 16 {
        assert(bit_at(data, p + group) == group_marks(s)[group]);
        if group_used(s, group) {
            lemma_holds_split(data, q, byte_marks(s, group), all_marks(s, group + 1));
            lemma_marked(data, q, s, group, 0);
            lemma_map_read_back(data, p, q + 16, s, group + 1);
        } else {
            lemma_group_unused(s, group, 16);
            lemma_map_read_back(data, p, q, s, group + 1);
        }
    }
}

/// A position in unary is read back.
proof fn lemma_selector_read_back(data: Seq<u8>, p: int, i: int, n: int, groups: int)
    requires
        0 <= i <= n < groups,
        holds(data, p, unary((n - i) as nat)),
    ensures
        selector_at(data, p, i, groups) == Ok::<(int, int), Fault>(
            (n, p + unary((n - i) as nat).len()),
        ),
    decreases n - i,
{
    let bits = unary((n - i) as nat);
    assert(bit_at(data, p + 0) == bits[0]);
    if i < n {
        let rest = unary((n - i - 1) as nat);
        assert(bits =~= seq![true] + rest);
        lemma_holds_split(data, p, seq![true], rest);
        lemma_selector_read_back(data, p + 1, i + 1, n, groups);
    }
}

/// All trees are in the list of selectors.
pub open spec fn lists_all(list: Seq<usize>) -> bool {
    forall|v: usize| v < list.len() ==> #[trigger] list.contains(v)
}

/// Every selector in the list names a tree.
pub open spec fn names_trees(list: Seq<usize>, groups: int) -> bool {
    forall|i: int| 0 <= i < list.len() ==> #[trigger] list[i] < groups
}

proof fn lemma_selectors_read_back(
    data: Seq<u8>,
    p: int,
    k: int,
    count: int,
    list: Seq<usize>,
    found: Seq<usize>,
)
    requires
        0 <= k <= count,
        0 < list.len() <= 6,
        lists_all(list),
        names_trees(list, list.len() as int),
        names_trees(found, list.len() as int),
        holds(data, p, selector_bits(k, count, list)),
    ensures
        selectors_at(data, p, (count - k) as nat, list, found) matches Ok((q, all)) && q == p
            + selector_bits(k, count, list).len() && all.len() == found.len() + (count - k)
            && names_trees(all, list.len() as int),
    decreases count - k,
{
    if k < count {
        let v = (k % (list.len() as int)) as usize;
        vstd::arithmetic::div_mod::lemma_mod_bound(k, list.len() as int);
        let i = place_of(list, v, 0);
        assert(list.contains(v));
        lemma_place_of(list, v, 0);
        let moved = fronted(list, i);
        let rest = selector_bits(k + 1, count, moved);
        lemma_holds_split(data, p, unary(i as nat), rest);
        lemma_selector_read_back(data, p, 0, i, list.len() as int);
        lemma_fronted(list, i, v);
        assert forall|w: usize| w < moved.len() implies #[trigger] moved.contains(w) by {
            assert(list.contains(w));
            lemma_fronted(list, i, w);
        }
        lemma_selectors_read_back(
            data,
            p + unary(i as nat).len(),
            k + 1,
            count,
            moved,
            found.push(list[i]),
        );
    }
}

/// A code length is read back.
proof fn lemma_length_read_back(data: Seq<u8>, p: int, current: int, target: int)
    requires
        1 <= current <= 20,
        1 <= target <= 20,
        holds(data, p, step_bits(current, target)),
    ensures
        length_at(data, p, current) == Ok::<(int, int), Fault>(
            (target, p + step_bits(current, target).len()),
        ),
    decreases (if current < target { target - current } else { current - target }),
{
    let bits = step_bits(current, target);
    assert(bit_at(data, p + 0) == bits[0]);
    if current != target {
        assert(bit_at(data, p + 1) == bits[1]);
        let next = if current < target {
            current + 1
        } else {
            current - 1
        };
        let head = if current < target {
            seq![true, false]
        } else {
            seq![true, true]
        };
        lemma_holds_split(data, p, head, step_bits(next, target));
        lemma_length_read_back(data, p + 2, next, target);
    }
}

proof fn lemma_lengths_read_back(data: Seq<u8>, p: int, lengths: Seq<u8>, i: int, current: int)
    requires
        0 <= i <= lengths.len(),
        tree_fault(lengths) is None,
        1 <= current <= 20,
        holds(data, p, length_bits(lengths, i, current)),
    ensures
        lengths_at(data, p, (lengths.len() - i) as nat, current, lengths.take(i)) == Ok::<
            (int, Seq<u8>),
            Fault,
        >((p + length_bits(lengths, i, current).len(), lengths)),
    decreases lengths.len() - i,
{
    if i < lengths.len() {
        let target = lengths[i] as int;
        lemma_holds_split(
            data,
            p,
            step_bits(current, target),
            length_bits(lengths, i + 1, target),
        );
        lemma_length_read_back(data, p, current, target);
        lemma_lengths_read_back(
            data,
            p + step_bits(current, target).len(),
            lengths,
            i + 1,
            target,
        );
        assert(lengths.take(i).push(lengths[i]) =~= lengths.take(i + 1));
    } else {
        assert(lengths.take(i) =~= lengths);
    }
}

proof fn lemma_trees_read_back(
    data: Seq<u8>,
    p: int,
    lengths: Seq<u8>,
    count: nat,
    trees: Seq<Seq<u8>>,
)
    requires
        lengths.len() > 0,
        tree_fault(lengths) is None,
        holds(data, p, trees_bits(lengths, count)),
        forall|i: int| 0 <= i < trees.len() ==> #[trigger] trees[i] == lengths,
    ensures
        trees_at(data, p, count, lengths.len(), trees) matches Ok((q, all)) && q == p + trees_bits(
            lengths,
            count,
        ).len() && all.len() == trees.len() + count && forall|i: int|
            0 <= i < all.len() ==> #[trigger] all[i] == lengths,
    decreases count,
{
    if count > 0 {
        let rest = trees_bits(lengths, (count - 1) as nat);
        lemma_holds_split(data, p, tree_bits(lengths), rest);
        let start = lengths[0] as int;
        lemma2_to64();
        lemma_holds_split(data, p, low_bits(start, 5), length_bits(lengths, 0, start));
        lemma_holds_number(data, p, start, 5);
        lemma_lengths_read_back(data, p + 5, lengths, 0, start);
        assert(lengths.take(0) =~= Seq::<u8>::empty());
        assert(tree_at(data, p, lengths.len()) == Ok::<(int, Seq<u8>), Fault>(
            (p + tree_bits(lengths).len(), lengths),
        ));
        lemma_trees_read_back(
            data,
            p + tree_bits(lengths).len(),
            lengths,
            (count - 1) as nat,
            trees.push(lengths),
        );
    }
}

/// Feeding keeps the length of the list.
proof fn lemma_feed_list(f: Front, symbol: int, limit: int)
    requires
        f.list.len() > 0,
        0 <= symbol <= f.list.len() + 1,
    ensures
        feed(f, symbol, limit) matches Ok((g, ended)) ==> g.list.len() == f.list.len() && (ended
            <==> symbol == f.list.len() + 1),
{
    if 2 <= symbol <= f.list.len() {
        lemma_fronted(f.list, symbol - 1, f.list[0]);
    }
}

/// The symbols of a block are read back.
proof fn lemma_symbols_read_back(
    data: Seq<u8>,
    p: int,
    lengths: Seq<u8>,
    trees: Seq<Seq<u8>>,
    selectors: Seq<usize>,
    n: int,
    symbols: Seq<int>,
    f: Front,
    limit: int,
)
    requires
        tree_fault(lengths) is None,
        lengths.len() == f.list.len() + 2,
        f.list.len() > 0,
        forall|i: int| 0 <= i < trees.len() ==> #[trigger] trees[i] == lengths,
        names_trees(selectors, trees.len() as int),
        0 <= n,
        n + symbols.len() <= 50 * selectors.len(),
        symbols.len() > 0,
        symbols.last() == f.list.len() + 1,
        forall|i: int|
            0 <= i < symbols.len() - 1 ==> 0 <= #[trigger] symbols[i] <= f.list.len(),
        holds(data, p, codes_bits(lengths, symbols)),
        feed_all(f, symbols, limit) is Ok,
    ensures
        symbols_at(data, p, trees, selectors, n, f, limit) == Ok::<(int, Seq<u8>), Fault>(
            (p + codes_bits(lengths, symbols).len(), feed_all(f, symbols, limit)->Ok_0),
        ),
    decreases symbols.len(),
{
    let symbol = symbols[0];
    let rest = symbols.drop_first();
    lemma_holds_split(data, p, symbol_bits(lengths, symbol), codes_bits(lengths, rest));
    if symbols.len() == 1 {
        assert(symbol == symbols.last());
        assert(codes_bits(lengths, rest).len() == 0);
    } else {
        assert(0 <= symbols[0] <= f.list.len());
    }
    lemma_symbol_read_back(lengths, data, p, symbol);
    lemma_feed_list(f, symbol, limit);
    assert(n / 50 < selectors.len());
    assert(selectors[n / 50] < trees.len());
    assert(trees[selectors[n / 50] as int] == lengths);
    if symbols.len() > 1 {
        let (g, ended) = feed(f, symbol, limit)->Ok_0;
        assert(rest.last() == symbols.last());
        assert forall|i: int| 0 <= i < rest.len() - 1 implies 0 <= #[trigger] rest[i]
            <= g.list.len() by {
            assert(rest[i] == symbols[i + 1]);
        }
        lemma_symbols_read_back(
            data,
            p + symbol_bits(lengths, symbol).len(),
            lengths,
            trees,
            selectors,
            n + 1,
            rest,
            g,
            limit,
        );
    }
}

/// The code lengths of a block describe a code for its symbols.
pub proof fn lemma_block_lengths(column: Seq<u8>, bits: int)
    requires
        column.len() > 0,
        2 <= bits <= 9,
        bits_for(used_bytes(column).len() as int + 2, bits),
    ensures
        tree_fault(block_lengths(column)) is None,
        block_lengths(column).len() == used_bytes(column).len() + 2,
        block_lengths(column) == balanced_lengths(used_bytes(column).len() as int + 2, bits),
{
    reveal(block_lengths);
    let count = used_bytes(column).len() as int + 2;
    let chosen = choose|bits: int| 2 <= bits <= 9 && bits_for(count, bits);
    lemma_bits_for_unique(count, bits, chosen);
    lemma_balanced_valid(count, bits);
}

/// Between three and 258 symbols some number of bits tells them apart.
pub proof fn lemma_bits_exist(count: int) -> (bits: int)
    requires
        3 <= count <= 258,
    ensures
        2 <= bits <= 9,
        bits_for(count, bits),
{
    lemma2_to64();
    if count <= 4 {
        2
    } else if count <= 8 {
        3
    } else if count <= 16 {
        4
    } else if count <= 32 {
        5
    } else if count <= 64 {
        6
    } else if count <= 128 {
        7
    } else if count <= 256 {
        8
    } else {
        9
    }
}

/// The content of a block is read back.
pub proof fn lemma_content_read_back(data: Seq<u8>, p: int, column: Seq<u8>, limit: int)
    requires
        0 < column.len() <= 1_000_000,
        column.len() <= limit <= 0x1000_0000,
        holds(data, p, content_bits(column)),
    ensures
        content_at(data, p, limit) == Ok::<(int, Seq<u8>), Fault>(
            (p + content_bits(column).len(), column),
        ),
{
    reveal(content_at);
    reveal(content_bits);
    let used = used_bytes(column);
    lemma_used_below(column, 256);
    lemma_mtf_round_trip(column, limit);
    lemma_holds_split(
        data,
        p,
        group_marks(column),
        all_marks(column, 0) + coded_bits(column),
    );
    lemma_holds_split(data, p + 16, all_marks(column, 0), coded_bits(column));
    lemma_map_read_back(data, p, p + 16, column, 0);
    assert(used_below(column, 0) =~= Seq::<u8>::empty());
    let q = p + 16 + all_marks(column, 0).len();
    lemma_coded_read_back(data, q, column, limit);
    assert(content_bits(column).len() == 16 + all_marks(column, 0).len() + coded_bits(
        column,
    ).len());
}

proof fn lemma_coded_read_back(data: Seq<u8>, q: int, column: Seq<u8>, limit: int)
    requires
        0 < column.len() <= 1_000_000,
        column.len() <= limit <= 0x1000_0000,
        holds(data, q, coded_bits(column)),
    ensures
        coded_at(data, q, used_bytes(column), limit) == Ok::<(int, Seq<u8>), Fault>(
            (q + coded_bits(column).len(), column),
        ),
{
    reveal(coded_at);
    reveal(coded_bits);
    let used = used_bytes(column);
    lemma_used_below(column, 256);
    lemma_mtf_round_trip(column, limit);
    let bits = lemma_bits_exist(used.len() as int + 2);
    lemma_block_lengths(column, bits);
    let symbols = block_symbols(column);
    assert(covers(used, column));
    lemma_symbols_bound(column, 0, used, 0);
    lemma_symbols_end(column, 0, used, 0);
    let groups = group_count(symbols.len() as int);
    let count = selector_count(symbols.len() as int);
    let lengths = block_lengths(column);
    let list = fresh_selectors(groups);
    let sb = selector_bits(0, count, list);
    let tb = trees_bits(lengths, groups as nat);
    let cb = codes_bits(lengths, symbols);
    lemma2_to64();
    lemma_low_bits_len(groups, 3);
    lemma_low_bits_len(count, 15);
    lemma_holds_split(data, q, low_bits(groups, 3), low_bits(count, 15) + (sb + (tb + cb)));
    lemma_holds_number(data, q, groups, 3);
    lemma_holds_split(data, q + 3, low_bits(count, 15), sb + (tb + cb));
    lemma_holds_number(data, q + 3, count, 15);
    lemma_holds_split(data, q + 18, sb, tb + cb);
    assert forall|v: usize| v < list.len() implies #[trigger] list.contains(v) by {
        assert(list[v as int] == v);
    }
    lemma_selectors_read_back(data, q + 18, 0, count, list, Seq::empty());
    let (r, selectors) = selectors_at(data, q + 18, count as nat, list, Seq::empty())->Ok_0;
    lemma_holds_split(data, r, tb, cb);
    lemma_trees_read_back(data, r, lengths, groups as nat, Seq::empty());
    let (t, trees) = trees_at(data, r, groups as nat, lengths.len(), Seq::empty())->Ok_0;
    let f = Front { list: used, out: Seq::empty(), run: 0, weight: 1 };
    lemma_symbols_read_back(data, t, lengths, trees, selectors, 0, symbols, f, limit);
}

// Reading moves forward.

proof fn lemma_map_position(data: Seq<u8>, p: int, q: int, group: int, used: Seq<u8>)
    ensures
        map_at(data, p, q, group, used) matches Ok((r, all)) ==> q <= r,
    decreases 16 - group,
{
    if group < 16 {
        if !bit_at(data, p + group) {
            lemma_map_position(data, p, q, group + 1, used);
        } else {
            lemma_map_position(data, p, q + 16, group + 1, marked(data, q, group, 0, used));
        }
    }
}

proof fn lemma_selector_position(data: Seq<u8>, p: int, i: int, groups: int)
    ensures
        selector_at(data, p, i, groups) matches Ok((n, q)) ==> p <= q,
    decreases groups - i,
{
    if i + 1 < groups {
        lemma_selector_position(data, p + 1, i + 1, groups);
    }
}

proof fn lemma_selectors_position(
    data: Seq<u8>,
    p: int,
    count: nat,
    list: Seq<usize>,
    found: Seq<usize>,
)
    ensures
        selectors_at(data, p, count, list, found) matches Ok((q, all)) ==> p <= q,
    decreases count,
{
    if count > 0 {
        lemma_selector_position(data, p, 0, list.len() as int);
        if let Ok((i, q)) = selector_at(data, p, 0, list.len() as int) {
            lemma_selectors_position(
                data,
                q,
                (count - 1) as nat,
                fronted(list, i),
                found.push(list[i]),
            );
        }
    }
}

proof fn lemma_length_position(data: Seq<u8>, p: int, current: int)
    ensures
        length_at(data, p, current) matches Ok((n, q)) ==> p <= q,
    decreases 8 * data.len() - p,
{
    if p + 2 <= 8 * data.len() && bit_at(data, p) {
        lemma_length_position(data, p + 2, current + 1);
        lemma_length_position(data, p + 2, current - 1);
    }
}

proof fn lemma_lengths_position(
    data: Seq<u8>,
    p: int,
    count: nat,
    current: int,
    lengths: Seq<u8>,
)
    ensures
        lengths_at(data, p, count, current, lengths) matches Ok((q, all)) ==> p <= q,
    decreases count,
{
    if count > 0 {
        lemma_length_position(data, p, current);
        if let Ok((length, q)) = length_at(data, p, current) {
            lemma_lengths_position(data, q, (count - 1) as nat, length, lengths.push(length as u8));
        }
    }
}

proof fn lemma_trees_position(
    data: Seq<u8>,
    p: int,
    count: nat,
    alphabet: nat,
    trees: Seq<Seq<u8>>,
)
    ensures
        trees_at(data, p, count, alphabet, trees) matches Ok((q, all)) ==> p <= q,
    decreases count,
{
    if count > 0 {
        if let Ok((q, lengths)) = tree_at(data, p, alphabet) {
            lemma_lengths_position(data, p + 5, alphabet, bits_at(data, p, 5), Seq::empty());
            lemma_trees_position(data, q, (count - 1) as nat, alphabet, trees.push(lengths));
        }
    }
}

proof fn lemma_symbols_position(
    data: Seq<u8>,
    p: int,
    trees: Seq<Seq<u8>>,
    selectors: Seq<usize>,
    n: int,
    f: Front,
    limit: int,
)
    ensures
        symbols_at(data, p, trees, selectors, n, f, limit) matches Ok((q, out)) ==> p < q <= 8
            * data.len(),
    decreases 8 * data.len() - p,
{
    if n / 50 < selectors.len() {
        let lengths = trees[selectors[n / 50] as int];
        lemma_symbol_advances(lengths, data, p, 1);
        if let Ok((symbol, q)) = symbol_at(lengths, data, p) {
            if let Ok((g, ended)) = feed(f, symbol, limit) {
                if !ended {
                    lemma_symbols_position(data, q, trees, selectors, n + 1, g, limit);
                }
            }
        }
    }
}

/// The content of a block takes some bits.
pub proof fn lemma_content_position(data: Seq<u8>, p: int, limit: int)
    ensures
        content_at(data, p, limit) matches Ok((q, out)) ==> p < q <= 8 * data.len(),
{
    reveal(content_at);
    reveal(coded_at);
    if let Ok((q, out)) = content_at(data, p, limit) {
        let (m, used) = used_at(data, p)->Ok_0;
        lemma_map_position(data, p, p + 16, 0, Seq::empty());
        let groups = bits_at(data, m, 3);
        let count = bits_at(data, m + 3, 15);
        let list = fresh_selectors(groups);
        lemma_selectors_position(data, m + 18, count as nat, list, Seq::empty());
        let (r, selectors) = selectors_at(data, m + 18, count as nat, list, Seq::empty())->Ok_0;
        lemma_trees_position(data, r, groups as nat, used.len() + 2, Seq::empty());
        let (t, trees) = trees_at(data, r, groups as nat, used.len() + 2, Seq::empty())->Ok_0;
        lemma_symbols_position(
            data,
            t,
            trees,
            selectors,
            0,
            Front { list: used, out: Seq::empty(), run: 0, weight: 1 },
            limit,
        );
    }
}

// The executable decoder.

/// Reads the map of used bytes.
fn read_used_map(reader: &mut BitReader<'_>) -> (result: Result<Vec<u8>, Fault>)
    requires
        old(reader).wf(),
    ensures
        final(reader).wf(),
        final(reader).data() == old(reader).data(),
        match used_at(old(reader).data(), old(reader).at()) {
            Ok((q, used)) => result is Ok && result->Ok_0@ == used && final(reader).at() == q
                && used.len() <= 256,
            Err(fault) => result == Err::<Vec<u8>, Fault>(fault),
        },
{
    let ghost data = reader.data();
    let ghost p = reader.at();
    let mut groups: Vec<bool> = Vec::with_capacity(16);
    let mut group: usize = 0;
    proof {
        reader.lemma_at_in_range();
    }
    while group < 16
        invariant
            reader.wf(),
            reader.data() == data,
            old(reader).data() == data,
            old(reader).at() == p,
            group <= 16,
            reader.at() == p + group,
            groups@.len() == group,
            forall|g: int| 0 <= g < group ==> #[trigger] groups@[g] == bit_at(data, p + g),
        decreases 16 - group,
    {
        match reader.read_bit() {
            Some(bit) => groups.push(bit),
            None => return Err(Fault::TruncatedStream),
        }
        group += 1;
    }
    proof {
        reader.lemma_at_in_range();
    }
    let mut used: Vec<u8> = Vec::new();
    assert(used@ =~= Seq::<u8>::empty());
    let ghost whole = used_at(data, p);
    group = 0;
    while group < 16
        invariant
            reader.wf(),
            reader.data() == data,
            old(reader).data() == data,
            old(reader).at() == p,
            group <= 16,
            groups@.len() == 16,
            forall|g: int| 0 <= g < 16 ==> #[trigger] groups@[g] == bit_at(data, p + g),
            used@.len() <= 16 * group,
            whole == used_at(data, p),
            whole == map_at(data, p, reader.at(), group as int, used@),
        decreases 16 - group,
    {
        assert(groups@[group as int] == bit_at(data, p + group));
        if groups[group] {
            let ghost q = reader.at();
            let ghost before = used@;
            let mut low: usize = 0;
            proof {
                reader.lemma_at_in_range();
            }
            while low < 16
                invariant
                    reader.wf(),
                    reader.data() == data,
                    old(reader).data() == data,
                    old(reader).at() == p,
                    group < 16,
                    low <= 16,
                    bit_at(data, p + group),
                    reader.at() == q + low,
                    used@.len() <= 16 * group + low,
                    whole == used_at(data, p),
                    whole == map_at(data, p, q, group as int, before),
                    marked(data, q, group as int, low as int, used@) == marked(
                        data,
                        q,
                        group as int,
                        0,
                        before,
                    ),
                decreases 16 - low,
            {
                match reader.read_bit() {
                    Some(bit) => {
                        if bit {
                            used.push((group * 16 + low) as u8);
                        }
                    },
                    None => return Err(Fault::TruncatedStream),
                }
                low += 1;
            }
            proof {
                reader.lemma_at_in_range();
            }
        }
        group += 1;
    }
    Ok(used)
}

/// Reads a position in the list of selectors.
fn read_selector(reader: &mut BitReader<'_>, groups: usize) -> (result: Result<usize, Fault>)
    requires
        old(reader).wf(),
        1 <= groups <= 6,
    ensures
        final(reader).wf(),
        final(reader).data() == old(reader).data(),
        match selector_at(old(reader).data(), old(reader).at(), 0, groups as int) {
            Ok((i, q)) => result == Ok::<usize, Fault>(i as usize) && final(reader).at() == q && 0
                <= i < groups,
            Err(fault) => result == Err::<usize, Fault>(fault),
        },
{
    let ghost data = reader.data();
    let ghost whole = selector_at(data, reader.at(), 0, groups as int);
    let mut i: usize = 0;
    loop
        invariant
            reader.wf(),
            reader.data() == data,
            old(reader).data() == data,
            i < groups <= 6,
            whole == selector_at(data, old(reader).at(), 0, groups as int),
            whole == selector_at(data, reader.at(), i as int, groups as int),
        decreases groups - i,
    {
        match reader.read_bit() {
            Some(bit) => {
                if !bit {
                    return Ok(i);
                }
            },
            None => return Err(Fault::TruncatedStream),
        }
        if i + 1 >= groups {
            return Err(Fault::SelectorValue);
        }
        i += 1;
    }
}

/// The list of selectors before the first one.
fn new_selectors(groups: usize) -> (list: Vec<usize>)
    ensures
        list@ == fresh_selectors(groups as int),
{
    let mut list: Vec<usize> = Vec::with_capacity(groups);
    let mut i: usize = 0;
    while i < groups
        invariant
            i <= groups,
            list@.len() == i,
            forall|k: int| 0 <= k < i ==> #[trigger] list@[k] == k,
        decreases groups - i,
    {
        list.push(i);
        i += 1;
    }
    assert(list@ =~= fresh_selectors(groups as int));
    list
}

/// Reads the selectors of a block.
fn read_selectors(reader: &mut BitReader<'_>, count: usize, groups: usize) -> (result: Result<
    Vec<usize>,
    Fault,
>)
    requires
        old(reader).wf(),
        2 <= groups <= 6,
    ensures
        final(reader).wf(),
        final(reader).data() == old(reader).data(),
        match selectors_at(
            old(reader).data(),
            old(reader).at(),
            count as nat,
            fresh_selectors(groups as int),
            Seq::empty(),
        ) {
            Ok((q, all)) => result is Ok && result->Ok_0@ == all && final(reader).at() == q
                && all.len() == count && names_trees(all, groups as int),
            Err(fault) => result == Err::<Vec<usize>, Fault>(fault),
        },
{
    let ghost data = reader.data();
    let mut list = new_selectors(groups);
    let mut selectors: Vec<usize> = Vec::with_capacity(count);
    let mut k: usize = 0;
    let ghost whole = selectors_at(data, reader.at(), count as nat, list@, Seq::empty());
    assert(selectors@ =~= Seq::<usize>::empty());
    while k < count
        invariant
            reader.wf(),
            reader.data() == data,
            old(reader).data() == data,
            2 <= groups <= 6,
            k <= count,
            list@.len() == groups,
            names_trees(list@, groups as int),
            names_trees(selectors@, groups as int),
            selectors@.len() == k,
            whole == selectors_at(
                data,
                old(reader).at(),
                count as nat,
                fresh_selectors(groups as int),
                Seq::empty(),
            ),
            whole == selectors_at(data, reader.at(), (count - k) as nat, list@, selectors@),
        decreases count - k,
    {
        let i: usize = match read_selector(reader, groups) {
            Ok(i) => i,
            Err(fault) => return Err(fault),
        };
        let value: usize = list[i];
        move_to_front(&mut list, i);
        selectors.push(value);
        k += 1;
    }
    Ok(selectors)
}

/// Reads a code length as steps from the one before.
fn read_length(reader: &mut BitReader<'_>, start: usize) -> (result: Result<usize, Fault>)
    requires
        old(reader).wf(),
        start <= 31,
    ensures
        final(reader).wf(),
        final(reader).data() == old(reader).data(),
        match length_at(old(reader).data(), old(reader).at(), start as int) {
            Ok((length, q)) => result == Ok::<usize, Fault>(length as usize) && 0 <= length <= 31
                && final(reader).at() == q,
            Err(fault) => result == Err::<usize, Fault>(fault),
        },
{
    let ghost data = reader.data();
    let ghost whole = length_at(data, reader.at(), start as int);
    let mut current: usize = start;
    loop
        invariant
            reader.wf(),
            reader.data() == data,
            old(reader).data() == data,
            current <= 31,
            whole == length_at(data, old(reader).at(), start as int),
            whole == length_at(data, reader.at(), current as int),
        decreases 8 * data.len() - reader.at(),
    {
        proof {
            reader.lemma_at_in_range();
        }
        match reader.read_bit() {
            Some(more) => {
                if !more {
                    return Ok(current);
                }
            },
            None => return Err(Fault::TruncatedStream),
        }
        let down: bool = match reader.read_bit() {
            Some(down) => down,
            None => return Err(Fault::TruncatedStream),
        };
        proof {
            reader.lemma_at_in_range();
        }
        if down {
            if current < 2 || current > 21 {
                return Err(Fault::CodeLength);
            }
            current -= 1;
        } else {
            if current >= 20 {
                return Err(Fault::CodeLength);
            }
            current += 1;
        }
    }
}

/// Reads the code lengths of one tree.
fn read_tree(reader: &mut BitReader<'_>, alphabet: usize) -> (result: Result<Huffman, Fault>)
    requires
        old(reader).wf(),
        1 <= alphabet <= 258,
    ensures
        final(reader).wf(),
        final(reader).data() == old(reader).data(),
        match tree_at(old(reader).data(), old(reader).at(), alphabet as nat) {
            Ok((q, lengths)) => result is Ok && result->Ok_0.wf() && result->Ok_0.lengths()
                == lengths && final(reader).at() == q && lengths.len() == alphabet,
            Err(fault) => result == Err::<Huffman, Fault>(fault),
        },
{
    let ghost data = reader.data();
    let ghost p = reader.at();
    proof {
        lemma_bits_at_bound(data, p, 5);
        lemma2_to64();
    }
    let mut current: usize = match reader.read_bits(5) {
        Some(bits) => bits as usize,
        None => return Err(Fault::TruncatedStream),
    };
    let mut lengths: Vec<u8> = Vec::with_capacity(alphabet);
    assert(lengths@ =~= Seq::<u8>::empty());
    let ghost whole = lengths_at(data, p + 5, alphabet as nat, current as int, Seq::empty());
    let ghost start = current as int;
    while lengths.len() < alphabet
        invariant
            reader.wf(),
            reader.data() == data,
            old(reader).data() == data,
            old(reader).at() == p,
            current <= 31,
            lengths@.len() <= alphabet,
            field(data, p, 5) == Ok::<int, Fault>(start),
            whole == lengths_at(data, p + 5, alphabet as nat, start, Seq::empty()),
            whole == lengths_at(
                data,
                reader.at(),
                (alphabet - lengths@.len()) as nat,
                current as int,
                lengths@,
            ),
        decreases alphabet - lengths.len(),
    {
        current =
        match read_length(reader, current) {
            Ok(length) => length,
            Err(fault) => return Err(fault),
        };
        lengths.push(current as u8);
    }
    Huffman::new(&lengths)
}

/// The code lengths of the trees.
pub open spec fn trees_lengths(trees: Seq<Huffman>) -> Seq<Seq<u8>> {
    Seq::new(trees.len(), |i: int| trees[i].lengths())
}

/// Reads the trees of a block.
fn read_trees(reader: &mut BitReader<'_>, groups: usize, alphabet: usize) -> (result: Result<
    Vec<Huffman>,
    Fault,
>)
    requires
        old(reader).wf(),
        1 <= alphabet <= 258,
    ensures
        final(reader).wf(),
        final(reader).data() == old(reader).data(),
        match trees_at(
            old(reader).data(),
            old(reader).at(),
            groups as nat,
            alphabet as nat,
            Seq::empty(),
        ) {
            Ok((q, all)) => result is Ok && trees_lengths(result->Ok_0@) == all && all.len()
                == groups && final(reader).at() == q && forall|i: int|
                0 <= i < groups ==> (#[trigger] result->Ok_0@[i]).wf()
                    && result->Ok_0@[i].lengths().len() == alphabet,
            Err(fault) => result == Err::<Vec<Huffman>, Fault>(fault),
        },
{
    let ghost data = reader.data();
    let mut trees: Vec<Huffman> = Vec::with_capacity(groups);
    let ghost whole = trees_at(
        data,
        reader.at(),
        groups as nat,
        alphabet as nat,
        Seq::empty(),
    );
    assert(trees_lengths(trees@) =~= Seq::<Seq<u8>>::empty());
    while trees.len() < groups
        invariant
            reader.wf(),
            reader.data() == data,
            old(reader).data() == data,
            1 <= alphabet <= 258,
            trees@.len() <= groups,
            forall|i: int|
                0 <= i < trees@.len() ==> (#[trigger] trees@[i]).wf()
                    && trees@[i].lengths().len() == alphabet,
            whole == trees_at(
                data,
                old(reader).at(),
                groups as nat,
                alphabet as nat,
                Seq::empty(),
            ),
            whole == trees_at(
                data,
                reader.at(),
                (groups - trees@.len()) as nat,
                alphabet as nat,
                trees_lengths(trees@),
            ),
        decreases groups - trees.len(),
    {
        let ghost before = trees@;
        match read_tree(reader, alphabet) {
            Ok(tree) => trees.push(tree),
            Err(fault) => return Err(fault),
        }
        assert(trees_lengths(trees@) =~= trees_lengths(before).push(
            trees@[before.len() as int].lengths(),
        ));
    }
    Ok(trees)
}

/// Takes in a symbol that is no digit of a run; tells whether it ended the block.
fn take_symbol(
    mtf: &mut Vec<u8>,
    output: &mut Vec<u8>,
    run: usize,
    weight: usize,
    symbol: usize,
    limit: usize,
) -> (result: Result<bool, Fault>)
    requires
        symbol >= 2,
        old(mtf)@.len() > 0,
        symbol <= old(mtf)@.len() + 1,
        old(output)@.len() <= limit,
        run == 0 ==> weight == 1,
    ensures
        match feed(
            Front {
                list: old(mtf)@,
                out: old(output)@,
                run: run as int,
                weight: weight as int,
            },
            symbol as int,
            limit as int,
        ) {
            Ok((g, ended)) => result == Ok::<bool, Fault>(ended) && g == (Front {
                list: final(mtf)@,
                out: final(output)@,
                run: 0,
                weight: 1,
            }) && final(output)@.len() <= limit && final(mtf)@.len() == old(mtf)@.len(),
            Err(fault) => result == Err::<bool, Fault>(fault),
        },
{
    if run != 0 {
        if run > limit - output.len() {
            return Err(Fault::BlockTooLarge);
        }
        append_run(output, mtf[0], run);
    }
    if symbol - 1 == mtf.len() {
        return Ok(true);
    }
    if output.len() == limit {
        return Err(Fault::BlockTooLarge);
    }
    let byte: u8 = mtf[symbol - 1];
    proof {
        lemma_fronted(mtf@, symbol - 1, byte);
    }
    move_to_front(mtf, symbol - 1);
    output.push(byte);
    Ok(false)
}

/// Reads the symbols of a block.
fn read_symbols(
    reader: &mut BitReader<'_>,
    trees: &Vec<Huffman>,
    selectors: &Vec<usize>,
    used: Vec<u8>,
    limit: usize,
) -> (result: Result<Vec<u8>, Fault>)
    requires
        old(reader).wf(),
        0 < used@.len() <= 256,
        limit <= 0x1000_0000,
        selectors@.len() <= 0x8000,
        names_trees(selectors@, trees@.len() as int),
        forall|i: int|
            0 <= i < trees@.len() ==> (#[trigger] trees@[i]).wf() && trees@[i].lengths().len()
                == used@.len() + 2,
    ensures
        final(reader).wf(),
        final(reader).data() == old(reader).data(),
        match symbols_at(
            old(reader).data(),
            old(reader).at(),
            trees_lengths(trees@),
            selectors@,
            0,
            Front { list: used@, out: Seq::empty(), run: 0, weight: 1 },
            limit as int,
        ) {
            Ok((q, out)) => result is Ok && result->Ok_0@ == out && final(reader).at() == q
                && out.len() <= limit,
            Err(fault) => result == Err::<Vec<u8>, Fault>(fault),
        },
{
    let ghost data = reader.data();
    let ghost all = trees_lengths(trees@);
    let ghost whole = symbols_at(
        data,
        reader.at(),
        all,
        selectors@,
        0,
        Front { list: used@, out: Seq::empty(), run: 0, weight: 1 },
        limit as int,
    );
    let mut mtf: Vec<u8> = used;
    let mut output: Vec<u8> = Vec::new();
    let mut n: usize = 0;
    let mut run: usize = 0;
    let mut weight: usize = 1;
    assert(output@ =~= Seq::<u8>::empty());
    loop
        invariant
            reader.wf(),
            reader.data() == data,
            old(reader).data() == data,
            all == trees_lengths(trees@),
            limit <= 0x1000_0000,
            mtf@.len() == used@.len(),
            0 < mtf@.len() <= 256,
            selectors@.len() <= 0x8000,
            n <= 50 * selectors@.len(),
            names_trees(selectors@, trees@.len() as int),
            forall|i: int|
                0 <= i < trees@.len() ==> (#[trigger] trees@[i]).wf()
                    && trees@[i].lengths().len() == mtf@.len() + 2,
            output@.len() <= limit,
            weight >= 1,
            run == 0 ==> weight == 1,
            whole == symbols_at(
                data,
                old(reader).at(),
                all,
                selectors@,
                0,
                Front { list: used@, out: Seq::empty(), run: 0, weight: 1 },
                limit as int,
            ),
            whole == symbols_at(
                data,
                reader.at(),
                all,
                selectors@,
                n as int,
                Front { list: mtf@, out: output@, run: run as int, weight: weight as int },
                limit as int,
            ),
        decreases 8 * data.len() - reader.at(),
    {
        let group: usize = n / GROUP_SIZE;
        if group >= selectors.len() {
            return Err(Fault::SelectorsExhausted);
        }
        proof {
            reader.lemma_at_in_range();
            assert(selectors@[group as int] < trees@.len());
            trees@[selectors@[group as int] as int].lemma_valid();
        }
        let tree = &trees[selectors[group]];
        assert(all[selectors@[group as int] as int] == tree.lengths());
        let symbol: usize = match tree.decode(reader) {
            Ok(symbol) => symbol as usize,
            Err(fault) => return Err(fault),
        };
        proof {
            reader.lemma_at_in_range();
        }
        n += 1;
        if symbol <= 1 {
            assert((symbol + 1) * weight == (if symbol == 0 {
                weight as int
            } else {
                2 * weight
            })) by (nonlinear_arith)
                requires
                    symbol == 0 || symbol == 1,
            ;
            let addition: usize = if symbol == 0 {
                weight
            } else {
                match weight.checked_mul(2) {
                    Some(addition) => addition,
                    None => return Err(Fault::RunLengthOverflow),
                }
            };
            run =
            match run.checked_add(addition) {
                Some(run) => run,
                None => return Err(Fault::RunLengthOverflow),
            };
            weight =
            match weight.checked_mul(2) {
                Some(weight) => weight,
                None => return Err(Fault::RunWeightOverflow),
            };
        } else {
            match take_symbol(&mut mtf, &mut output, run, weight, symbol, limit) {
                Ok(ended) => {
                    if ended {
                        return Ok(output);
                    }
                },
                Err(fault) => return Err(fault),
            }
            run = 0;
            weight = 1;
        }
    }
}

/// Decodes the content of a block: the transformed bytes.
pub fn decode_block_symbols(reader: &mut BitReader<'_>, block_limit: usize) -> (result: Result<
    Vec<u8>,
    Fault,
>)
    requires
        old(reader).wf(),
        block_limit <= 0x1000_0000,
    ensures
        final(reader).wf(),
        final(reader).data() == old(reader).data(),
        match content_at(old(reader).data(), old(reader).at(), block_limit as int) {
            Ok((q, out)) => result is Ok && result->Ok_0@ == out && final(reader).at() == q
                && out.len() <= block_limit,
            Err(fault) => result == Err::<Vec<u8>, Fault>(fault),
        },
{
    proof {
        reveal(content_at);
        reveal(coded_at);
    }
    let used = match read_used_map(reader) {
        Ok(used) => used,
        Err(fault) => return Err(fault),
    };
    if used.len() == 0 {
        return Err(Fault::EmptySymbolMap);
    }
    let ghost data = reader.data();
    let ghost p = reader.at();
    proof {
        lemma_bits_at_bound(data, p, 3);
        lemma_bits_at_bound(data, p + 3, 15);
        lemma2_to64();
    }
    let groups: usize = match reader.read_bits(3) {
        Some(bits) => bits as usize,
        None => return Err(Fault::TruncatedStream),
    };
    if groups < 2 || groups > 6 {
        return Err(Fault::GroupCount);
    }
    let count: usize = match reader.read_bits(15) {
        Some(bits) => bits as usize,
        None => return Err(Fault::TruncatedStream),
    };
    if count == 0 {
        return Err(Fault::NoSelectors);
    }
    let selectors = match read_selectors(reader, count, groups) {
        Ok(selectors) => selectors,
        Err(fault) => return Err(fault),
    };
    let alphabet: usize = used.len() + 2;
    let trees = match read_trees(reader, groups, alphabet) {
        Ok(trees) => trees,
        Err(fault) => return Err(fault),
    };
    read_symbols(reader, &trees, &selectors, used, block_limit)
}

// The executable encoder.

/// Writes the map of the bytes that occur in `column`.
fn write_used_map(writer: &mut BitWriter, used: &Vec<u8>, Ghost(column): Ghost<Seq<u8>>)
    requires
        old(writer).wf(),
        used@ == used_bytes(column),
    ensures
        final(writer).wf(),
        final(writer).sent() == old(writer).sent() + (group_marks(column) + all_marks(column, 0)),
{
    let mut present: Vec<bool> = vec![false; 256];
    let mut i: usize = 0;
    while i < used.len()
        invariant
            i <= used@.len(),
            present@.len() == 256,
            forall|b: int|
                0 <= b < 256 ==> #[trigger] present@[b] == used@.take(i as int).contains(b as u8),
        decreases used.len() - i,
    {
        let byte: u8 = used[i];
        let ghost before = present@;
        present.set(byte as usize, true);
        proof {
            let shorter = used@.take(i as int);
            let longer = used@.take(i + 1);
            assert(longer =~= shorter.push(byte));
            assert forall|b: int| 0 <= b < 256 implies #[trigger] present@[b] == longer.contains(
                b as u8,
            ) by {
                if b == byte {
                    assert(longer[i as int] == b as u8);
                } else {
                    assert(present@[b] == before[b]);
                    if longer.contains(b as u8) {
                        let k = choose|k: int| 0 <= k < longer.len() && longer[k] == b as u8;
                        assert(shorter[k] == b as u8);
                    }
                    if shorter.contains(b as u8) {
                        let k = choose|k: int| 0 <= k < i && shorter[k] == b as u8;
                        assert(longer[k] == b as u8);
                    }
                }
            }
        }
        i += 1;
    }
    proof {
        assert(used@.take(i as int) =~= used@);
        lemma_used_below(column, 256);
        assert forall|b: int| 0 <= b < 256 implies #[trigger] present@[b] == column.contains(
            b as u8,
        ) by {
            if used@.contains(b as u8) {
                let k = choose|k: int| 0 <= k < used@.len() && used@[k] == b as u8;
                assert(column.contains(used@[k]));
            }
        }
    }
    let mut groups: Vec<bool> = Vec::with_capacity(16);
    let ghost start = writer.sent();
    let mut group: usize = 0;
    assert(start + group_marks(column).take(0) =~= start);
    while group < 16
        invariant
            writer.wf(),
            group <= 16,
            present@.len() == 256,
            forall|b: int| 0 <= b < 256 ==> #[trigger] present@[b] == column.contains(b as u8),
            groups@.len() == group,
            forall|g: int| 0 <= g < group ==> #[trigger] groups@[g] == group_used(column, g),
            writer.sent() == start + group_marks(column).take(group as int),
        decreases 16 - group,
    {
        let mut any: bool = false;
        let mut low: usize = 0;
        while low < 16
            invariant
                group < 16,
                low <= 16,
                present@.len() == 256,
                forall|b: int| 0 <= b < 256 ==> #[trigger] present@[b] == column.contains(b as u8),
                any == (exists|l: int|
                    0 <= l < low && column.contains(#[trigger] byte_in(group as int, l))),
            decreases 16 - low,
        {
            assert(present@[group * 16 + low] == column.contains(
                byte_in(group as int, low as int),
            ));
            if present[group * 16 + low] {
                any = true;
            }
            low += 1;
        }
        groups.push(any);
        writer.write_bit(any);
        assert(group_marks(column).take(group + 1) =~= group_marks(column).take(
            group as int,
        ).push(any));
        assert(writer.sent() =~= start + group_marks(column).take(group + 1));
        group += 1;
    }
    proof {
        assert(group_marks(column).take(16) =~= group_marks(column));
        assert(start + (group_marks(column) + all_marks(column, 0)) =~= writer.sent() + all_marks(
            column,
            0,
        ));
    }
    let ghost target = start + (group_marks(column) + all_marks(column, 0));
    group = 0;
    while group < 16
        invariant
            writer.wf(),
            group <= 16,
            present@.len() == 256,
            forall|b: int| 0 <= b < 256 ==> #[trigger] present@[b] == column.contains(b as u8),
            groups@.len() == 16,
            forall|g: int| 0 <= g < 16 ==> #[trigger] groups@[g] == group_used(column, g),
            target == writer.sent() + all_marks(column, group as int),
        decreases 16 - group,
    {
        assert(groups@[group as int] == group_used(column, group as int));
        if groups[group] {
            let ghost before = writer.sent();
            let ghost marks = byte_marks(column, group as int);
            let mut low: usize = 0;
            assert(before + marks.take(0) =~= before);
            while low < 16
                invariant
                    writer.wf(),
                    group < 16,
                    low <= 16,
                    present@.len() == 256,
                    forall|b: int|
                        0 <= b < 256 ==> #[trigger] present@[b] == column.contains(b as u8),
                    marks == byte_marks(column, group as int),
                    writer.sent() == before + marks.take(low as int),
                decreases 16 - low,
            {
                assert(present@[group * 16 + low] == marks[low as int]);
                writer.write_bit(present[group * 16 + low]);
                assert(marks.take(low + 1) =~= marks.take(low as int).push(marks[low as int]));
                assert(writer.sent() =~= before + marks.take(low + 1));
                low += 1;
            }
            assert(marks.take(16) =~= marks);
            assert(target =~= writer.sent() + all_marks(column, group + 1));
        }
        group += 1;
    }
    assert(target =~= writer.sent());
}

/// Writes the selectors of a block.
fn write_selectors(writer: &mut BitWriter, count: usize, groups: usize)
    requires
        old(writer).wf(),
        2 <= groups <= 6,
    ensures
        final(writer).wf(),
        final(writer).sent() == old(writer).sent() + selector_bits(
            0,
            count as int,
            fresh_selectors(groups as int),
        ),
{
    let mut list = new_selectors(groups);
    let mut k: usize = 0;
    let ghost target = writer.sent() + selector_bits(0, count as int, list@);
    assert forall|v: usize| v < list@.len() implies #[trigger] list@.contains(v) by {
        assert(list@[v as int] == v);
    }
    while k < count
        invariant
            writer.wf(),
            2 <= groups <= 6,
            k <= count,
            list@.len() == groups,
            lists_all(list@),
            target == writer.sent() + selector_bits(k as int, count as int, list@),
        decreases count - k,
    {
        let value: usize = k % groups;
        let ghost place = place_of(list@, value, 0);
        proof {
            assert(list@.contains(value));
            lemma_place_of(list@, value, 0);
        }
        let ghost before = writer.sent();
        let mut i: usize = 0;
        assert(before + Seq::new(0, |j: int| true) =~= before);
        while list[i] != value
            invariant
                writer.wf(),
                i <= place < list@.len(),
                place == place_of(list@, value, 0),
                place == place_of(list@, value, i as int),
                list@[place] == value,
                writer.sent() == before + Seq::new(i as nat, |j: int| true),
            decreases list.len() - i,
        {
            writer.write_bit(true);
            i += 1;
            assert(writer.sent() =~= before + Seq::new(i as nat, |j: int| true));
        }
        writer.write_bit(false);
        assert(writer.sent() =~= before + unary(i as nat));
        let ghost old_list = list@;
        move_to_front(&mut list, i);
        proof {
            lemma_fronted(old_list, i as int, value);
            assert forall|v: usize| v < list@.len() implies #[trigger] list@.contains(v) by {
                assert(old_list.contains(v));
                lemma_fronted(old_list, i as int, v);
            }
            assert(target =~= writer.sent() + selector_bits(k + 1, count as int, list@));
        }
        k += 1;
    }
    assert(target =~= writer.sent());
}

/// Writes the code lengths of one tree.
fn write_code_lengths(writer: &mut BitWriter, lengths: &Vec<u8>)
    requires
        old(writer).wf(),
        lengths@.len() > 0,
    ensures
        final(writer).wf(),
        final(writer).sent() == old(writer).sent() + tree_bits(lengths@),
{
    let ghost target = writer.sent() + tree_bits(lengths@);
    let mut current: u8 = lengths[0];
    writer.write_bits(current as u64, 5);
    let mut i: usize = 0;
    assert(target =~= writer.sent() + length_bits(lengths@, 0, current as int));
    while i < lengths.len()
        invariant
            writer.wf(),
            i <= lengths@.len(),
            target == writer.sent() + length_bits(lengths@, i as int, current as int),
        decreases lengths.len() - i,
    {
        let wanted: u8 = lengths[i];
        let ghost rest = length_bits(lengths@, i + 1, wanted as int);
        assert(target =~= writer.sent() + step_bits(current as int, wanted as int) + rest);
        while current < wanted
            invariant
                writer.wf(),
                target == writer.sent() + step_bits(current as int, wanted as int) + rest,
            decreases wanted - current,
        {
            let ghost before = writer.sent();
            writer.write_bit(true);
            writer.write_bit(false);
            assert(writer.sent() =~= before + seq![true, false]);
            assert(before + (seq![true, false] + step_bits(current + 1, wanted as int)) + rest
                =~= writer.sent() + step_bits(current + 1, wanted as int) + rest);
            current += 1;
        }
        while current > wanted
            invariant
                writer.wf(),
                current >= wanted,
                target == writer.sent() + step_bits(current as int, wanted as int) + rest,
            decreases current - wanted,
        {
            let ghost before = writer.sent();
            writer.write_bit(true);
            writer.write_bit(true);
            assert(writer.sent() =~= before + seq![true, true]);
            assert(before + (seq![true, true] + step_bits(current - 1, wanted as int)) + rest
                =~= writer.sent() + step_bits(current - 1, wanted as int) + rest);
            current -= 1;
        }
        let ghost before = writer.sent();
        writer.write_bit(false);
        assert(writer.sent() =~= before + seq![false]);
        assert(target =~= writer.sent() + rest);
        i += 1;
    }
    assert(target =~= writer.sent());
}

/// Writes the same tree `count` times.
fn write_trees(writer: &mut BitWriter, lengths: &Vec<u8>, count: usize)
    requires
        old(writer).wf(),
        lengths@.len() > 0,
    ensures
        final(writer).wf(),
        final(writer).sent() == old(writer).sent() + trees_bits(lengths@, count as nat),
{
    let mut tree: usize = 0;
    let ghost target = writer.sent() + trees_bits(lengths@, count as nat);
    while tree < count
        invariant
            writer.wf(),
            tree <= count,
            lengths@.len() > 0,
            target == writer.sent() + trees_bits(lengths@, (count - tree) as nat),
        decreases count - tree,
    {
        write_code_lengths(writer, lengths);
        tree += 1;
        assert(target =~= writer.sent() + trees_bits(lengths@, (count - tree) as nat));
    }
    assert(target =~= writer.sent());
}

/// Writes the codes of symbols.
fn write_symbols(
    writer: &mut BitWriter,
    symbols: &Vec<usize>,
    codes: &Vec<u32>,
    lengths: &Vec<u8>,
    Ghost(numbers): Ghost<Seq<int>>,
)
    requires
        old(writer).wf(),
        symbols@ == numbers.map_values(|d: int| d as usize),
        lengths@.len() == codes@.len(),
        lengths@.len() <= 258,
        tree_fault(lengths@) is None,
        forall|s: int| 0 <= s < lengths@.len() ==> #[trigger] codes@[s] == code_of(lengths@, s),
        forall|k: int| 0 <= k < numbers.len() ==> 0 <= #[trigger] numbers[k] < lengths@.len(),
    ensures
        final(writer).wf(),
        final(writer).sent() == old(writer).sent() + codes_bits(lengths@, numbers),
{
    let ghost target = writer.sent() + codes_bits(lengths@, numbers);
    let mut i: usize = 0;
    assert(numbers.skip(0) =~= numbers);
    while i < symbols.len()
        invariant
            writer.wf(),
            i <= symbols@.len(),
            symbols@ == numbers.map_values(|d: int| d as usize),
            lengths@.len() == codes@.len(),
            tree_fault(lengths@) is None,
            forall|s: int| 0 <= s < lengths@.len() ==> #[trigger] codes@[s] == code_of(lengths@, s),
            forall|k: int|
                0 <= k < numbers.len() ==> 0 <= #[trigger] numbers[k] < lengths@.len(),
            lengths@.len() <= 258,
            target == writer.sent() + codes_bits(lengths@, numbers.skip(i as int)),
        decreases symbols.len() - i,
    {
        let symbol: usize = symbols[i];
        assert(0 <= numbers[i as int] < lengths@.len());
        assert(symbol == numbers[i as int]);
        writer.write_bits(codes[symbol] as u64, lengths[symbol] as usize);
        assert(numbers.skip(i as int).drop_first() =~= numbers.skip(i + 1));
        assert(target =~= writer.sent() + codes_bits(lengths@, numbers.skip(i + 1)));
        i += 1;
    }
    assert(target =~= writer.sent());
}

/// The content of a block, part by part.
proof fn lemma_content_parts(column: Seq<u8>, start: Seq<bool>)
    ensures
        ({
            let symbols = block_symbols(column);
            let groups = group_count(symbols.len() as int);
            let count = selector_count(symbols.len() as int);
            let lengths = block_lengths(column);
            start + (group_marks(column) + all_marks(column, 0)) + low_bits(groups, 3) + low_bits(
                count,
                15,
            ) + selector_bits(0, count, fresh_selectors(groups)) + trees_bits(
                lengths,
                groups as nat,
            ) + codes_bits(lengths, symbols) == start + content_bits(column)
        }),
{
    reveal(content_bits);
    reveal(coded_bits);
    let symbols = block_symbols(column);
    let groups = group_count(symbols.len() as int);
    let count = selector_count(symbols.len() as int);
    let lengths = block_lengths(column);
    lemma_regroup(
        start,
        group_marks(column),
        all_marks(column, 0),
        low_bits(groups, 3),
        low_bits(count, 15),
        selector_bits(0, count, fresh_selectors(groups)),
        trees_bits(lengths, groups as nat),
        codes_bits(lengths, symbols),
    );
}

proof fn lemma_regroup(
    a: Seq<bool>,
    b: Seq<bool>,
    c: Seq<bool>,
    d: Seq<bool>,
    e: Seq<bool>,
    f: Seq<bool>,
    g: Seq<bool>,
    h: Seq<bool>,
)
    ensures
        a + (b + c) + d + e + f + g + h == a + (b + (c + (d + (e + (f + (g + h)))))),
{
    assert(a + (b + c) + d + e + f + g + h =~= a + (b + (c + (d + (e + (f + (g + h)))))));
}

/// Writes the content of a block with the given transformed bytes.
pub fn write_content(writer: &mut BitWriter, column: &Vec<u8>) -> (result: Result<(), Fault>)
    requires
        old(writer).wf(),
        0 < column@.len() <= 1_000_000,
    ensures
        result is Ok,
        final(writer).wf(),
        final(writer).sent() == old(writer).sent() + content_bits(column@),
{
    let ghost start = writer.sent();
    let (used, symbols) = mtf_rle2(column);
    let ghost numbers = block_symbols(column@);
    proof {
        lemma_used_below(column@, 256);
        assert(column@.contains(column@[0]));
        assert(used@.contains(column@[0]));
        assert(covers(used@, column@));
        lemma_symbols_bound(column@, 0, used@, 0);
    }
    let alphabet: usize = used.len() + 2;
    let (lengths, bits) = balanced_code_lengths(alphabet);
    proof {
        lemma_block_lengths(column@, bits@);
    }
    let codes = match canonical_codes(&lengths) {
        Ok(codes) => codes,
        Err(fault) => return Err(fault),
    };
    let count: usize = (symbols.len() + 49) / 50;
    let groups: usize = if symbols.len() < 200 {
        2
    } else if symbols.len() < 600 {
        3
    } else if symbols.len() < 1200 {
        4
    } else if symbols.len() < 2400 {
        5
    } else {
        6
    };
    if count > 0x7fff {
        return Err(Fault::SelectorCount);
    }
    write_used_map(writer, &used, Ghost(column@));
    writer.write_bits(groups as u64, 3);
    writer.write_bits(count as u64, 15);
    write_selectors(writer, count, groups);
    let ghost fields = writer.sent();
    write_trees(writer, &lengths, groups);
    assert(writer.sent() == fields + trees_bits(lengths@, groups as nat));
    write_symbols(writer, &symbols, &codes, &lengths, Ghost(numbers));
    proof {
        lemma_content_parts(column@, start);
    }
    Ok(())
}

} // verus!
