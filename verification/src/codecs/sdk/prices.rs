//! What symbols cost under the models as they are.

use vstd::arithmetic::power2::{lemma2_to64, lemma_pow2_pos, pow2};
use vstd::prelude::*;

use crate::codecs::lzma::coder::moderate;
use crate::codecs::lzma::encoding::get_pos_slot;
use crate::codecs::lzma::operations::lemma_literal_fits;
use crate::codecs::lzma::symbols::{
    binary_digit, lemma_matched_fits_step, lemma_slot_base, lemma_slot_of, lemma_tree_fits_step,
    lemma_whole_tree_fits, matched_fits, slot_base, slot_bits, slot_of, tree_fits, ALIGN, LEN,
    LITERAL, POS_SLOT, REP_LEN, SPEC_POS,
};
use crate::codecs::sdk::ledger::{
    aligns_filled, all_lens_updated, distances_filled, empty_ledger, empty_lens, lens_updated,
    zeros, Ledger, LenLedger,
};
use crate::codecs::sdk::price::{bit_price, one_price, zero_price, ProbPrices};
use crate::math::{lemma_pow2_monotonic, lemma_pow2_step, power_of_two};

verus! {

/// No entry of a table is larger.
pub const PRICE_LIMIT: u32 = 4000;

/// The price of the `n` lowest bits of a symbol in a tree, the highest first.
pub open spec fn tree_cost(probs: Seq<u16>, base: int, n: nat, m: int, symbol: int) -> int
    decreases n,
{
    if n == 0 {
        0
    } else {
        let bit = binary_digit(symbol, (n - 1) as nat);
        bit_price(probs[base + m], bit) + tree_cost(
            probs,
            base,
            (n - 1) as nat,
            2 * m + bit,
            symbol,
        )
    }
}

/// The price of the `n` lowest bits of a symbol in a tree, the lowest first.
pub open spec fn reverse_cost(probs: Seq<u16>, base: int, n: nat, m: int, symbol: int) -> int
    decreases n,
{
    if n == 0 {
        0
    } else {
        bit_price(probs[base + m], symbol % 2) + reverse_cost(
            probs,
            base,
            (n - 1) as nat,
            2 * m + symbol % 2,
            symbol / 2,
        )
    }
}

/// The price of a literal beside the byte that it is expected to be.
pub open spec fn matched_cost(
    probs: Seq<u16>,
    base: int,
    n: nat,
    m: int,
    symbol: int,
    expected: int,
) -> int
    decreases n,
{
    if n == 0 {
        0
    } else {
        let k = (n - 1) as nat;
        let bit = binary_digit(symbol, k);
        let guess = binary_digit(expected, k);
        bit_price(probs[base + (1 + guess) * 256 + m], bit) + (if bit == guess {
            matched_cost(probs, base, k, 2 * m + bit, symbol, expected)
        } else {
            tree_cost(probs, base, k, 2 * m + bit, symbol)
        })
    }
}

/// The price of a length, counted from the shortest.
pub open spec fn length_cost(probs: Seq<u16>, base: int, pos_state: int, symbol: int) -> int {
    if symbol < 8 {
        zero_price(probs[base]) + tree_cost(probs, base + 2 + pos_state * 8, 3, 1, symbol)
    } else if symbol < 16 {
        one_price(probs[base]) + zero_price(probs[base + 1]) + tree_cost(
            probs,
            base + 130 + pos_state * 8,
            3,
            1,
            symbol - 8,
        )
    } else {
        one_price(probs[base]) + one_price(probs[base + 1]) + tree_cost(
            probs,
            base + 258,
            8,
            1,
            symbol - 16,
        )
    }
}

/// The price of the slot of a distance, with the bits behind it that have no models.
pub open spec fn slot_cost(probs: Seq<u16>, context: int, slot: int) -> int {
    tree_cost(probs, POS_SLOT + context * 64, 6, 1, slot) + (if slot >= 14 {
        (slot / 2 - 5) * 16
    } else {
        0
    })
}

/// The price of a small distance.
pub open spec fn distance_cost(probs: Seq<u16>, context: int, distance: int) -> int {
    let slot = slot_of(distance);
    slot_cost(probs, context, slot) + (if distance < 4 {
        0
    } else {
        reverse_cost(
            probs,
            SPEC_POS + slot_base(slot),
            slot_bits(slot),
            1,
            distance - slot_base(slot),
        )
    })
}

/// The models can be priced.
pub open spec fn priced(probs: Seq<u16>, pp: &ProbPrices) -> bool {
    moderate(probs) && pp.sound() && LITERAL <= probs.len()
}

/// Which slot models a match of the given length uses.
pub open spec fn length_context(len: int) -> int {
    if len < 5 {
        len - 2
    } else {
        3
    }
}

/// Which slot models a match of the given length uses.
pub fn len_to_pos_state(len: usize) -> (context: usize)
    requires
        len >= 2,
    ensures
        context == length_context(len as int),
        context < 4,
{
    if len < 5 {
        len - 2
    } else {
        3
    }
}

/// Prices a symbol in a tree, the highest bit first.
pub fn tree_price(
    probs: &Vec<u16>,
    base: usize,
    bits: usize,
    start: usize,
    symbol: usize,
    pp: &ProbPrices,
) -> (price: u32)
    requires
        priced(probs@, pp),
        bits <= 8,
        base <= 0x1000_0000,
        (start + 1) * pow2(bits as nat) <= 0x1_0000,
        tree_fits(probs@.len(), base as int, bits as nat, start as int),
    ensures
        price == tree_cost(probs@, base as int, bits as nat, start as int, symbol as int),
        price <= 161 * bits,
{
    let mut m: usize = start;
    let mut left: usize = bits;
    let mut price: u32 = 0;
    while left > 0
        invariant
            priced(probs@, pp),
            left <= bits <= 8,
            base <= 0x1000_0000,
            (m + 1) * pow2(left as nat) <= 0x1_0000,
            tree_fits(probs@.len(), base as int, left as nat, m as int),
            price <= 161 * (bits - left),
            tree_cost(probs@, base as int, bits as nat, start as int, symbol as int) == price
                + tree_cost(probs@, base as int, left as nat, m as int, symbol as int),
        decreases left,
    {
        let weight: usize = power_of_two(left - 1) as usize;
        proof {
            lemma_pow2_monotonic((left - 1) as nat, 7);
            lemma_pow2_step((left - 1) as nat);
            lemma2_to64();
            lemma_tree_fits_step(probs@.len(), base as int, left as nat, m as int, 0);
            lemma_tree_fits_step(probs@.len(), base as int, left as nat, m as int, 1);
            let p = pow2((left - 1) as nat) as int;
            assert((m + 1) * (2 * p) >= 2 * (m + 1)) by (nonlinear_arith)
                requires
                    p >= 1,
            ;
        }
        let bit: usize = (symbol / weight) % 2;
        price = price + pp.price(probs[base + m], bit as u32);
        proof {
            let p = pow2((left - 1) as nat) as int;
            assert((2 * m + bit + 1) * p <= (m + 1) * (2 * p)) by (nonlinear_arith)
                requires
                    0 <= bit <= 1,
                    p > 0,
            ;
        }
        m = 2 * m + bit;
        left -= 1;
    }
    price
}

/// Prices a symbol in a tree, the lowest bit first.
pub fn reverse_price(
    probs: &Vec<u16>,
    base: usize,
    bits: usize,
    symbol: usize,
    pp: &ProbPrices,
) -> (price: u32)
    requires
        priced(probs@, pp),
        bits <= 8,
        base <= 0x1000_0000,
        tree_fits(probs@.len(), base as int, bits as nat, 1),
    ensures
        price == reverse_cost(probs@, base as int, bits as nat, 1, symbol as int),
        price <= 161 * bits,
{
    let mut m: usize = 1;
    let mut left: usize = bits;
    let mut rest: usize = symbol;
    let mut price: u32 = 0;
    proof {
        lemma2_to64();
        lemma_pow2_monotonic(bits as nat, 8);
    }
    while left > 0
        invariant
            priced(probs@, pp),
            left <= bits <= 8,
            base <= 0x1000_0000,
            (m + 1) * pow2(left as nat) <= 0x1_0000,
            tree_fits(probs@.len(), base as int, left as nat, m as int),
            price <= 161 * (bits - left),
            reverse_cost(probs@, base as int, bits as nat, 1, symbol as int) == price
                + reverse_cost(probs@, base as int, left as nat, m as int, rest as int),
        decreases left,
    {
        proof {
            lemma_pow2_step((left - 1) as nat);
            lemma_tree_fits_step(probs@.len(), base as int, left as nat, m as int, 0);
            lemma_tree_fits_step(probs@.len(), base as int, left as nat, m as int, 1);
            let p = pow2((left - 1) as nat) as int;
            assert((m + 1) * (2 * p) >= 2 * (m + 1)) by (nonlinear_arith)
                requires
                    p >= 1,
            ;
        }
        let bit: usize = rest % 2;
        price = price + pp.price(probs[base + m], bit as u32);
        proof {
            let p = pow2((left - 1) as nat) as int;
            assert((2 * m + bit + 1) * p <= (m + 1) * (2 * p)) by (nonlinear_arith)
                requires
                    0 <= bit <= 1,
                    p > 0,
            ;
        }
        m = 2 * m + bit;
        rest = rest / 2;
        left -= 1;
    }
    price
}

/// The price of a literal.
pub fn lit_get_price(probs: &Vec<u16>, base: usize, symbol: u8, pp: &ProbPrices) -> (price: u32)
    requires
        priced(probs@, pp),
        base <= 0x1000_0000,
        base + 0x300 <= probs@.len(),
    ensures
        price == tree_cost(probs@, base as int, 8, 1, symbol as int),
        price <= 1288,
{
    proof {
        lemma_literal_fits(probs@.len(), base as int);
        lemma2_to64();
    }
    tree_price(probs, base, 8, 1, symbol as usize, pp)
}

/// The price of a literal beside the byte that it is expected to be.
pub fn lit_matched_get_price(
    probs: &Vec<u16>,
    base: usize,
    symbol: u8,
    match_byte: u8,
    pp: &ProbPrices,
) -> (price: u32)
    requires
        priced(probs@, pp),
        base <= 0x1000_0000,
        base + 0x300 <= probs@.len(),
    ensures
        price == matched_cost(probs@, base as int, 8, 1, symbol as int, match_byte as int),
        price <= 1288,
{
    let mut m: usize = 1;
    let mut left: usize = 8;
    let mut price: u32 = 0;
    proof {
        lemma_literal_fits(probs@.len(), base as int);
        lemma2_to64();
    }
    while left > 0
        invariant
            priced(probs@, pp),
            left <= 8,
            base <= 0x1000_0000,
            base + 0x300 <= probs@.len(),
            matched_fits(probs@.len(), base as int, left as nat, m as int),
            price <= 161 * (8 - left),
            matched_cost(probs@, base as int, 8, 1, symbol as int, match_byte as int) == price
                + matched_cost(
                probs@,
                base as int,
                left as nat,
                m as int,
                symbol as int,
                match_byte as int,
            ),
        decreases left,
    {
        let weight: usize = power_of_two(left - 1) as usize;
        proof {
            lemma_pow2_monotonic((left - 1) as nat, 7);
            lemma2_to64();
            lemma_matched_fits_step(probs@.len(), base as int, left as nat, m as int, 0);
            lemma_matched_fits_step(probs@.len(), base as int, left as nat, m as int, 1);
        }
        let bit: usize = (symbol as usize / weight) % 2;
        let guess: usize = (match_byte as usize / weight) % 2;
        price = price + pp.price(probs[base + (1 + guess) * 256 + m], bit as u32);
        m = 2 * m + bit;
        left -= 1;
        if bit != guess {
            return price + tree_price(probs, base, left, m, symbol as usize, pp);
        }
    }
    price
}

/// The price of a length, counted from the shortest.
fn length_price(
    probs: &Vec<u16>,
    base: usize,
    pos_state: usize,
    symbol: usize,
    pp: &ProbPrices,
) -> (price: u32)
    requires
        priced(probs@, pp),
        base == LEN || base == REP_LEN,
        pos_state < 16,
        symbol < 272,
    ensures
        price == length_cost(probs@, base as int, pos_state as int, symbol as int),
        price <= 1700,
{
    proof {
        lemma2_to64();
        lemma_whole_tree_fits(probs@.len(), base + 2 + pos_state * 8, 3);
        lemma_whole_tree_fits(probs@.len(), base + 130 + pos_state * 8, 3);
        lemma_whole_tree_fits(probs@.len(), base + 258, 8);
    }
    if symbol < 8 {
        pp.price_0(probs[base]) + tree_price(probs, base + 2 + pos_state * 8, 3, 1, symbol, pp)
    } else if symbol < 16 {
        pp.price_1(probs[base]) + pp.price_0(probs[base + 1]) + tree_price(
            probs,
            base + 130 + pos_state * 8,
            3,
            1,
            symbol - 8,
            pp,
        )
    } else {
        pp.price_1(probs[base]) + pp.price_1(probs[base + 1]) + tree_price(
            probs,
            base + 258,
            8,
            1,
            symbol - 16,
            pp,
        )
    }
}

/// All entries of a table are small.
pub open spec fn small(table: Seq<Vec<u32>>, rows: nat, columns: nat) -> bool {
    &&& table.len() == rows
    &&& forall|r: int| 0 <= r < rows ==> small_row(#[trigger] table[r], columns)
}

pub open spec fn small_row(row: Vec<u32>, columns: nat) -> bool {
    &&& row@.len() == columns
    &&& forall|c: int| 0 <= c < columns ==> #[trigger] row@[c] <= PRICE_LIMIT
}

fn zero_table(rows: usize, columns: usize) -> (table: Vec<Vec<u32>>)
    ensures
        small(table@, rows as nat, columns as nat),
        rows_of(table@) == zeros(rows as nat, columns as nat),
{
    let mut table: Vec<Vec<u32>> = Vec::with_capacity(rows);
    while table.len() < rows
        invariant
            table@.len() <= rows,
            forall|r: int|
                0 <= r < table@.len() ==> small_row(#[trigger] table@[r], columns as nat),
            forall|r: int|
                0 <= r < table@.len() ==> (#[trigger] table@[r])@ == Seq::new(
                    columns as nat,
                    |c: int| 0u32,
                ),
        decreases rows - table@.len(),
    {
        let row: Vec<u32> = vec![0; columns];
        assert(row@ =~= Seq::new(columns as nat, |c: int| 0u32));
        table.push(row);
    }
    assert(rows_of(table@) =~= zeros(rows as nat, columns as nat));
    table
}

/// The rows of a table.
pub open spec fn rows_of(table: Seq<Vec<u32>>) -> Seq<Seq<u32>> {
    Seq::new(table.len(), |i: int| table[i]@)
}

/// Prices of lengths.
#[derive(Debug)]
pub struct LenPriceEnc {
    pub table_size: u32,
    pub prices: Vec<Vec<u32>>,
    pub counters: Vec<u32>,
}

impl LenPriceEnc {
    /// The prices and counters themselves.
    pub open spec fn ledger(&self) -> LenLedger {
        LenLedger {
            size: self.table_size as int,
            rows: rows_of(self.prices@),
            counters: self.counters@,
        }
    }

    pub open spec fn sound(&self) -> bool {
        &&& self.table_size <= 272
        &&& small(self.prices@, 16, 272)
        &&& self.counters@.len() == 16
    }

    /// The prices of a position are those of the models.
    pub open spec fn current(&self, probs: Seq<u16>, base: int, pos_state: int) -> bool {
        forall|symbol: int|
            0 <= symbol < self.table_size ==> #[trigger] self.prices@[pos_state]@[symbol]
                == length_cost(probs, base, pos_state, symbol)
    }

    pub fn new() -> (prices: LenPriceEnc)
        ensures
            prices.sound(),
            prices.table_size == 0,
            prices.ledger() == empty_lens(0),
    {
        let counters: Vec<u32> = vec![0; 16];
        assert(counters@ =~= Seq::new(16, |i: int| 0u32));
        LenPriceEnc { table_size: 0, prices: zero_table(16, 272), counters }
    }

    /// The price of a length.
    pub fn price(&self, pos_state: usize, len: usize) -> (price: u32)
        requires
            self.sound(),
            pos_state < 16,
            2 <= len <= 273,
        ensures
            price == self.prices@[pos_state as int]@[len - 2],
            price <= PRICE_LIMIT,
    {
        assert(small_row(self.prices@[pos_state as int], 272));
        self.prices[pos_state][len - 2]
    }
}

/// Brings the length prices of one position up to date.
pub fn len_price_update_position(
    prices: &mut LenPriceEnc,
    pos_state: usize,
    probs: &Vec<u16>,
    base: usize,
    pp: &ProbPrices,
)
    requires
        old(prices).sound(),
        pos_state < 16,
        priced(probs@, pp),
        base == LEN || base == REP_LEN,
    ensures
        final(prices).sound(),
        final(prices).table_size == old(prices).table_size,
        final(prices).current(probs@, base as int, pos_state as int),
        final(prices).counters@ == old(prices).counters@.update(
            pos_state as int,
            old(prices).table_size,
        ),
        final(prices).ledger() == lens_updated(
            old(prices).ledger(),
            pos_state as int,
            probs@,
            base as int,
        ),
        forall|other: int|
            0 <= other < 16 && other != pos_state ==> #[trigger] final(prices).prices@[other]
                == old(prices).prices@[other],
{
    let size: usize = prices.table_size as usize;
    let mut row: Vec<u32> = vec![0; 272];
    let mut symbol: usize = 0;
    while symbol < 272
        invariant
            symbol <= 272,
            size <= 272,
            size == old(prices).table_size,
            *prices == *old(prices),
            old(prices).sound(),
            pos_state < 16,
            priced(probs@, pp),
            base == LEN || base == REP_LEN,
            small_row(row, 272),
            forall|s: int|
                0 <= s < symbol && s < size ==> #[trigger] row@[s] == length_cost(
                    probs@,
                    base as int,
                    pos_state as int,
                    s,
                ),
            forall|s: int|
                size <= s < symbol ==> #[trigger] row@[s]
                    == old(prices).prices@[pos_state as int]@[s],
        decreases 272 - symbol,
    {
        if symbol < size {
            row.set(symbol, length_price(probs, base, pos_state, symbol, pp));
        } else {
            assert(small_row(prices.prices@[pos_state as int], 272));
            row.set(symbol, prices.prices[pos_state][symbol]);
        }
        symbol += 1;
    }
    let ghost given = old(prices).ledger();
    let ghost wanted = lens_updated(given, pos_state as int, probs@, base as int);
    assert(row@ =~= wanted.rows[pos_state as int]);
    prices.prices.set(pos_state, row);
    prices.counters.set(pos_state, prices.table_size);
    assert(prices.ledger() =~= wanted) by {
        assert(rows_of(prices.prices@) =~= wanted.rows);
    }
}

/// Brings the length prices of all positions up to date.
pub fn len_price_update(
    prices: &mut LenPriceEnc,
    num_pos_states: usize,
    probs: &Vec<u16>,
    base: usize,
    pp: &ProbPrices,
)
    requires
        old(prices).sound(),
        num_pos_states <= 16,
        priced(probs@, pp),
        base == LEN || base == REP_LEN,
    ensures
        final(prices).sound(),
        final(prices).table_size == old(prices).table_size,
        final(prices).ledger() == all_lens_updated(
            old(prices).ledger(),
            num_pos_states as nat,
            probs@,
            base as int,
        ),
        forall|pos_state: int|
            0 <= pos_state < num_pos_states ==> #[trigger] final(prices).current(
                probs@,
                base as int,
                pos_state,
            ),
{
    let mut pos_state: usize = 0;
    while pos_state < num_pos_states
        invariant
            pos_state <= num_pos_states <= 16,
            prices.sound(),
            prices.table_size == old(prices).table_size,
            prices.ledger() == all_lens_updated(
                old(prices).ledger(),
                pos_state as nat,
                probs@,
                base as int,
            ),
            priced(probs@, pp),
            base == LEN || base == REP_LEN,
            forall|other: int|
                0 <= other < pos_state ==> #[trigger] prices.current(probs@, base as int, other),
        decreases num_pos_states - pos_state,
    {
        let ghost before = *prices;
        len_price_update_position(prices, pos_state, probs, base, pp);
        pos_state += 1;
        assert forall|other: int| 0 <= other < pos_state implies #[trigger] prices.current(
            probs@,
            base as int,
            other,
        ) by {
            if other < pos_state - 1 {
                assert(before.current(probs@, base as int, other));
                assert(prices.prices@[other] == before.prices@[other]);
            }
        }
    }
}

/// All tables of prices.
#[derive(Debug)]
pub struct Prices {
    pub pp: ProbPrices,
    pub dist_table_size: u32,
    pub align_prices: Vec<u32>,
    pub pos_slot_prices: Vec<Vec<u32>>,
    pub distances_prices: Vec<Vec<u32>>,
    pub len_enc: LenPriceEnc,
    pub rep_len_enc: LenPriceEnc,
    pub match_price_count: u32,
    pub align_price_count: u32,
}

impl Prices {
    /// The tables and counts themselves.
    pub open spec fn ledger(&self) -> Ledger {
        Ledger {
            dist_size: self.dist_table_size as int,
            aligns: self.align_prices@,
            slots: rows_of(self.pos_slot_prices@),
            distances: rows_of(self.distances_prices@),
            lens: self.len_enc.ledger(),
            rep_lens: self.rep_len_enc.ledger(),
            matches: self.match_price_count,
            far_matches: self.align_price_count,
        }
    }

    pub open spec fn sound(&self) -> bool {
        &&& self.pp.sound()
        &&& self.dist_table_size <= 64
        &&& small_row(self.align_prices, 16)
        &&& small(self.pos_slot_prices@, 4, 64)
        &&& small(self.distances_prices@, 4, 128)
        &&& self.len_enc.sound()
        &&& self.rep_len_enc.sound()
    }

    /// Empty tables.
    pub fn new(dist_table_size: u32, num_fast_bytes: u32) -> (prices: Prices)
        requires
            dist_table_size <= 64,
            2 <= num_fast_bytes <= 273,
        ensures
            prices.sound(),
            prices.dist_table_size == dist_table_size,
            prices.len_enc.table_size == num_fast_bytes - 1,
            prices.rep_len_enc.table_size == num_fast_bytes - 1,
            prices.match_price_count == 0,
            prices.align_price_count == 0,
            prices.ledger() == empty_ledger(dist_table_size as int, num_fast_bytes as int),
    {
        let mut len_enc = LenPriceEnc::new();
        let mut rep_len_enc = LenPriceEnc::new();
        len_enc.table_size = num_fast_bytes - 1;
        rep_len_enc.table_size = num_fast_bytes - 1;
        let align_prices: Vec<u32> = vec![0; 16];
        assert(align_prices@ =~= Seq::new(16, |i: int| 0u32));
        Prices {
            pp: ProbPrices::new(),
            dist_table_size,
            align_prices,
            pos_slot_prices: zero_table(4, 64),
            distances_prices: zero_table(4, 128),
            len_enc,
            rep_len_enc,
            match_price_count: 0,
            align_price_count: 0,
        }
    }

    /// Brings the prices of the lowest bits of large distances up to date.
    pub fn fill_align_prices(&mut self, probs: &Vec<u16>)
        requires
            old(self).sound(),
            priced(probs@, &old(self).pp),
        ensures
            final(self).sound(),
            final(self).pp == old(self).pp,
            final(self).dist_table_size == old(self).dist_table_size,
            final(self).len_enc == old(self).len_enc,
            final(self).rep_len_enc == old(self).rep_len_enc,
            final(self).pos_slot_prices == old(self).pos_slot_prices,
            final(self).distances_prices == old(self).distances_prices,
            final(self).match_price_count == old(self).match_price_count,
            final(self).align_price_count == 0,
            final(self).ledger() == aligns_filled(old(self).ledger(), probs@),
            forall|i: int|
                0 <= i < 16 ==> #[trigger] final(self).align_prices@[i] == reverse_cost(
                    probs@,
                    ALIGN as int,
                    4,
                    1,
                    i,
                ),
    {
        let mut row: Vec<u32> = vec![0; 16];
        let mut i: usize = 0;
        proof {
            lemma2_to64();
            lemma_whole_tree_fits(probs@.len(), ALIGN as int, 4);
        }
        while i < 16
            invariant
                i <= 16,
                *self == *old(self),
                self.sound(),
                priced(probs@, &self.pp),
                tree_fits(probs@.len(), ALIGN as int, 4, 1),
                small_row(row, 16),
                forall|k: int|
                    0 <= k < i ==> #[trigger] row@[k] == reverse_cost(
                        probs@,
                        ALIGN as int,
                        4,
                        1,
                        k,
                    ),
            decreases 16 - i,
        {
            row.set(i, reverse_price(probs, ALIGN, 4, i, &self.pp));
            i += 1;
        }
        assert(row@ =~= aligns_filled(old(self).ledger(), probs@).aligns);
        self.align_prices = row;
        self.align_price_count = 0;
    }

    /// The prices of the slots of one context.
    fn slot_prices(&self, probs: &Vec<u16>, context: usize) -> (row: Vec<u32>)
        requires
            self.sound(),
            priced(probs@, &self.pp),
            context < 4,
        ensures
            small_row(row, 64),
            forall|slot: int|
                0 <= slot < self.dist_table_size ==> #[trigger] row@[slot] == slot_cost(
                    probs@,
                    context as int,
                    slot,
                ),
            forall|slot: int|
                self.dist_table_size <= slot < 64 ==> #[trigger] row@[slot]
                    == self.pos_slot_prices@[context as int]@[slot],
    {
        let mut row: Vec<u32> = vec![0; 64];
        let mut slot: usize = 0;
        proof {
            lemma2_to64();
            lemma_whole_tree_fits(probs@.len(), (POS_SLOT + context * 64) as int, 6);
        }
        while slot < 64
            invariant
                slot <= 64,
                self.sound(),
                priced(probs@, &self.pp),
                context < 4,
                pow2(6) == 64,
                tree_fits(probs@.len(), (POS_SLOT + context * 64) as int, 6, 1),
                small_row(row, 64),
                forall|k: int|
                    0 <= k < slot && k < self.dist_table_size ==> #[trigger] row@[k] == slot_cost(
                        probs@,
                        context as int,
                        k,
                    ),
                forall|k: int|
                    self.dist_table_size <= k < slot ==> #[trigger] row@[k]
                        == self.pos_slot_prices@[context as int]@[k],
            decreases 64 - slot,
        {
            assert(small_row(self.pos_slot_prices@[context as int], 64));
            if slot < self.dist_table_size as usize {
                let tree: u32 = tree_price(
                    probs,
                    POS_SLOT + context * 64,
                    6,
                    1,
                    slot,
                    &self.pp,
                );
                let plain: u32 = if slot >= 14 {
                    (slot as u32 / 2 - 5) * 16
                } else {
                    0
                };
                row.set(slot, tree + plain);
            } else {
                row.set(slot, self.pos_slot_prices[context][slot]);
            }
            slot += 1;
        }
        row
    }

    /// The prices of the small distances of one context.
    fn small_distance_prices(&self, probs: &Vec<u16>, context: usize, slots: &Vec<u32>) -> (row: Vec<
        u32,
    >)
        requires
            self.sound(),
            priced(probs@, &self.pp),
            context < 4,
            14 <= self.dist_table_size,
            slots@.len() == 64,
            forall|slot: int|
                0 <= slot < self.dist_table_size ==> #[trigger] slots@[slot] == slot_cost(
                    probs@,
                    context as int,
                    slot,
                ) && slots@[slot] <= 2000,
        ensures
            small_row(row, 128),
            forall|d: int|
                0 <= d < 128 ==> #[trigger] row@[d] == distance_cost(probs@, context as int, d),
    {
        let mut row: Vec<u32> = vec![0; 128];
        let mut d: usize = 0;
        while d < 128
            invariant
                d <= 128,
                self.sound(),
                priced(probs@, &self.pp),
                context < 4,
                14 <= self.dist_table_size,
                slots@.len() == 64,
                forall|slot: int|
                    0 <= slot < self.dist_table_size ==> #[trigger] slots@[slot] == slot_cost(
                        probs@,
                        context as int,
                        slot,
                    ) && slots@[slot] <= 2000,
                small_row(row, 128),
                forall|k: int|
                    0 <= k < d ==> #[trigger] row@[k] == distance_cost(
                        probs@,
                        context as int,
                        k,
                    ),
            decreases 128 - d,
        {
            let slot: usize = get_pos_slot(d as u32) as usize;
            proof {
                lemma_small_slot(d as int);
                assert(slots@[slot as int] == slot_cost(probs@, context as int, slot as int));
            }
            if d < 4 {
                row.set(d, slots[slot]);
            } else {
                proof {
                    lemma_slot_base(slot as int);
                    lemma_slot_of(d as int);
                    lemma2_to64();
                    lemma_pow2_monotonic(slot_bits(slot as int), 5);
                    lemma_pow2_pos(slot_bits(slot as int));
                    lemma_whole_tree_fits(
                        probs@.len(),
                        SPEC_POS + slot_base(slot as int),
                        slot_bits(slot as int),
                    );
                }
                let bits: usize = slot / 2 - 1;
                let base: usize = (2 + slot % 2) * power_of_two(bits) as usize;
                let footer: u32 = reverse_price(
                    probs,
                    SPEC_POS + base,
                    bits,
                    d - base,
                    &self.pp,
                );
                row.set(d, slots[slot] + footer);
            }
            d += 1;
        }
        row
    }

    /// Brings the prices of distances up to date.
    pub fn fill_distances_prices(&mut self, probs: &Vec<u16>)
        requires
            old(self).sound(),
            priced(probs@, &old(self).pp),
            14 <= old(self).dist_table_size,
        ensures
            final(self).sound(),
            final(self).pp == old(self).pp,
            final(self).dist_table_size == old(self).dist_table_size,
            final(self).len_enc == old(self).len_enc,
            final(self).rep_len_enc == old(self).rep_len_enc,
            final(self).align_prices == old(self).align_prices,
            final(self).align_price_count == old(self).align_price_count,
            final(self).match_price_count == 0,
            final(self).ledger() == distances_filled(old(self).ledger(), probs@),
            forall|context: int, slot: int|
                0 <= context < 4 && 0 <= slot < old(self).dist_table_size
                    ==> #[trigger] final(self).pos_slot_prices@[context]@[slot] == slot_cost(
                    probs@,
                    context,
                    slot,
                ),
            forall|context: int, d: int|
                0 <= context < 4 && 0 <= d < 128
                    ==> #[trigger] final(self).distances_prices@[context]@[d] == distance_cost(
                    probs@,
                    context,
                    d,
                ),
    {
        self.match_price_count = 0;
        let ghost wanted = distances_filled(old(self).ledger(), probs@);
        let mut context: usize = 0;
        while context < 4
            invariant
                context <= 4,
                self.sound(),
                self.match_price_count == 0,
                self.pp == old(self).pp,
                self.dist_table_size == old(self).dist_table_size,
                14 <= self.dist_table_size,
                self.len_enc == old(self).len_enc,
                self.rep_len_enc == old(self).rep_len_enc,
                self.align_prices == old(self).align_prices,
                self.align_price_count == old(self).align_price_count,
                priced(probs@, &self.pp),
                forall|c: int, slot: int|
                    0 <= c < context && 0 <= slot < self.dist_table_size
                        ==> #[trigger] self.pos_slot_prices@[c]@[slot] == slot_cost(
                        probs@,
                        c,
                        slot,
                    ),
                forall|c: int, d: int|
                    0 <= c < context && 0 <= d < 128
                        ==> #[trigger] self.distances_prices@[c]@[d] == distance_cost(
                        probs@,
                        c,
                        d,
                    ),
                wanted == distances_filled(old(self).ledger(), probs@),
                old(self).pos_slot_prices@.len() == 4,
                forall|c: int|
                    context <= c < 4 ==> #[trigger] self.pos_slot_prices@[c] == old(
                        self,
                    ).pos_slot_prices@[c],
                forall|c: int|
                    0 <= c < context ==> (#[trigger] self.pos_slot_prices@[c])@ == wanted.slots[c],
                forall|c: int|
                    0 <= c < context ==> (#[trigger] self.distances_prices@[c])@
                        == wanted.distances[c],
            decreases 4 - context,
        {
            let slots = self.slot_prices(probs, context);
            proof {
                lemma2_to64();
                lemma_whole_tree_fits(probs@.len(), (POS_SLOT + context * 64) as int, 6);
                assert forall|slot: int| 0 <= slot < self.dist_table_size implies #[trigger] slots@[slot]
                    == slot_cost(probs@, context as int, slot) && slots@[slot] <= 2000 by {
                    lemma_tree_cost(
                        probs@,
                        (POS_SLOT + context * 64) as int,
                        6,
                        1,
                        slot,
                        &self.pp,
                    );
                }
            }
            let row = self.small_distance_prices(probs, context, &slots);
            proof {
                assert(self.pos_slot_prices@[context as int] == old(
                    self,
                ).pos_slot_prices@[context as int]);
                assert forall|s: int| 0 <= s < 64 implies slots@[s]
                    == wanted.slots[context as int][s] by {
                    if s < self.dist_table_size {
                        assert(slots@[s] == slot_cost(probs@, context as int, s));
                    } else {
                        assert(slots@[s] == self.pos_slot_prices@[context as int]@[s]);
                    }
                }
            }
            assert(slots@ =~= wanted.slots[context as int]);
            assert(row@ =~= wanted.distances[context as int]);
            self.pos_slot_prices.set(context, slots);
            self.distances_prices.set(context, row);
            context += 1;
        }
        assert(rows_of(self.pos_slot_prices@) =~= wanted.slots);
        assert(rows_of(self.distances_prices@) =~= wanted.distances);
    }
}

/// Small distances have small slots.
proof fn lemma_small_slot(d: int)
    requires
        0 <= d < 128,
    ensures
        0 <= slot_of(d) < 14,
        d >= 4 ==> slot_of(d) >= 4,
{
    if d >= 4 {
        lemma_slot_of(d);
        let slot = slot_of(d);
        lemma2_to64();
        let h = crate::codecs::lzma::symbols::highest_bit(d);
        crate::codecs::lzma::symbols::lemma_highest_bit(d);
        if h >= 7 {
            lemma_pow2_monotonic(7, h);
        }
        if h < 2 {
            lemma_pow2_monotonic(h + 1, 2);
        }
    }
}

proof fn lemma_bit_price(prob: u16, bit: int, pp: &ProbPrices)
    requires
        prob <= 2047,
        pp.sound(),
    ensures
        0 <= bit_price(prob, bit) <= 161,
{
    assert(pp.table@[prob as int / 16] <= 161);
    assert(pp.table@[(2047 - prob) / 16] <= 161);
}

proof fn lemma_tree_cost(
    probs: Seq<u16>,
    base: int,
    n: nat,
    m: int,
    symbol: int,
    pp: &ProbPrices,
)
    requires
        priced(probs, pp),
        tree_fits(probs.len(), base, n, m),
    ensures
        0 <= tree_cost(probs, base, n, m, symbol) <= 161 * n,
    decreases n,
{
    if n > 0 {
        let bit = binary_digit(symbol, (n - 1) as nat);
        lemma_tree_fits_step(probs.len(), base, n, m, bit);
        lemma_bit_price(probs[base + m], bit, pp);
        lemma_tree_cost(probs, base, (n - 1) as nat, 2 * m + bit, symbol, pp);
    }
}

} // verus!
