//! The models of the encoder together with the prices made from them.

use vstd::prelude::*;

use crate::codecs::lzma::coder::moderate;
use crate::codecs::lzma::decoding::StreamShape;
use crate::codecs::lzma::encoding::get_pos_slot;
use crate::codecs::lzma::operations::{literal_base, model_count, shape_ok, Shape};
use crate::codecs::lzma::symbols::{
    slot_of, IS_MATCH, IS_REP, IS_REP0_LONG, IS_REP_G0, IS_REP_G1, IS_REP_G2, LITERAL,
};
use crate::codecs::sdk::choice::Tariff;
use crate::codecs::sdk::price::{bit_price, one_price, zero_price};
use crate::codecs::sdk::prices::{
    length_context, len_to_pos_state, lit_get_price, lit_matched_get_price, matched_cost,
    rows_of, small_row, tree_cost, Prices, PRICE_LIMIT,
};

verus! {

/// The models, the prices and the shape of the stream.
pub struct Costs {
    pub shape: StreamShape,
    pub probs: Vec<u16>,
    pub prices: Prices,
}

/// The price of a literal behind `out`, beside the byte that it is expected to be if `matched`.
pub open spec fn literal_cost(
    shape: Shape,
    probs: Seq<u16>,
    out: Seq<u8>,
    matched: bool,
    byte: u8,
    expected: u8,
) -> int {
    if matched {
        matched_cost(probs, literal_base(shape, out), 8, 1, byte as int, expected as int)
    } else {
        tree_cost(probs, literal_base(shape, out), 8, 1, byte as int)
    }
}

/// The price of saying that a repetition has one byte.
pub open spec fn short_rep_cost(probs: Seq<u16>, state: int, pos_state: int) -> int {
    zero_price(probs[IS_REP_G0 + state]) + zero_price(
        probs[IS_REP0_LONG + state * 16 + pos_state],
    )
}

/// The price of saying which of the last distances is used again.
pub open spec fn rep_cost(probs: Seq<u16>, index: int, state: int, pos_state: int) -> int {
    if index == 0 {
        zero_price(probs[IS_REP_G0 + state]) + one_price(
            probs[IS_REP0_LONG + state * 16 + pos_state],
        )
    } else if index == 1 {
        one_price(probs[IS_REP_G0 + state]) + zero_price(probs[IS_REP_G1 + state])
    } else {
        one_price(probs[IS_REP_G0 + state]) + one_price(probs[IS_REP_G1 + state]) + bit_price(
            probs[IS_REP_G2 + state],
            index - 2,
        )
    }
}

impl Costs {
    /// The models, and the tables of prices.
    pub open spec fn tariff(&self) -> Tariff {
        Tariff {
            shape: self.shape.shape(),
            probs: self.probs@,
            aligns: self.prices.align_prices@,
            slots: rows_of(self.prices.pos_slot_prices@),
            distances: rows_of(self.prices.distances_prices@),
            lens: rows_of(self.prices.len_enc.prices@),
            rep_lens: rows_of(self.prices.rep_len_enc.prices@),
        }
    }

    pub open spec fn sound(&self) -> bool {
        &&& shape_ok(self.shape.shape())
        &&& self.probs@.len() == model_count(self.shape.shape())
        &&& LITERAL <= self.probs@.len()
        &&& moderate(self.probs@)
        &&& self.prices.sound()
    }

    /// The price of not coding a match.
    pub fn literal_flag(&self, state: usize, pos_state: usize) -> (price: u32)
        requires
            self.sound(),
            state < 12,
            pos_state < 16,
        ensures
            price == zero_price(self.probs@[IS_MATCH + state * 16 + pos_state]),
            price <= 161,
    {
        self.prices.pp.price_0(self.probs[IS_MATCH + state * 16 + pos_state])
    }

    /// The price of coding a match.
    pub fn match_flag(&self, state: usize, pos_state: usize) -> (price: u32)
        requires
            self.sound(),
            state < 12,
            pos_state < 16,
        ensures
            price == one_price(self.probs@[IS_MATCH + state * 16 + pos_state]),
            price <= 161,
    {
        self.prices.pp.price_1(self.probs[IS_MATCH + state * 16 + pos_state])
    }

    /// The price of saying whether a distance is used again.
    pub fn rep_flag(&self, state: usize, again: u32) -> (price: u32)
        requires
            self.sound(),
            state < 12,
            again <= 1,
        ensures
            price == bit_price(self.probs@[IS_REP + state], again as int),
            price <= 161,
    {
        self.prices.pp.price(self.probs[IS_REP + state], again)
    }

    /// The price of saying that a repetition has one byte.
    pub fn price_short_rep(&self, state: usize, pos_state: usize) -> (price: u32)
        requires
            self.sound(),
            state < 12,
            pos_state < 16,
        ensures
            price == short_rep_cost(self.probs@, state as int, pos_state as int),
            price <= 322,
    {
        self.prices.pp.price_0(self.probs[IS_REP_G0 + state]) + self.prices.pp.price_0(
            self.probs[IS_REP0_LONG + state * 16 + pos_state],
        )
    }

    /// The price of saying which of the last distances is used again.
    pub fn price_pure_rep(&self, index: usize, state: usize, pos_state: usize) -> (price: u32)
        requires
            self.sound(),
            index < 4,
            state < 12,
            pos_state < 16,
        ensures
            price == rep_cost(self.probs@, index as int, state as int, pos_state as int),
            price <= 483,
    {
        let pp = &self.prices.pp;
        let g0: u16 = self.probs[IS_REP_G0 + state];
        if index == 0 {
            pp.price_0(g0) + pp.price_1(self.probs[IS_REP0_LONG + state * 16 + pos_state])
        } else {
            let g1: u16 = self.probs[IS_REP_G1 + state];
            if index == 1 {
                pp.price_1(g0) + pp.price_0(g1)
            } else {
                pp.price_1(g0) + pp.price_1(g1) + pp.price(
                    self.probs[IS_REP_G2 + state],
                    (index - 2) as u32,
                )
            }
        }
    }

    /// The price of a match at the last distance, without its length.
    pub fn price_rep_0(&self, state: usize, pos_state: usize) -> (price: u32)
        requires
            self.sound(),
            state < 12,
            pos_state < 16,
        ensures
            price == one_price(self.probs@[IS_MATCH + state * 16 + pos_state]) + one_price(
                self.probs@[IS_REP + state],
            ) + rep_cost(self.probs@, 0, state as int, pos_state as int),
            price <= 805,
    {
        self.match_flag(state, pos_state) + self.rep_flag(state, 1) + self.price_pure_rep(
            0,
            state,
            pos_state,
        )
    }

    /// The price of the literal at `position`, without its flag.
    pub fn literal_price(&self, input: &[u8], position: usize, matched: bool, expected: u8) -> (price:
        u32)
        requires
            self.sound(),
            position < input@.len(),
        ensures
            price == literal_cost(
                self.shape.shape(),
                self.probs@,
                input@.take(position as int),
                matched,
                input@[position as int],
                expected,
            ),
            price <= 1288,
    {
        let previous: u8 = if position == 0 {
            0
        } else {
            input[position - 1]
        };
        let base: usize = self.shape.literal_context(
            position,
            previous,
            Ghost(input@.take(position as int)),
        );
        if matched {
            lit_matched_get_price(&self.probs, base, input[position], expected, &self.prices.pp)
        } else {
            lit_get_price(&self.probs, base, input[position], &self.prices.pp)
        }
    }

    /// The price of a distance, counted from zero, as the tables have it.
    pub fn distance_price(&self, len: usize, distance: u32) -> (price: u32)
        requires
            self.sound(),
            len >= 2,
        ensures
            distance < 128 ==> price == self.prices.distances_prices@[length_context(
                len as int,
            )]@[distance as int],
            distance >= 128 ==> price == self.prices.pos_slot_prices@[length_context(
                len as int,
            )]@[slot_of(distance as int)] + self.prices.align_prices@[distance as int % 16],
            price <= 2 * PRICE_LIMIT,
    {
        let context: usize = len_to_pos_state(len);
        if distance < 128 {
            assert(small_row(self.prices.distances_prices@[context as int], 128));
            self.prices.distances_prices[context][distance as usize]
        } else {
            let slot: usize = get_pos_slot(distance) as usize;
            assert(small_row(self.prices.pos_slot_prices@[context as int], 64));
            self.prices.pos_slot_prices[context][slot]
                + self.prices.align_prices[(distance % 16) as usize]
        }
    }
}

} // verus!
