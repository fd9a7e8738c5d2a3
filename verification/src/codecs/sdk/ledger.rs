//! The price tables of the encoder, and how they follow the models.

use vstd::prelude::*;

use crate::codecs::lzma::symbols::{ALIGN, LEN, REP_LEN};
use crate::codecs::sdk::prices::{distance_cost, length_cost, reverse_cost, slot_cost};

verus! {

/// Prices of lengths.
#[verifier::ext_equal]
pub struct LenLedger {
    pub size: int,
    pub rows: Seq<Seq<u32>>,
    pub counters: Seq<u32>,
}

/// All price tables, and how much was coded since they were brought up to date.
#[verifier::ext_equal]
pub struct Ledger {
    pub dist_size: int,
    pub aligns: Seq<u32>,
    pub slots: Seq<Seq<u32>>,
    pub distances: Seq<Seq<u32>>,
    pub lens: LenLedger,
    pub rep_lens: LenLedger,
    pub matches: u32,
    pub far_matches: u32,
}

/// A table of zeros.
pub open spec fn zeros(rows: nat, columns: nat) -> Seq<Seq<u32>> {
    Seq::new(rows, |r: int| Seq::new(columns, |c: int| 0u32))
}

pub open spec fn empty_lens(size: int) -> LenLedger {
    LenLedger { size, rows: zeros(16, 272), counters: Seq::new(16, |i: int| 0u32) }
}

/// Empty tables.
pub open spec fn empty_ledger(dist_size: int, fast: int) -> Ledger {
    Ledger {
        dist_size,
        aligns: Seq::new(16, |i: int| 0u32),
        slots: zeros(4, 64),
        distances: zeros(4, 128),
        lens: empty_lens(fast - 1),
        rep_lens: empty_lens(fast - 1),
        matches: 0,
        far_matches: 0,
    }
}

/// The length prices with those of one position brought up to date.
pub open spec fn lens_updated(lens: LenLedger, pos_state: int, probs: Seq<u16>, base: int) -> LenLedger {
    LenLedger {
        size: lens.size,
        rows: lens.rows.update(
            pos_state,
            Seq::new(
                272,
                |s: int|
                    if s < lens.size {
                        length_cost(probs, base, pos_state, s) as u32
                    } else {
                        lens.rows[pos_state][s]
                    },
            ),
        ),
        counters: lens.counters.update(pos_state, lens.size as u32),
    }
}

/// The length prices with those of the first `n` positions brought up to date.
pub open spec fn all_lens_updated(lens: LenLedger, n: nat, probs: Seq<u16>, base: int) -> LenLedger
    decreases n,
{
    if n == 0 {
        lens
    } else {
        lens_updated(all_lens_updated(lens, (n - 1) as nat, probs, base), n - 1, probs, base)
    }
}

/// The length prices after a length was coded: they are brought up to date when the counter of
/// the position runs out.
pub open spec fn length_counted(lens: LenLedger, pos_state: int, probs: Seq<u16>, base: int) -> LenLedger {
    let counter = lens.counters[pos_state];
    if counter > 1 {
        LenLedger { counters: lens.counters.update(pos_state, (counter - 1) as u32), ..lens }
    } else {
        lens_updated(lens, pos_state, probs, base)
    }
}

/// The tables with the prices of distances brought up to date.
pub open spec fn distances_filled(ledger: Ledger, probs: Seq<u16>) -> Ledger {
    Ledger {
        slots: Seq::new(
            4,
            |c: int|
                Seq::new(
                    64,
                    |s: int|
                        if s < ledger.dist_size {
                            slot_cost(probs, c, s) as u32
                        } else {
                            ledger.slots[c][s]
                        },
                ),
        ),
        distances: Seq::new(
            4,
            |c: int| Seq::new(128, |d: int| distance_cost(probs, c, d) as u32),
        ),
        matches: 0,
        ..ledger
    }
}

/// The tables with the prices of the lowest bits of large distances brought up to date.
pub open spec fn aligns_filled(ledger: Ledger, probs: Seq<u16>) -> Ledger {
    Ledger {
        aligns: Seq::new(16, |i: int| reverse_cost(probs, ALIGN as int, 4, 1, i) as u32),
        far_matches: 0,
        ..ledger
    }
}

/// The tables before the first byte.
pub open spec fn first_ledger(ledger: Ledger, probs: Seq<u16>, pos_states: nat) -> Ledger {
    let filled = aligns_filled(distances_filled(ledger, probs), probs);
    Ledger {
        lens: all_lens_updated(filled.lens, pos_states, probs, LEN as int),
        rep_lens: all_lens_updated(filled.rep_lens, pos_states, probs, REP_LEN as int),
        ..filled
    }
}

/// The tables after those that have become old were brought up to date.
pub open spec fn refreshed(ledger: Ledger, probs: Seq<u16>) -> Ledger {
    let once = if ledger.matches >= 128 {
        distances_filled(ledger, probs)
    } else {
        ledger
    };
    if once.far_matches >= 16 {
        aligns_filled(once, probs)
    } else {
        once
    }
}

/// One more, as far as that fits.
pub open spec fn one_more(n: u32) -> u32 {
    if n == u32::MAX {
        n
    } else {
        (n + 1) as u32
    }
}

/// The tables after a new match was coded.
pub open spec fn match_counted(
    ledger: Ledger,
    pos_state: int,
    distance: int,
    probs: Seq<u16>,
) -> Ledger {
    Ledger {
        lens: length_counted(ledger.lens, pos_state, probs, LEN as int),
        matches: one_more(ledger.matches),
        far_matches: if distance >= 128 {
            one_more(ledger.far_matches)
        } else {
            ledger.far_matches
        },
        ..ledger
    }
}

/// The tables after a match at a repeated distance was coded.
pub open spec fn rep_counted(ledger: Ledger, pos_state: int, probs: Seq<u16>) -> Ledger {
    Ledger {
        rep_lens: length_counted(ledger.rep_lens, pos_state, probs, REP_LEN as int),
        ..ledger
    }
}

} // verus!
