//! The fixed Huffman codes.

use vstd::arithmetic::power2::{lemma2_to64, pow2};
use vstd::prelude::*;

use crate::codecs::zlib::huffman::{
    code_count, codes_fit, first_code, symbols_of_length, tree_fault,
};
use crate::codecs::zlib::inflate::{fixed_distances, fixed_literals};

verus! {

/// How many of the first `n` fixed literal codes have `length` bits.
pub open spec fn fixed_literal_rank(n: int, length: int) -> int {
    if length == 8 {
        if n <= 144 {
            n
        } else if n <= 280 {
            144
        } else {
            n - 136
        }
    } else if length == 9 {
        if n <= 144 {
            0
        } else if n <= 256 {
            n - 144
        } else {
            112
        }
    } else if length == 7 {
        if n <= 256 {
            0
        } else if n <= 280 {
            n - 256
        } else {
            24
        }
    } else {
        0
    }
}

pub proof fn lemma_fixed_literal_rank(n: nat, length: int)
    requires
        n <= 288,
    ensures
        symbols_of_length(fixed_literals(), n, length) == fixed_literal_rank(n as int, length),
    decreases n,
{
    if n > 0 {
        lemma_fixed_literal_rank((n - 1) as nat, length);
    }
}

pub proof fn lemma_fixed_distance_rank(n: nat, length: int)
    requires
        n <= 32,
    ensures
        symbols_of_length(fixed_distances(), n, length) == (if length == 5 {
            n
        } else {
            0
        }),
    decreases n,
{
    if n > 0 {
        lemma_fixed_distance_rank((n - 1) as nat, length);
    }
}

/// The first fixed literal codes of each length.
pub proof fn lemma_fixed_first_codes()
    ensures
        forall|l: nat|
            l <= 15 ==> #[trigger] first_code(fixed_literals(), l) == (if l <= 7 {
                0
            } else if l == 8 {
                48
            } else if l == 9 {
                400
            } else {
                pow2(l)
            }),
        forall|l: nat|
            l <= 15 ==> #[trigger] first_code(fixed_distances(), l) == (if l <= 5 {
                0
            } else {
                pow2(l)
            }),
        forall|l: nat|
            #[trigger]
            code_count(fixed_literals(), l) == (if l == 7 {
                24
            } else if l == 8 {
                152
            } else if l == 9 {
                112
            } else {
                0nat
            }),
        forall|l: nat|
            #[trigger]
            code_count(fixed_distances(), l) == (if l == 5 {
                32
            } else {
                0nat
            }),
{
    assert forall|l: nat|
        #[trigger]
        code_count(fixed_literals(), l) == (if l == 7 {
            24
        } else if l == 8 {
            152
        } else if l == 9 {
            112
        } else {
            0nat
        }) by {
        lemma_fixed_literal_rank(288, l as int);
    }
    assert forall|l: nat|
        #[trigger]
        code_count(fixed_distances(), l) == (if l == 5 {
            32
        } else {
            0nat
        }) by {
        lemma_fixed_distance_rank(32, l as int);
    }
    lemma2_to64();
    assert forall|l: nat| l <= 15 implies #[trigger] first_code(fixed_literals(), l) == (if l
        <= 7 {
        0
    } else if l == 8 {
        48
    } else if l == 9 {
        400
    } else {
        pow2(l)
    }) by {
        reveal_with_fuel(first_code, 17);
    }
    assert forall|l: nat| l <= 15 implies #[trigger] first_code(fixed_distances(), l) == (if l
        <= 5 {
        0
    } else {
        pow2(l)
    }) by {
        reveal_with_fuel(first_code, 17);
    }
}

/// Both fixed codes are valid trees.
pub proof fn lemma_fixed_trees()
    ensures
        tree_fault(fixed_literals()) is None,
        tree_fault(fixed_distances()) is None,
{
    lemma_fixed_first_codes();
    lemma2_to64();
    assert(fixed_literals()[0] == 8 && fixed_distances()[0] == 5);
    assert forall|l: nat| 1 <= l <= 15 implies #[trigger] codes_fit(fixed_literals(), l) by {}
    assert forall|l: nat| 1 <= l <= 15 implies #[trigger] codes_fit(fixed_distances(), l) by {}
}

} // verus!
