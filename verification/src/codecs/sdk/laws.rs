//! What holds of the LZMA encoder's properties and prices, in their own numbers.

use vstd::arithmetic::power2::{lemma2_to64, pow2};
use vstd::prelude::*;

use crate::codecs::lzma::coder::{put_bit, put_plain, Writer};
use crate::codecs::lzma::laws::{lemma_slot_of_distance, lemma_slots};
use crate::codecs::lzma::operations::{literal_base, put_rep_index, Shape};
use crate::codecs::lzma::range::put_plain_bits;
use crate::codecs::lzma::symbols::{
    binary_digit, distance_context, put_distance, put_length, put_matched, put_reverse, put_tree, slot_base, slot_of,
    IS_REP0_LONG, IS_REP_G0, IS_REP_G1, IS_REP_G2, POS_SLOT, SPEC_POS,
};
use crate::codecs::sdk::choice::{
    cheapest_of, distance_price, literal_flag, match_flag, offered, rep_flag, Table, Tariff,
};
use crate::codecs::sdk::costs::{literal_cost, rep_cost, short_rep_cost};
use crate::codecs::sdk::ledger::{
    aligns_filled, distances_filled, match_counted, refreshed, Ledger,
};
use crate::codecs::sdk::matchfinder::table_entry;
use crate::codecs::sdk::parse::Optimal;
use crate::codecs::sdk::price::{bit_price, halvings, logarithm, one_price, price_at, zero_price};
use crate::codecs::sdk::prices::{
    distance_cost, length_context, length_cost, matched_cost, reverse_cost, slot_cost, tree_cost,
};
use crate::codecs::sdk::props::{
    level_dictionary, level_props, recorded_dictionary, reduced_dictionary, rounded_from, step_size,
};

verus! {

/// The dictionary of each level, from 64 KiB to 64 MiB.
pub proof fn lemma_level_dictionaries(level: u32)
    ensures
        level <= 9 ==> level_dictionary(level) == seq![
            65536int,
            262144,
            1048576,
            4194304,
            8388608,
            16777216,
            33554432,
            33554432,
            67108864,
            67108864,
        ][level as int],
        level >= 9 ==> level_dictionary(level) == 67108864,
{
}

/// The dictionary shrinks to the input, but not below 4 KiB; levels below seven look less far for
/// matches.
pub proof fn lemma_level_props(level: u32, reduce_size: u32)
    ensures
        ({
            let props = level_props(level, reduce_size);
            let size = reduced_dictionary(level, reduce_size);
            &&& props.lc == 3 && props.lp == 0 && props.pb == 2
            &&& level < 7 ==> props.fb == 32 && props.mc == 32
            &&& level >= 7 ==> props.fb == 64 && props.mc == 48
            &&& props.dict_size == size
            &&& size <= level_dictionary(level)
            &&& reduce_size >= level_dictionary(level) ==> size == level_dictionary(level)
            &&& 4096 <= reduce_size < level_dictionary(level) ==> size == reduce_size
            &&& reduce_size < 4096 ==> size == 4096
        }),
{
}

/// The sizes that dictionaries are recorded as, below two MiB: four KiB, six, eight, twelve and
/// so on, each twice the last but one.
pub proof fn lemma_sizes(i: nat)
    ensures
        step_size(0) == 4096,
        step_size(1) == 6144,
        step_size(i + 2) == 2 * step_size(i),
        4096 <= step_size(i) < step_size(i + 1),
    decreases i,
{
    if i >= 2 {
        lemma_sizes((i - 2) as nat);
        lemma_sizes((i - 1) as nat);
    } else if i == 1 {
        assert(step_size(2) == 2 * step_size(0));
        assert(step_size(3) == 2 * step_size(1));
    } else {
        assert(step_size(2) == 2 * step_size(0));
    }
}

proof fn lemma_rounded(size: u32, i: nat)
    requires
        i <= 18,
        size <= 2097152,
        i > 0 ==> step_size((i - 1) as nat) < size,
    ensures
        exists|k: nat|
            i <= k <= 18 && #[trigger] step_size(k) == rounded_from(size, i) && step_size(k) >= size
                && (k > 0 ==> step_size((k - 1) as nat) < size),
    decreases 18 - i,
{
    if step_size(i) >= size {
        assert(step_size(i) == rounded_from(size, i));
    } else {
        reveal_with_fuel(step_size, 11);
        assert(step_size(18) == 2097152);
        lemma_rounded(size, i + 1);
        let k = choose|k: nat|
            i + 1 <= k <= 18 && #[trigger] step_size(k) == rounded_from(size, i + 1) && step_size(k)
                >= size && (k > 0 ==> step_size((k - 1) as nat) < size);
        assert(step_size(k) == rounded_from(size, i));
    }
}

/// A dictionary is recorded as the least of these sizes that holds it; from two MiB on it is
/// rounded up to whole MiB, as far as that fits 32 bits.
pub proof fn lemma_recorded_dictionary(size: u32)
    ensures
        size < 2097152 ==> exists|k: nat|
            k <= 18 && #[trigger] step_size(k) == recorded_dictionary(size) && step_size(k) >= size
                && (k > 0 ==> step_size((k - 1) as nat) < size),
        2097152 <= size <= 0xfff0_0000 ==> recorded_dictionary(size) % 1048576 == 0 && size
            <= recorded_dictionary(size) < size + 1048576,
        size > 0xfff0_0000 ==> recorded_dictionary(size) == size,
{
    if size < 2097152 {
        lemma_rounded(size, 0);
        let k = choose|k: nat|
            0 <= k <= 18 && #[trigger] step_size(k) == rounded_from(size, 0) && step_size(k) >= size
                && (k > 0 ==> step_size((k - 1) as nat) < size);
        reveal_with_fuel(step_size, 11);
        lemma_size_bound(k);
        assert(step_size(k) == recorded_dictionary(size));
    } else if size <= 0xfff0_0000 {
        let q = (size + 0xf_ffff) as int / 0x10_0000;
        assert(q * 0x10_0000 <= 0xfff0_0000 + 0xf_ffff);
        assert((q * 0x10_0000) % 0x10_0000 == 0);
    }
}

proof fn lemma_size_bound(k: nat)
    requires
        k <= 18,
    ensures
        step_size(k) <= 2097152,
    decreases 18 - k,
{
    reveal_with_fuel(step_size, 11);
    if k < 18 {
        lemma_sizes(k);
        lemma_size_bound(k + 1);
    } else {
        assert(step_size(18) == 2097152);
    }
}

proof fn lemma_halved(w: int, count: int, k: nat, p: int, r: int)
    requires
        p == pow2(k),
        r * p <= w < r * p + p,
        0 < r < 0x1_0000,
        k > 0 ==> 0x8000 <= r,
    ensures
        halvings(w, count) == (r, count + k),
    decreases k,
{
    lemma2_to64();
    if k == 0 {
        assert(r * 1 == r);
    } else {
        vstd::arithmetic::power2::lemma_pow2_unfold(k);
        vstd::arithmetic::power2::lemma_pow2_pos((k - 1) as nat);
        let q = pow2((k - 1) as nat) as int;
        assert(r * p == 2 * (r * q)) by (nonlinear_arith)
            requires
                p == 2 * q,
        ;
        assert(r * q >= 0x8000) by (nonlinear_arith)
            requires
                r >= 0x8000,
                q >= 1,
        ;
        lemma_halved(w / 2, count + 1, (k - 1) as nat, q, r);
    }
}

/// One place of the table, by the four numbers that squaring and halving leads through.
proof fn lemma_price(
    i: int,
    w: int,
    k1: nat,
    p1: int,
    r1: int,
    k2: nat,
    p2: int,
    r2: int,
    k3: nat,
    p3: int,
    r3: int,
    k4: nat,
    p4: int,
    r4: int,
    price: int,
)
    requires
        w == 16 * i + 8,
        p1 == pow2(k1),
        p2 == pow2(k2),
        p3 == pow2(k3),
        p4 == pow2(k4),
        r1 * p1 <= w * w < r1 * p1 + p1,
        r2 * p2 <= r1 * r1 < r2 * p2 + p2,
        r3 * p3 <= r2 * r2 < r3 * p3 + p3,
        r4 * p4 <= r3 * r3 < r4 * p4 + p4,
        0 < r1 < 0x1_0000 && (k1 > 0 ==> 0x8000 <= r1),
        0 < r2 < 0x1_0000 && (k2 > 0 ==> 0x8000 <= r2),
        0 < r3 < 0x1_0000 && (k3 > 0 ==> 0x8000 <= r3),
        0 < r4 < 0x1_0000 && (k4 > 0 ==> 0x8000 <= r4),
        price == 161 - (8 * k1 + 4 * k2 + 2 * k3 + k4),
        0 <= price,
    ensures
        price_at(i) == price,
{
    lemma_halved(w * w, 0, k1, p1, r1);
    lemma_halved(r1 * r1, 2 * k1 as int, k2, p2, r2);
    lemma_halved(r2 * r2, 2 * (2 * k1 + k2) as int, k3, p3, r3);
    lemma_halved(r3 * r3, 2 * (2 * (2 * k1 + k2) + k3) as int, k4, p4, r4);
    reveal_with_fuel(logarithm, 5);
}

/// The prices of 128 probabilities: sixteen for each bit of information, rounded.
pub open spec fn price_table() -> Seq<int> {
    seq![
        128int, 103, 91, 84, 78, 73, 69, 66, 63, 61, 58, 56, 54, 52, 51, 49, 48, 46, 45, 44, 43,
        42, 41, 40, 39, 38, 37, 36, 35, 34, 34, 33, 32, 31, 31, 30, 29, 29, 28, 28, 27, 26, 26,
        25, 25, 24, 24, 23, 23, 22, 22, 22, 21, 21, 20, 20, 19, 19, 19, 18, 18, 17, 17, 17, 16,
        16, 16, 15, 15, 15, 14, 14, 14, 13, 13, 13, 12, 12, 12, 11, 11, 11, 11, 10, 10, 10, 10,
        9, 9, 9, 9, 8, 8, 8, 8, 7, 7, 7, 7, 6, 6, 6, 6, 5, 5, 5, 5, 5, 4, 4, 4, 4, 3, 3, 3, 3, 3,
        2, 2, 2, 2, 2, 2, 1, 1, 1, 1, 1,
    ]
}

#[verifier::spinoff_prover]
proof fn lemma_prices_0(i: int)
    requires
        0 <= i < 4,
    ensures
        price_at(i) == price_table()[i],
{
    lemma2_to64();
    lemma_price(0, 8, 0, 1, 64, 0, 1, 4096, 9, 512, 32768, 15, 32768, 32768, 128);
    assert(price_table()[0] == 128);
    lemma_price(1, 24, 0, 1, 576, 3, 8, 41472, 15, 32768, 52488, 16, 65536, 42037, 103);
    assert(price_table()[1] == 103);
    lemma_price(2, 40, 0, 1, 1600, 6, 64, 40000, 15, 32768, 48828, 16, 65536, 36379, 91);
    assert(price_table()[2] == 91);
    lemma_price(3, 56, 0, 1, 3136, 8, 256, 38416, 15, 32768, 45037, 15, 32768, 61899, 84);
    assert(price_table()[3] == 84);
}

#[verifier::spinoff_prover]
proof fn lemma_prices_1(i: int)
    requires
        4 <= i < 8,
    ensures
        price_at(i) == price_table()[i],
{
    lemma2_to64();
    lemma_price(4, 72, 0, 1, 5184, 9, 512, 52488, 16, 65536, 42037, 15, 32768, 53927, 78);
    assert(price_table()[4] == 78);
    lemma_price(5, 88, 0, 1, 7744, 10, 1024, 58564, 16, 65536, 52333, 16, 65536, 41789, 73);
    assert(price_table()[5] == 73);
    lemma_price(6, 104, 0, 1, 10816, 11, 2048, 57122, 16, 65536, 49788, 16, 65536, 37824, 69);
    assert(price_table()[6] == 69);
    lemma_price(7, 120, 0, 1, 14400, 12, 4096, 50625, 16, 65536, 39106, 15, 32768, 46669, 66);
    assert(price_table()[7] == 66);
}

#[verifier::spinoff_prover]
proof fn lemma_prices_2(i: int)
    requires
        8 <= i < 12,
    ensures
        price_at(i) == price_table()[i],
{
    lemma2_to64();
    lemma_price(8, 136, 0, 1, 18496, 13, 8192, 41760, 15, 32768, 53219, 16, 65536, 43216, 63);
    assert(price_table()[8] == 63);
    lemma_price(9, 152, 0, 1, 23104, 13, 8192, 65160, 16, 65536, 64786, 16, 65536, 64044, 61);
    assert(price_table()[9] == 61);
    lemma_price(10, 168, 0, 1, 28224, 14, 16384, 48620, 16, 65536, 36070, 15, 32768, 39704, 58);
    assert(price_table()[10] == 58);
    lemma_price(11, 184, 0, 1, 33856, 15, 32768, 34980, 15, 32768, 37341, 15, 32768, 42552, 56);
    assert(price_table()[11] == 56);
}

#[verifier::spinoff_prover]
proof fn lemma_prices_3(i: int)
    requires
        12 <= i < 16,
    ensures
        price_at(i) == price_table()[i],
{
    lemma2_to64();
    lemma_price(12, 200, 0, 1, 40000, 15, 32768, 48828, 16, 65536, 36379, 15, 32768, 40387, 54);
    assert(price_table()[12] == 54);
    lemma_price(13, 216, 0, 1, 46656, 16, 65536, 33215, 15, 32768, 33668, 15, 32768, 34592, 52);
    assert(price_table()[13] == 52);
    lemma_price(14, 232, 0, 1, 53824, 16, 65536, 44205, 15, 32768, 59633, 16, 65536, 54261, 51);
    assert(price_table()[14] == 51);
    lemma_price(15, 248, 0, 1, 61504, 16, 65536, 57720, 16, 65536, 50836, 16, 65536, 39433, 49);
    assert(price_table()[15] == 49);
}

#[verifier::spinoff_prover]
proof fn lemma_prices_4(i: int)
    requires
        16 <= i < 20,
    ensures
        price_at(i) == price_table()[i],
{
    lemma2_to64();
    lemma_price(16, 264, 1, 2, 34848, 15, 32768, 37060, 15, 32768, 41914, 15, 32768, 53612, 48);
    assert(price_table()[16] == 48);
    lemma_price(17, 280, 1, 2, 39200, 15, 32768, 46894, 16, 65536, 33554, 15, 32768, 34358, 46);
    assert(price_table()[17] == 46);
    lemma_price(18, 296, 1, 2, 43808, 15, 32768, 58567, 16, 65536, 52339, 16, 65536, 41799, 45);
    assert(price_table()[18] == 45);
    lemma_price(19, 312, 1, 2, 48672, 16, 65536, 36147, 15, 32768, 39874, 15, 32768, 48520, 44);
    assert(price_table()[19] == 44);
}

#[verifier::spinoff_prover]
proof fn lemma_prices_5(i: int)
    requires
        20 <= i < 24,
    ensures
        price_at(i) == price_table()[i],
{
    lemma2_to64();
    lemma_price(20, 328, 1, 2, 53792, 16, 65536, 44152, 15, 32768, 59490, 16, 65536, 54001, 43);
    assert(price_table()[20] == 43);
    lemma_price(21, 344, 1, 2, 59168, 16, 65536, 53418, 16, 65536, 43540, 15, 32768, 57853, 42);
    assert(price_table()[21] == 42);
    lemma_price(22, 360, 1, 2, 64800, 16, 65536, 64072, 16, 65536, 62640, 16, 65536, 59871, 41);
    assert(price_table()[22] == 41);
    lemma_price(23, 376, 2, 4, 35344, 15, 32768, 38122, 15, 32768, 44350, 15, 32768, 60025, 40);
    assert(price_table()[23] == 40);
}

#[verifier::spinoff_prover]
proof fn lemma_prices_6(i: int)
    requires
        24 <= i < 28,
    ensures
        price_at(i) == price_table()[i],
{
    lemma2_to64();
    lemma_price(24, 392, 2, 4, 38416, 15, 32768, 45037, 15, 32768, 61899, 16, 65536, 58463, 39);
    assert(price_table()[24] == 39);
    lemma_price(25, 408, 2, 4, 41616, 15, 32768, 52853, 16, 65536, 42624, 15, 32768, 55444, 38);
    assert(price_table()[25] == 38);
    lemma_price(26, 424, 2, 4, 44944, 15, 32768, 61644, 16, 65536, 57983, 16, 65536, 51300, 37);
    assert(price_table()[26] == 37);
    lemma_price(27, 440, 2, 4, 48400, 16, 65536, 35744, 15, 32768, 38990, 15, 32768, 46393, 36);
    assert(price_table()[27] == 36);
}

#[verifier::spinoff_prover]
proof fn lemma_prices_7(i: int)
    requires
        28 <= i < 32,
    ensures
        price_at(i) == price_table()[i],
{
    lemma2_to64();
    lemma_price(28, 456, 2, 4, 51984, 16, 65536, 41234, 15, 32768, 51887, 16, 65536, 41080, 35);
    assert(price_table()[28] == 35);
    lemma_price(29, 472, 2, 4, 55696, 16, 65536, 47333, 16, 65536, 34185, 15, 32768, 35663, 34);
    assert(price_table()[29] == 34);
    lemma_price(30, 488, 2, 4, 59536, 16, 65536, 54085, 16, 65536, 44634, 15, 32768, 60796, 34);
    assert(price_table()[30] == 34);
    lemma_price(31, 504, 2, 4, 63504, 16, 65536, 61535, 16, 65536, 57778, 16, 65536, 50938, 33);
    assert(price_table()[31] == 33);
}

#[verifier::spinoff_prover]
proof fn lemma_prices_8(i: int)
    requires
        32 <= i < 36,
    ensures
        price_at(i) == price_table()[i],
{
    lemma2_to64();
    lemma_price(32, 520, 3, 8, 33800, 15, 32768, 34864, 15, 32768, 37094, 15, 32768, 41991, 32);
    assert(price_table()[32] == 32);
    lemma_price(33, 536, 3, 8, 35912, 15, 32768, 39357, 15, 32768, 47270, 16, 65536, 34095, 31);
    assert(price_table()[33] == 31);
    lemma_price(34, 552, 3, 8, 38088, 15, 32768, 44271, 15, 32768, 59812, 16, 65536, 54587, 31);
    assert(price_table()[34] == 31);
    lemma_price(35, 568, 3, 8, 40328, 15, 32768, 49632, 16, 65536, 37587, 15, 32768, 43114, 30);
    assert(price_table()[35] == 30);
}

#[verifier::spinoff_prover]
proof fn lemma_prices_9(i: int)
    requires
        36 <= i < 40,
    ensures
        price_at(i) == price_table()[i],
{
    lemma2_to64();
    lemma_price(36, 584, 3, 8, 42632, 15, 32768, 55465, 16, 65536, 46941, 16, 65536, 33622, 29);
    assert(price_table()[36] == 29);
    lemma_price(37, 600, 3, 8, 45000, 15, 32768, 61798, 16, 65536, 58273, 16, 65536, 51814, 29);
    assert(price_table()[37] == 29);
    lemma_price(38, 616, 3, 8, 47432, 16, 65536, 34329, 15, 32768, 35964, 15, 32768, 39471, 28);
    assert(price_table()[38] == 28);
    lemma_price(39, 632, 3, 8, 49928, 16, 65536, 38037, 15, 32768, 44153, 15, 32768, 59493, 28);
    assert(price_table()[39] == 28);
}

#[verifier::spinoff_prover]
proof fn lemma_prices_10(i: int)
    requires
        40 <= i < 44,
    ensures
        price_at(i) == price_table()[i],
{
    lemma2_to64();
    lemma_price(40, 648, 3, 8, 52488, 16, 65536, 42037, 15, 32768, 53927, 16, 65536, 44374, 27);
    assert(price_table()[40] == 27);
    lemma_price(41, 664, 3, 8, 55112, 16, 65536, 46346, 16, 65536, 32775, 15, 32768, 32782, 26);
    assert(price_table()[41] == 26);
    lemma_price(42, 680, 3, 8, 57800, 16, 65536, 50977, 16, 65536, 39652, 15, 32768, 47982, 26);
    assert(price_table()[42] == 26);
    lemma_price(43, 696, 3, 8, 60552, 16, 65536, 55947, 16, 65536, 47761, 16, 65536, 34807, 25);
    assert(price_table()[43] == 25);
}

#[verifier::spinoff_prover]
proof fn lemma_prices_11(i: int)
    requires
        44 <= i < 48,
    ensures
        price_at(i) == price_table()[i],
{
    lemma2_to64();
    lemma_price(44, 712, 3, 8, 63368, 16, 65536, 61271, 16, 65536, 57283, 16, 65536, 50069, 25);
    assert(price_table()[44] == 25);
    lemma_price(45, 728, 4, 16, 33124, 15, 32768, 33483, 15, 32768, 34213, 15, 32768, 35721, 24);
    assert(price_table()[45] == 24);
    lemma_price(46, 744, 4, 16, 34596, 15, 32768, 36525, 15, 32768, 40712, 15, 32768, 50581, 24);
    assert(price_table()[46] == 24);
    lemma_price(47, 760, 4, 16, 36100, 15, 32768, 39770, 15, 32768, 48268, 16, 65536, 35549, 23);
    assert(price_table()[47] == 23);
}

#[verifier::spinoff_prover]
proof fn lemma_prices_12(i: int)
    requires
        48 <= i < 52,
    ensures
        price_at(i) == price_table()[i],
{
    lemma2_to64();
    lemma_price(48, 776, 4, 16, 37636, 15, 32768, 43227, 15, 32768, 57024, 16, 65536, 49617, 23);
    assert(price_table()[48] == 23);
    lemma_price(49, 792, 4, 16, 39204, 15, 32768, 46904, 16, 65536, 33569, 15, 32768, 34389, 22);
    assert(price_table()[49] == 22);
    lemma_price(50, 808, 4, 16, 40804, 15, 32768, 50810, 16, 65536, 39392, 15, 32768, 47355, 22);
    assert(price_table()[50] == 22);
    lemma_price(51, 824, 4, 16, 42436, 15, 32768, 54956, 16, 65536, 46084, 15, 32768, 64811, 22);
    assert(price_table()[51] == 22);
}

#[verifier::spinoff_prover]
proof fn lemma_prices_13(i: int)
    requires
        52 <= i < 56,
    ensures
        price_at(i) == price_table()[i],
{
    lemma2_to64();
    lemma_price(52, 840, 4, 16, 44100, 15, 32768, 59350, 16, 65536, 53747, 16, 65536, 44078, 21);
    assert(price_table()[52] == 21);
    lemma_price(53, 856, 4, 16, 45796, 15, 32768, 64003, 16, 65536, 62505, 16, 65536, 59614, 21);
    assert(price_table()[53] == 21);
    lemma_price(54, 872, 4, 16, 47524, 16, 65536, 34462, 15, 32768, 36243, 15, 32768, 40086, 20);
    assert(price_table()[54] == 20);
    lemma_price(55, 888, 4, 16, 49284, 16, 65536, 37062, 15, 32768, 41918, 15, 32768, 53623, 20);
    assert(price_table()[55] == 20);
}

#[verifier::spinoff_prover]
proof fn lemma_prices_14(i: int)
    requires
        56 <= i < 60,
    ensures
        price_at(i) == price_table()[i],
{
    lemma2_to64();
    lemma_price(56, 904, 4, 16, 51076, 16, 65536, 39806, 15, 32768, 48355, 16, 65536, 35678, 19);
    assert(price_table()[56] == 19);
    lemma_price(57, 920, 4, 16, 52900, 16, 65536, 42700, 15, 32768, 55642, 16, 65536, 47241, 19);
    assert(price_table()[57] == 19);
    lemma_price(58, 936, 4, 16, 54756, 16, 65536, 45749, 15, 32768, 63872, 16, 65536, 62250, 19);
    assert(price_table()[58] == 19);
    lemma_price(59, 952, 4, 16, 56644, 16, 65536, 48958, 16, 65536, 36573, 15, 32768, 40819, 18);
    assert(price_table()[59] == 18);
}

#[verifier::spinoff_prover]
proof fn lemma_prices_15(i: int)
    requires
        60 <= i < 64,
    ensures
        price_at(i) == price_table()[i],
{
    lemma2_to64();
    lemma_price(60, 968, 4, 16, 58564, 16, 65536, 52333, 16, 65536, 41789, 15, 32768, 53293, 18);
    assert(price_table()[60] == 18);
    lemma_price(61, 984, 4, 16, 60516, 16, 65536, 55880, 16, 65536, 47646, 16, 65536, 34639, 17);
    assert(price_table()[61] == 17);
    lemma_price(62, 1000, 4, 16, 62500, 16, 65536, 59604, 16, 65536, 54208, 16, 65536, 44838, 17);
    assert(price_table()[62] == 17);
    lemma_price(63, 1016, 4, 16, 64516, 16, 65536, 63511, 16, 65536, 61548, 16, 65536, 57802, 17);
    assert(price_table()[63] == 17);
}

#[verifier::spinoff_prover]
proof fn lemma_prices_16(i: int)
    requires
        64 <= i < 68,
    ensures
        price_at(i) == price_table()[i],
{
    lemma2_to64();
    lemma_price(64, 1032, 5, 32, 33282, 15, 32768, 33804, 15, 32768, 34872, 15, 32768, 37111, 16);
    assert(price_table()[64] == 16);
    lemma_price(65, 1048, 5, 32, 34322, 15, 32768, 35949, 15, 32768, 39438, 15, 32768, 47465, 16);
    assert(price_table()[65] == 16);
    lemma_price(66, 1064, 5, 32, 35378, 15, 32768, 38195, 15, 32768, 44520, 15, 32768, 60486, 16);
    assert(price_table()[66] == 16);
    lemma_price(67, 1080, 5, 32, 36450, 15, 32768, 40545, 15, 32768, 50167, 16, 65536, 38402, 15);
    assert(price_table()[67] == 15);
}

#[verifier::spinoff_prover]
proof fn lemma_prices_17(i: int)
    requires
        68 <= i < 72,
    ensures
        price_at(i) == price_table()[i],
{
    lemma2_to64();
    lemma_price(68, 1096, 5, 32, 37538, 15, 32768, 43002, 15, 32768, 56432, 16, 65536, 48592, 15);
    assert(price_table()[68] == 15);
    lemma_price(69, 1112, 5, 32, 38642, 15, 32768, 45568, 15, 32768, 63368, 16, 65536, 61271, 15);
    assert(price_table()[69] == 15);
    lemma_price(70, 1128, 5, 32, 39762, 15, 32768, 48248, 16, 65536, 35520, 15, 32768, 38503, 14);
    assert(price_table()[70] == 14);
    lemma_price(71, 1144, 5, 32, 40898, 15, 32768, 51045, 16, 65536, 39758, 15, 32768, 48239, 14);
    assert(price_table()[71] == 14);
}

#[verifier::spinoff_prover]
proof fn lemma_prices_18(i: int)
    requires
        72 <= i < 76,
    ensures
        price_at(i) == price_table()[i],
{
    lemma2_to64();
    lemma_price(72, 1160, 5, 32, 42050, 15, 32768, 53961, 16, 65536, 44430, 15, 32768, 60242, 14);
    assert(price_table()[72] == 14);
    lemma_price(73, 1176, 5, 32, 43218, 15, 32768, 57000, 16, 65536, 49575, 16, 65536, 37501, 13);
    assert(price_table()[73] == 13);
    lemma_price(74, 1192, 5, 32, 44402, 15, 32768, 60166, 16, 65536, 55236, 16, 65536, 46554, 13);
    assert(price_table()[74] == 13);
    lemma_price(75, 1208, 5, 32, 45602, 15, 32768, 63462, 16, 65536, 61453, 16, 65536, 57624, 13);
    assert(price_table()[75] == 13);
}

#[verifier::spinoff_prover]
proof fn lemma_prices_19(i: int)
    requires
        76 <= i < 80,
    ensures
        price_at(i) == price_table()[i],
{
    lemma2_to64();
    lemma_price(76, 1224, 5, 32, 46818, 16, 65536, 33446, 15, 32768, 34138, 15, 32768, 35565, 12);
    assert(price_table()[76] == 12);
    lemma_price(77, 1240, 5, 32, 48050, 16, 65536, 35229, 15, 32768, 37874, 15, 32768, 43775, 12);
    assert(price_table()[77] == 12);
    lemma_price(78, 1256, 5, 32, 49298, 16, 65536, 37083, 15, 32768, 41966, 15, 32768, 53745, 12);
    assert(price_table()[78] == 12);
    lemma_price(79, 1272, 5, 32, 50562, 16, 65536, 39009, 15, 32768, 46438, 16, 65536, 32905, 11);
    assert(price_table()[79] == 11);
}

#[verifier::spinoff_prover]
proof fn lemma_prices_20(i: int)
    requires
        80 <= i < 84,
    ensures
        price_at(i) == price_table()[i],
{
    lemma2_to64();
    lemma_price(80, 1288, 5, 32, 51842, 16, 65536, 41009, 15, 32768, 51322, 16, 65536, 40190, 11);
    assert(price_table()[80] == 11);
    lemma_price(81, 1304, 5, 32, 53138, 16, 65536, 43085, 15, 32768, 56650, 16, 65536, 48968, 11);
    assert(price_table()[81] == 11);
    lemma_price(82, 1320, 5, 32, 54450, 16, 65536, 45239, 15, 32768, 62456, 16, 65536, 59520, 11);
    assert(price_table()[82] == 11);
    lemma_price(83, 1336, 5, 32, 55778, 16, 65536, 47472, 16, 65536, 34387, 15, 32768, 36085, 10);
    assert(price_table()[83] == 10);
}

#[verifier::spinoff_prover]
proof fn lemma_prices_21(i: int)
    requires
        84 <= i < 88,
    ensures
        price_at(i) == price_table()[i],
{
    lemma2_to64();
    lemma_price(84, 1352, 5, 32, 57122, 16, 65536, 49788, 16, 65536, 37824, 15, 32768, 43660, 10);
    assert(price_table()[84] == 10);
    lemma_price(85, 1368, 5, 32, 58482, 16, 65536, 52187, 16, 65536, 41557, 15, 32768, 52703, 10);
    assert(price_table()[85] == 10);
    lemma_price(86, 1384, 5, 32, 59858, 16, 65536, 54671, 16, 65536, 45607, 15, 32768, 63476, 10);
    assert(price_table()[86] == 10);
    lemma_price(87, 1400, 5, 32, 61250, 16, 65536, 57244, 16, 65536, 50001, 16, 65536, 38148, 9);
    assert(price_table()[87] == 9);
}

#[verifier::spinoff_prover]
proof fn lemma_prices_22(i: int)
    requires
        88 <= i < 92,
    ensures
        price_at(i) == price_table()[i],
{
    lemma2_to64();
    lemma_price(88, 1416, 5, 32, 62658, 16, 65536, 59906, 16, 65536, 54759, 16, 65536, 45754, 9);
    assert(price_table()[88] == 9);
    lemma_price(89, 1432, 5, 32, 64082, 16, 65536, 62660, 16, 65536, 59910, 16, 65536, 54766, 9);
    assert(price_table()[89] == 9);
    lemma_price(90, 1448, 5, 32, 65522, 16, 65536, 65508, 16, 65536, 65480, 16, 65536, 65424, 9);
    assert(price_table()[90] == 9);
    lemma_price(91, 1464, 6, 64, 33489, 15, 32768, 34225, 15, 32768, 35746, 15, 32768, 38994, 8);
    assert(price_table()[91] == 8);
}

#[verifier::spinoff_prover]
proof fn lemma_prices_23(i: int)
    requires
        92 <= i < 96,
    ensures
        price_at(i) == price_table()[i],
{
    lemma2_to64();
    lemma_price(92, 1480, 6, 64, 34225, 15, 32768, 35746, 15, 32768, 38994, 15, 32768, 46402, 8);
    assert(price_table()[92] == 8);
    lemma_price(93, 1496, 6, 64, 34969, 15, 32768, 37317, 15, 32768, 42497, 15, 32768, 55114, 8);
    assert(price_table()[93] == 8);
    lemma_price(94, 1512, 6, 64, 35721, 15, 32768, 38940, 15, 32768, 46274, 15, 32768, 65346, 8);
    assert(price_table()[94] == 8);
    lemma_price(95, 1528, 6, 64, 36481, 15, 32768, 40614, 15, 32768, 50338, 16, 65536, 38664, 7);
    assert(price_table()[95] == 7);
}

#[verifier::spinoff_prover]
proof fn lemma_prices_24(i: int)
    requires
        96 <= i < 100,
    ensures
        price_at(i) == price_table()[i],
{
    lemma2_to64();
    lemma_price(96, 1544, 6, 64, 37249, 15, 32768, 42342, 15, 32768, 54713, 16, 65536, 45677, 7);
    assert(price_table()[96] == 7);
    lemma_price(97, 1560, 6, 64, 38025, 15, 32768, 44125, 15, 32768, 59418, 16, 65536, 53871, 7);
    assert(price_table()[97] == 7);
    lemma_price(98, 1576, 6, 64, 38809, 15, 32768, 45963, 15, 32768, 64471, 16, 65536, 63423, 7);
    assert(price_table()[98] == 7);
    lemma_price(99, 1592, 6, 64, 39601, 15, 32768, 47858, 16, 65536, 34948, 15, 32768, 37273, 6);
    assert(price_table()[99] == 6);
}

#[verifier::spinoff_prover]
proof fn lemma_prices_25(i: int)
    requires
        100 <= i < 104,
    ensures
        price_at(i) == price_table()[i],
{
    lemma2_to64();
    lemma_price(100, 1608, 6, 64, 40401, 15, 32768, 49812, 16, 65536, 37860, 15, 32768, 43743, 6);
    assert(price_table()[100] == 6);
    lemma_price(101, 1624, 6, 64, 41209, 15, 32768, 51824, 16, 65536, 40980, 15, 32768, 51250, 6);
    assert(price_table()[101] == 6);
    lemma_price(102, 1640, 6, 64, 42025, 15, 32768, 53897, 16, 65536, 44325, 15, 32768, 59958, 6);
    assert(price_table()[102] == 6);
    lemma_price(103, 1656, 6, 64, 42849, 15, 32768, 56031, 16, 65536, 47904, 16, 65536, 35015, 5);
    assert(price_table()[103] == 5);
}

#[verifier::spinoff_prover]
proof fn lemma_prices_26(i: int)
    requires
        104 <= i < 108,
    ensures
        price_at(i) == price_table()[i],
{
    lemma2_to64();
    lemma_price(104, 1672, 6, 64, 43681, 15, 32768, 58228, 16, 65536, 51734, 16, 65536, 40838, 5);
    assert(price_table()[104] == 5);
    lemma_price(105, 1688, 6, 64, 44521, 15, 32768, 60489, 16, 65536, 55830, 16, 65536, 47561, 5);
    assert(price_table()[105] == 5);
    lemma_price(106, 1704, 6, 64, 45369, 15, 32768, 62815, 16, 65536, 60206, 16, 65536, 55309, 5);
    assert(price_table()[106] == 5);
    lemma_price(107, 1720, 6, 64, 46225, 15, 32768, 65208, 16, 65536, 64881, 16, 65536, 64232, 5);
    assert(price_table()[107] == 5);
}

#[verifier::spinoff_prover]
proof fn lemma_prices_27(i: int)
    requires
        108 <= i < 112,
    ensures
        price_at(i) == price_table()[i],
{
    lemma2_to64();
    lemma_price(108, 1736, 6, 64, 47089, 16, 65536, 33834, 15, 32768, 34934, 15, 32768, 37243, 4);
    assert(price_table()[108] == 4);
    lemma_price(109, 1752, 6, 64, 47961, 16, 65536, 35099, 15, 32768, 37595, 15, 32768, 43133, 4);
    assert(price_table()[109] == 4);
    lemma_price(110, 1768, 6, 64, 48841, 16, 65536, 36398, 15, 32768, 40430, 15, 32768, 49883, 4);
    assert(price_table()[110] == 4);
    lemma_price(111, 1784, 6, 64, 49729, 16, 65536, 37734, 15, 32768, 43452, 15, 32768, 57619, 4);
    assert(price_table()[111] == 4);
}

#[verifier::spinoff_prover]
proof fn lemma_prices_28(i: int)
    requires
        112 <= i < 116,
    ensures
        price_at(i) == price_table()[i],
{
    lemma2_to64();
    lemma_price(112, 1800, 6, 64, 50625, 16, 65536, 39106, 15, 32768, 46669, 16, 65536, 33233, 3);
    assert(price_table()[112] == 3);
    lemma_price(113, 1816, 6, 64, 51529, 16, 65536, 40515, 15, 32768, 50093, 16, 65536, 38289, 3);
    assert(price_table()[113] == 3);
    lemma_price(114, 1832, 6, 64, 52441, 16, 65536, 41962, 15, 32768, 53735, 16, 65536, 44058, 3);
    assert(price_table()[114] == 3);
    lemma_price(115, 1848, 6, 64, 53361, 16, 65536, 43447, 15, 32768, 57606, 16, 65536, 50635, 3);
    assert(price_table()[115] == 3);
}

#[verifier::spinoff_prover]
proof fn lemma_prices_29(i: int)
    requires
        116 <= i < 120,
    ensures
        price_at(i) == price_table()[i],
{
    lemma2_to64();
    lemma_price(116, 1864, 6, 64, 54289, 16, 65536, 44972, 15, 32768, 61721, 16, 65536, 58128, 3);
    assert(price_table()[116] == 3);
    lemma_price(117, 1880, 6, 64, 55225, 16, 65536, 46536, 16, 65536, 33044, 15, 32768, 33322, 2);
    assert(price_table()[117] == 2);
    lemma_price(118, 1896, 6, 64, 56169, 16, 65536, 48140, 16, 65536, 35361, 15, 32768, 38159, 2);
    assert(price_table()[118] == 2);
    lemma_price(119, 1912, 6, 64, 57121, 16, 65536, 49786, 16, 65536, 37821, 15, 32768, 43653, 2);
    assert(price_table()[119] == 2);
}

#[verifier::spinoff_prover]
proof fn lemma_prices_30(i: int)
    requires
        120 <= i < 124,
    ensures
        price_at(i) == price_table()[i],
{
    lemma2_to64();
    lemma_price(120, 1928, 6, 64, 58081, 16, 65536, 51474, 16, 65536, 40429, 15, 32768, 49881, 2);
    assert(price_table()[120] == 2);
    lemma_price(121, 1944, 6, 64, 59049, 16, 65536, 53204, 16, 65536, 43192, 15, 32768, 56932, 2);
    assert(price_table()[121] == 2);
    lemma_price(122, 1960, 6, 64, 60025, 16, 65536, 54977, 16, 65536, 46119, 15, 32768, 64909, 2);
    assert(price_table()[122] == 2);
    lemma_price(123, 1976, 6, 64, 61009, 16, 65536, 56794, 16, 65536, 49218, 16, 65536, 36963, 1);
    assert(price_table()[123] == 1);
}

#[verifier::spinoff_prover]
proof fn lemma_prices_31(i: int)
    requires
        124 <= i < 128,
    ensures
        price_at(i) == price_table()[i],
{
    lemma2_to64();
    lemma_price(124, 1992, 6, 64, 62001, 16, 65536, 58656, 16, 65536, 52498, 16, 65536, 42053, 1);
    assert(price_table()[124] == 1);
    lemma_price(125, 2008, 6, 64, 63001, 16, 65536, 60564, 16, 65536, 55969, 16, 65536, 47798, 1);
    assert(price_table()[125] == 1);
    lemma_price(126, 2024, 6, 64, 64009, 16, 65536, 62517, 16, 65536, 59637, 16, 65536, 54268, 1);
    assert(price_table()[126] == 1);
    lemma_price(127, 2040, 6, 64, 65025, 16, 65536, 64517, 16, 65536, 63513, 16, 65536, 61552, 1);
    assert(price_table()[127] == 1);
}

/// The price of a bit by its probability of being zero, of 2048.
pub proof fn lemma_bit_prices(prob: u16)
    requires
        prob < 2048,
    ensures
        zero_price(prob) == price_table()[prob as int / 16],
        one_price(prob) == price_table()[(2047 - prob) / 16],
        bit_price(prob, 0) == zero_price(prob),
        bit_price(prob, 1) == one_price(prob),
{
    lemma_prices(prob as int / 16);
    lemma_prices((2047 - prob) / 16);
}

proof fn lemma_prices(i: int)
    requires
        0 <= i < 128,
    ensures
        price_at(i) == price_table()[i],
{
    if i < 4 {
        lemma_prices_0(i);
    } else if i < 8 {
        lemma_prices_1(i);
    } else if i < 12 {
        lemma_prices_2(i);
    } else if i < 16 {
        lemma_prices_3(i);
    } else if i < 20 {
        lemma_prices_4(i);
    } else if i < 24 {
        lemma_prices_5(i);
    } else if i < 28 {
        lemma_prices_6(i);
    } else if i < 32 {
        lemma_prices_7(i);
    } else if i < 36 {
        lemma_prices_8(i);
    } else if i < 40 {
        lemma_prices_9(i);
    } else if i < 44 {
        lemma_prices_10(i);
    } else if i < 48 {
        lemma_prices_11(i);
    } else if i < 52 {
        lemma_prices_12(i);
    } else if i < 56 {
        lemma_prices_13(i);
    } else if i < 60 {
        lemma_prices_14(i);
    } else if i < 64 {
        lemma_prices_15(i);
    } else if i < 68 {
        lemma_prices_16(i);
    } else if i < 72 {
        lemma_prices_17(i);
    } else if i < 76 {
        lemma_prices_18(i);
    } else if i < 80 {
        lemma_prices_19(i);
    } else if i < 84 {
        lemma_prices_20(i);
    } else if i < 88 {
        lemma_prices_21(i);
    } else if i < 92 {
        lemma_prices_22(i);
    } else if i < 96 {
        lemma_prices_23(i);
    } else if i < 100 {
        lemma_prices_24(i);
    } else if i < 104 {
        lemma_prices_25(i);
    } else if i < 108 {
        lemma_prices_26(i);
    } else if i < 112 {
        lemma_prices_27(i);
    } else if i < 116 {
        lemma_prices_28(i);
    } else if i < 120 {
        lemma_prices_29(i);
    } else if i < 124 {
        lemma_prices_30(i);
    } else if i < 128 {
        lemma_prices_31(i);
    }
}

/// A bit that is written: its model, or none, and its value.
pub struct Mark {
    pub model: Option<int>,
    pub bit: int,
}

/// Writes bits one after another.
pub open spec fn put_marks(w: Writer, marks: Seq<Mark>) -> Writer
    decreases marks.len(),
{
    if marks.len() == 0 {
        w
    } else {
        put_marks(
            match marks[0].model {
                Some(model) => put_bit(w, model, marks[0].bit),
                None => put_plain(w, marks[0].bit),
            },
            marks.drop_first(),
        )
    }
}

/// What bits cost together: those with a model by its probability, the others sixteen each.
pub open spec fn marks_cost(probs: Seq<u16>, marks: Seq<Mark>) -> int
    decreases marks.len(),
{
    if marks.len() == 0 {
        0
    } else {
        (match marks[0].model {
            Some(model) => bit_price(probs[model], marks[0].bit),
            None => 16,
        }) + marks_cost(probs, marks.drop_first())
    }
}

pub open spec fn mark(model: int, bit: int) -> Seq<Mark> {
    seq![Mark { model: Some(model), bit }]
}

proof fn lemma_one_mark(w: Writer, probs: Seq<u16>, model: int, bit: int, rest: Seq<Mark>)
    ensures
        put_marks(w, mark(model, bit) + rest) == put_marks(put_bit(w, model, bit), rest),
        marks_cost(probs, mark(model, bit) + rest) == bit_price(probs[model], bit) + marks_cost(
            probs,
            rest,
        ),
{
    assert((mark(model, bit) + rest).drop_first() =~= rest);
}

proof fn lemma_marks_join(w: Writer, probs: Seq<u16>, a: Seq<Mark>, b: Seq<Mark>)
    ensures
        put_marks(w, a + b) == put_marks(put_marks(w, a), b),
        marks_cost(probs, a + b) == marks_cost(probs, a) + marks_cost(probs, b),
    decreases a.len(),
{
    if a.len() == 0 {
        assert(a + b =~= b);
    } else {
        assert((a + b).drop_first() =~= a.drop_first() + b);
        let next = match a[0].model {
            Some(model) => put_bit(w, model, a[0].bit),
            None => put_plain(w, a[0].bit),
        };
        lemma_marks_join(next, probs, a.drop_first(), b);
    }
}

pub open spec fn tree_marks(base: int, n: nat, m: int, symbol: int) -> Seq<Mark>
    decreases n,
{
    if n == 0 {
        Seq::empty()
    } else {
        let bit = binary_digit(symbol, (n - 1) as nat);
        mark(base + m, bit) + tree_marks(base, (n - 1) as nat, 2 * m + bit, symbol)
    }
}

proof fn lemma_tree_marks(w: Writer, probs: Seq<u16>, base: int, n: nat, m: int, symbol: int)
    ensures
        put_tree(w, base, n, m, symbol) == put_marks(w, tree_marks(base, n, m, symbol)),
        tree_cost(probs, base, n, m, symbol) == marks_cost(probs, tree_marks(base, n, m, symbol)),
    decreases n,
{
    if n > 0 {
        let bit = binary_digit(symbol, (n - 1) as nat);
        let rest = tree_marks(base, (n - 1) as nat, 2 * m + bit, symbol);
        lemma_one_mark(w, probs, base + m, bit, rest);
        lemma_tree_marks(
            put_bit(w, base + m, bit),
            probs,
            base,
            (n - 1) as nat,
            2 * m + bit,
            symbol,
        );
    }
}

pub open spec fn reverse_marks(base: int, n: nat, m: int, symbol: int) -> Seq<Mark>
    decreases n,
{
    if n == 0 {
        Seq::empty()
    } else {
        mark(base + m, symbol % 2) + reverse_marks(
            base,
            (n - 1) as nat,
            2 * m + symbol % 2,
            symbol / 2,
        )
    }
}

proof fn lemma_reverse_marks(w: Writer, probs: Seq<u16>, base: int, n: nat, m: int, symbol: int)
    ensures
        put_reverse(w, base, n, m, symbol) == put_marks(w, reverse_marks(base, n, m, symbol)),
        reverse_cost(probs, base, n, m, symbol) == marks_cost(
            probs,
            reverse_marks(base, n, m, symbol),
        ),
    decreases n,
{
    if n > 0 {
        let bit = symbol % 2;
        let rest = reverse_marks(base, (n - 1) as nat, 2 * m + bit, symbol / 2);
        lemma_one_mark(w, probs, base + m, bit, rest);
        lemma_reverse_marks(
            put_bit(w, base + m, bit),
            probs,
            base,
            (n - 1) as nat,
            2 * m + bit,
            symbol / 2,
        );
    }
}

pub open spec fn plain_marks(value: int, n: nat) -> Seq<Mark>
    decreases n,
{
    if n == 0 {
        Seq::empty()
    } else {
        seq![
            Mark { model: None, bit: value / (pow2((n - 1) as nat) as int) % 2 },
        ] + plain_marks(value, (n - 1) as nat)
    }
}

proof fn lemma_plain_marks(w: Writer, probs: Seq<u16>, value: int, n: nat)
    ensures
        put_plain_bits(w, value, n) == put_marks(w, plain_marks(value, n)),
        marks_cost(probs, plain_marks(value, n)) == 16 * n,
    decreases n,
{
    if n > 0 {
        let bit = value / (pow2((n - 1) as nat) as int) % 2;
        let rest = plain_marks(value, (n - 1) as nat);
        assert(plain_marks(value, n).drop_first() =~= rest);
        lemma_plain_marks(put_plain(w, bit), probs, value, (n - 1) as nat);
    }
}

pub open spec fn matched_marks(base: int, n: nat, m: int, symbol: int, expected: int) -> Seq<Mark>
    decreases n,
{
    if n == 0 {
        Seq::empty()
    } else {
        let k = (n - 1) as nat;
        let bit = binary_digit(symbol, k);
        let guess = binary_digit(expected, k);
        mark(base + (1 + guess) * 256 + m, bit) + (if bit == guess {
            matched_marks(base, k, 2 * m + bit, symbol, expected)
        } else {
            tree_marks(base, k, 2 * m + bit, symbol)
        })
    }
}

proof fn lemma_matched_marks(
    w: Writer,
    probs: Seq<u16>,
    base: int,
    n: nat,
    m: int,
    symbol: int,
    expected: int,
)
    ensures
        put_matched(w, base, n, m, symbol, expected) == put_marks(
            w,
            matched_marks(base, n, m, symbol, expected),
        ),
        matched_cost(probs, base, n, m, symbol, expected) == marks_cost(
            probs,
            matched_marks(base, n, m, symbol, expected),
        ),
    decreases n,
{
    if n > 0 {
        let k = (n - 1) as nat;
        let bit = binary_digit(symbol, k);
        let guess = binary_digit(expected, k);
        let model = base + (1 + guess) * 256 + m;
        let rest = if bit == guess {
            matched_marks(base, k, 2 * m + bit, symbol, expected)
        } else {
            tree_marks(base, k, 2 * m + bit, symbol)
        };
        lemma_one_mark(w, probs, model, bit, rest);
        let next = put_bit(w, model, bit);
        lemma_matched_marks(next, probs, base, k, 2 * m + bit, symbol, expected);
        lemma_tree_marks(next, probs, base, k, 2 * m + bit, symbol);
    }
}

/// A literal costs what the bits cost that are written for it.
pub proof fn lemma_literal_price(
    w: Writer,
    shape: Shape,
    out: Seq<u8>,
    byte: u8,
    expected: u8,
) -> (marks: (Seq<Mark>, Seq<Mark>))
    ensures
        put_tree(w, literal_base(shape, out), 8, 1, byte as int) == put_marks(w, marks.0),
        literal_cost(shape, w.probs, out, false, byte, expected) == marks_cost(w.probs, marks.0),
        put_matched(w, literal_base(shape, out), 8, 1, byte as int, expected as int) == put_marks(
            w,
            marks.1,
        ),
        literal_cost(shape, w.probs, out, true, byte, expected) == marks_cost(w.probs, marks.1),
{
    let base = literal_base(shape, out);
    lemma_tree_marks(w, w.probs, base, 8, 1, byte as int);
    lemma_matched_marks(w, w.probs, base, 8, 1, byte as int, expected as int);
    (
        tree_marks(base, 8, 1, byte as int),
        matched_marks(base, 8, 1, byte as int, expected as int),
    )
}

/// A length costs what the bits cost that are written for it.
pub proof fn lemma_length_price(w: Writer, base: int, pos_state: int, length: int) -> (marks: Seq<
    Mark,
>)
    ensures
        put_length(w, base, pos_state, length) == put_marks(w, marks),
        length_cost(w.probs, base, pos_state, length) == marks_cost(w.probs, marks),
{
    let probs = w.probs;
    if length < 8 {
        let rest = tree_marks(base + 2 + pos_state * 8, 3, 1, length);
        lemma_one_mark(w, probs, base, 0, rest);
        lemma_tree_marks(put_bit(w, base, 0), probs, base + 2 + pos_state * 8, 3, 1, length);
        mark(base, 0) + rest
    } else {
        let v = put_bit(w, base, 1);
        if length < 16 {
            let rest = tree_marks(base + 130 + pos_state * 8, 3, 1, length - 8);
            lemma_one_mark(w, probs, base, 1, mark(base + 1, 0) + rest);
            lemma_one_mark(v, probs, base + 1, 0, rest);
            lemma_tree_marks(
                put_bit(v, base + 1, 0),
                probs,
                base + 130 + pos_state * 8,
                3,
                1,
                length - 8,
            );
            mark(base, 1) + (mark(base + 1, 0) + rest)
        } else {
            let rest = tree_marks(base + 258, 8, 1, length - 16);
            lemma_one_mark(w, probs, base, 1, mark(base + 1, 1) + rest);
            lemma_one_mark(v, probs, base + 1, 1, rest);
            lemma_tree_marks(put_bit(v, base + 1, 1), probs, base + 258, 8, 1, length - 16);
            mark(base, 1) + (mark(base + 1, 1) + rest)
        }
    }
}

/// A distance costs what the bits cost that are written for it: a small one by its slot's models,
/// any other its slot with the bits that have no model, and its four lowest bits.
pub proof fn lemma_distance_price(w: Writer, context: int, distance: int) -> (marks: Seq<Mark>)
    requires
        0 <= distance < 0x1_0000_0000,
    ensures
        put_distance(w, context, distance) == put_marks(w, marks),
        distance < 128 ==> distance_cost(w.probs, context, distance) == marks_cost(w.probs, marks),
        distance >= 128 ==> slot_cost(w.probs, context, slot_of(distance)) + reverse_cost(
            w.probs,
            816,
            4,
            1,
            (distance - slot_base(slot_of(distance))) % 16,
        ) == marks_cost(w.probs, marks),
{
    let probs = w.probs;
    let slot = slot_of(distance);
    let base = POS_SLOT + context * 64;
    let head = tree_marks(base, 6, 1, slot);
    let v = put_tree(w, base, 6, 1, slot);
    lemma_tree_marks(w, probs, base, 6, 1, slot);
    lemma_slot_of_distance(distance);
    if distance < 4 {
        lemma_marks_join(w, probs, head, Seq::empty());
        assert(head + Seq::<Mark>::empty() =~= head);
        head
    } else {
        lemma_slots(slot);
        lemma_slot_ranges(slot);
        let bits = (slot / 2 - 1) as nat;
        let footer = distance - slot_base(slot);
        if slot <= 13 {
            let rest = reverse_marks(SPEC_POS + slot_base(slot), bits, 1, footer);
            lemma_reverse_marks(v, probs, SPEC_POS + slot_base(slot), bits, 1, footer);
            lemma_marks_join(w, probs, head, rest);
            head + rest
        } else {
            let high = plain_marks(footer / 16, (bits - 4) as nat);
            let low = reverse_marks(816, 4, 1, footer % 16);
            lemma_plain_marks(v, probs, footer / 16, (bits - 4) as nat);
            let u = put_plain_bits(v, footer / 16, (bits - 4) as nat);
            lemma_reverse_marks(u, probs, 816, 4, 1, footer % 16);
            lemma_marks_join(v, probs, high, low);
            lemma_marks_join(w, probs, head, high + low);
            head + (high + low)
        }
    }
}

proof fn lemma_slot_ranges(slot: int)
    requires
        4 <= slot <= 63,
    ensures
        slot <= 13 ==> slot_base(slot + 1) <= 128,
        slot >= 14 ==> slot_base(slot) >= 128,
    decreases slot,
{
    lemma_slots(slot);
    lemma2_to64();
    if slot > 14 {
        lemma_slots(slot - 1);
        lemma_slot_ranges(slot - 1);
    } else if slot <= 13 {
        lemma_slots(slot + 1);
    }
}

/// Matches of two, three and four bytes have slot models of their own, longer ones share.
pub proof fn lemma_length_context(len: int)
    requires
        2 <= len,
    ensures
        len == 2 ==> length_context(len) == 0,
        len == 3 ==> length_context(len) == 1,
        len == 4 ==> length_context(len) == 2,
        len >= 5 ==> length_context(len) == 3,
{
}

/// Tables that are up to date give every distance the price of the bits that are written for it.
pub proof fn lemma_table_price(w: Writer, t: Tariff, len: int, distance: int) -> (marks: Seq<Mark>)
    requires
        2 <= len,
        0 <= distance < 0x1_0000_0000,
        t.probs == w.probs,
        distance < 128 ==> t.distances[length_context(len)][distance] == distance_cost(
            w.probs,
            length_context(len),
            distance,
        ),
        distance >= 128 ==> t.slots[length_context(len)][slot_of(distance)] == slot_cost(
            w.probs,
            length_context(len),
            slot_of(distance),
        ),
        distance >= 128 ==> t.aligns[distance % 16] == reverse_cost(
            w.probs,
            816,
            4,
            1,
            distance % 16,
        ),
    ensures
        put_distance(w, distance_context(len - 2), distance) == put_marks(w, marks),
        distance_price(t, len, distance) == marks_cost(w.probs, marks),
{
    let context = length_context(len);
    lemma_slot_of_distance(distance);
    if distance >= 128 {
        let slot = slot_of(distance);
        lemma_slot_ranges(slot);
        lemma_slot_aligned(slot);
        let base = slot_base(slot);
        assert((distance - base) % 16 == distance % 16);
    }
    lemma_distance_price(w, context, distance)
}

proof fn lemma_slot_aligned(slot: int)
    requires
        14 <= slot <= 63,
    ensures
        slot_base(slot) % 16 == 0,
{
    lemma2_to64();
    let k = (slot / 2 - 1) as nat;
    vstd::arithmetic::power2::lemma_pow2_adds(4, (k - 4) as nat);
    let q = pow2((k - 4) as nat) as int;
    let f = 2 + slot % 2;
    assert(slot_base(slot) == f * pow2(k));
    assert(f * (16 * q) == 16 * (f * q)) by (nonlinear_arith);
}

/// Saying which of the last distances is used again costs what the bits cost that say it.
pub proof fn lemma_rep_price(w: Writer, state: int, pos_state: int, index: int) -> (marks: Seq<Mark>)
    requires
        0 <= index < 4,
    ensures
        put_rep_index(w, state, pos_state, index) == put_marks(w, marks),
        rep_cost(w.probs, index, state, pos_state) == marks_cost(w.probs, marks),
{
    let probs = w.probs;
    let end = Seq::<Mark>::empty();
    if index == 0 {
        let long = IS_REP0_LONG + state * 16 + pos_state;
        lemma_one_mark(w, probs, IS_REP_G0 + state, 0, mark(long, 1) + end);
        lemma_one_mark(put_bit(w, IS_REP_G0 + state, 0), probs, long, 1, end);
        mark(IS_REP_G0 + state, 0) + (mark(long, 1) + end)
    } else {
        let v = put_bit(w, IS_REP_G0 + state, 1);
        if index == 1 {
            lemma_one_mark(w, probs, IS_REP_G0 + state, 1, mark(IS_REP_G1 + state, 0) + end);
            lemma_one_mark(v, probs, IS_REP_G1 + state, 0, end);
            mark(IS_REP_G0 + state, 1) + (mark(IS_REP_G1 + state, 0) + end)
        } else {
            let last = mark(IS_REP_G2 + state, index - 2) + end;
            lemma_one_mark(w, probs, IS_REP_G0 + state, 1, mark(IS_REP_G1 + state, 1) + last);
            lemma_one_mark(v, probs, IS_REP_G1 + state, 1, last);
            lemma_one_mark(
                put_bit(v, IS_REP_G1 + state, 1),
                probs,
                IS_REP_G2 + state,
                index - 2,
                end,
            );
            mark(IS_REP_G0 + state, 1) + (mark(IS_REP_G1 + state, 1) + last)
        }
    }
}

/// The flags of an operation and a single repeated byte cost what their bits cost.
pub proof fn lemma_flag_prices(w: Writer, t: Tariff, state: int, pos_state: int)
    requires
        t.probs == w.probs,
    ensures
        literal_flag(t, state, pos_state) == marks_cost(
            w.probs,
            mark(16 * state + pos_state, 0),
        ),
        match_flag(t, state, pos_state) == marks_cost(w.probs, mark(16 * state + pos_state, 1)),
        rep_flag(t, state, 0) == marks_cost(w.probs, mark(192 + state, 0)),
        rep_flag(t, state, 1) == marks_cost(w.probs, mark(192 + state, 1)),
        short_rep_cost(w.probs, state, pos_state) == marks_cost(
            w.probs,
            mark(204 + state, 0) + mark(240 + 16 * state + pos_state, 0),
        ),
{
    let end = Seq::<Mark>::empty();
    let probs = w.probs;
    assert(marks_cost(probs, end) == 0);
    assert forall|model: int, bit: int| #[trigger] mark(model, bit) + end =~= mark(
        model,
        bit,
    ) by {}
    lemma_one_mark(w, probs, 16 * state + pos_state, 0, end);
    lemma_one_mark(w, probs, 16 * state + pos_state, 1, end);
    lemma_one_mark(w, probs, 192 + state, 0, end);
    lemma_one_mark(w, probs, 192 + state, 1, end);
    lemma_one_mark(w, probs, 240 + 16 * state + pos_state, 0, end);
    lemma_one_mark(
        w,
        probs,
        204 + state,
        0,
        mark(240 + 16 * state + pos_state, 0),
    );
}

/// Offering a way to a cell never makes it dearer and changes no other cell; the cell keeps what
/// it has unless the way is cheaper, or as cheap where ties go to the way.
pub proof fn lemma_offers(table: Table, j: int, offer: Optimal, ties: bool, i: int)
    requires
        0 <= j < table.opt.len(),
        0 <= i < table.opt.len(),
    ensures
        ({
            let after = offered(table, j, offer, ties);
            &&& after.opt.len() == table.opt.len()
            &&& after.opt[j].price <= offer.price
            &&& after.opt[j].price <= table.opt[j].price
            &&& i != j ==> after.opt[i] == table.opt[i]
            &&& offer.price > table.opt[j].price ==> after.opt[j] == table.opt[j]
            &&& offer.price == table.opt[j].price ==> after.opt[j] == (if ties {
                offer
            } else {
                table.opt[j]
            })
            &&& after.last >= j
            &&& after.last >= table.last
        }),
{
}

/// The cell that a search settles on is a cheapest one, the last of several.
pub proof fn lemma_cheapest(opt: Seq<Optimal>, cur: int, j: int)
    requires
        0 <= cur <= j < opt.len(),
    ensures
        ({
            let best = cheapest_of(opt, cur, j);
            &&& cur <= best <= j
            &&& forall|i: int| cur <= i <= j ==> opt[best].price <= (#[trigger] opt[i]).price
            &&& forall|i: int| best < i <= j ==> opt[best].price < (#[trigger] opt[i]).price
        }),
    decreases j - cur,
{
    if j > cur {
        lemma_cheapest(opt, cur, j - 1);
    }
}

/// The remainders behind the hash: a bit that is set brings in the polynomial `0xedb8_8320`.
pub proof fn lemma_remainders(value: u32, n: nat)
    ensures
        table_entry(value, 0) == value,
        table_entry(value, n) % 2 == 0 ==> table_entry(value, n + 1) == table_entry(value, n) / 2,
        table_entry(value, n) % 2 == 1 ==> table_entry(value, n + 1) == (table_entry(value, n) / 2)
            ^ 0xedb8_8320,
{
}

/// Prices of distances are brought up to date after 128 matches, those of their lowest bits after
/// 16 far ones; far is 128 and more, counted from zero.
pub proof fn lemma_refreshing(ledger: Ledger, probs: Seq<u16>, pos_state: int, distance: int)
    ensures
        ledger.matches < 128 && ledger.far_matches < 16 ==> refreshed(ledger, probs) == ledger,
        ledger.matches >= 128 && ledger.far_matches < 16 ==> refreshed(ledger, probs)
            == distances_filled(ledger, probs),
        ledger.matches < 128 && ledger.far_matches >= 16 ==> refreshed(ledger, probs)
            == aligns_filled(ledger, probs),
        ledger.matches < u32::MAX ==> match_counted(ledger, pos_state, distance, probs).matches
            == ledger.matches + 1,
        ledger.far_matches < u32::MAX ==> match_counted(
            ledger,
            pos_state,
            distance,
            probs,
        ).far_matches == ledger.far_matches + (if distance >= 128 {
            1int
        } else {
            0
        }),
{
}

} // verus!
