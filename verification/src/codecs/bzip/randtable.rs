//! The distances between the bits that randomized blocks flip.

use vstd::prelude::*;

verus! {

pub const BZ2_RNUMS: [u16; 512] = [
    619, 720, 127, 481, 931, 816, 813, 233, 566, 247, 985, 724,
    205, 454, 863, 491, 741, 242, 949, 214, 733, 859, 335, 708,
    621, 574, 73, 654, 730, 472, 419, 436, 278, 496, 867, 210,
    399, 680, 480, 51, 878, 465, 811, 169, 869, 675, 611, 697,
    867, 561, 862, 687, 507, 283, 482, 129, 807, 591, 733, 623,
    150, 238, 59, 379, 684, 877, 625, 169, 643, 105, 170, 607,
    520, 932, 727, 476, 693, 425, 174, 647, 73, 122, 335, 530,
    442, 853, 695, 249, 445, 515, 909, 545, 703, 919, 874, 474,
    882, 500, 594, 612, 641, 801, 220, 162, 819, 984, 589, 513,
    495, 799, 161, 604, 958, 533, 221, 400, 386, 867, 600, 782,
    382, 596, 414, 171, 516, 375, 682, 485, 911, 276, 98, 553,
    163, 354, 666, 933, 424, 341, 533, 870, 227, 730, 475, 186,
    263, 647, 537, 686, 600, 224, 469, 68, 770, 919, 190, 373,
    294, 822, 808, 206, 184, 943, 795, 384, 383, 461, 404, 758,
    839, 887, 715, 67, 618, 276, 204, 918, 873, 777, 604, 560,
    951, 160, 578, 722, 79, 804, 96, 409, 713, 940, 652, 934,
    970, 447, 318, 353, 859, 672, 112, 785, 645, 863, 803, 350,
    139, 93, 354, 99, 820, 908, 609, 772, 154, 274, 580, 184,
    79, 626, 630, 742, 653, 282, 762, 623, 680, 81, 927, 626,
    789, 125, 411, 521, 938, 300, 821, 78, 343, 175, 128, 250,
    170, 774, 972, 275, 999, 639, 495, 78, 352, 126, 857, 956,
    358, 619, 580, 124, 737, 594, 701, 612, 669, 112, 134, 694,
    363, 992, 809, 743, 168, 974, 944, 375, 748, 52, 600, 747,
    642, 182, 862, 81, 344, 805, 988, 739, 511, 655, 814, 334,
    249, 515, 897, 955, 664, 981, 649, 113, 974, 459, 893, 228,
    433, 837, 553, 268, 926, 240, 102, 654, 459, 51, 686, 754,
    806, 760, 493, 403, 415, 394, 687, 700, 946, 670, 656, 610,
    738, 392, 760, 799, 887, 653, 978, 321, 576, 617, 626, 502,
    894, 679, 243, 440, 680, 879, 194, 572, 640, 724, 926, 56,
    204, 700, 707, 151, 457, 449, 797, 195, 791, 558, 945, 679,
    297, 59, 87, 824, 713, 663, 412, 693, 342, 606, 134, 108,
    571, 364, 631, 212, 174, 643, 304, 329, 343, 97, 430, 751,
    497, 314, 983, 374, 822, 928, 140, 206, 73, 263, 980, 736,
    876, 478, 430, 305, 170, 514, 364, 692, 829, 82, 855, 953,
    676, 246, 369, 970, 294, 750, 807, 827, 150, 790, 288, 923,
    804, 378, 215, 828, 592, 281, 565, 555, 710, 82, 896, 831,
    547, 261, 524, 462, 293, 465, 502, 56, 661, 821, 976, 991,
    658, 869, 905, 758, 745, 193, 768, 550, 608, 933, 378, 286,
    215, 979, 792, 961, 61, 688, 793, 644, 986, 403, 106, 366,
    905, 644, 372, 567, 466, 434, 645, 210, 389, 550, 919, 135,
    780, 773, 635, 389, 707, 100, 626, 958, 165, 504, 920, 176,
    193, 713, 857, 265, 203, 50, 668, 108, 645, 990, 626, 197,
    510, 357, 358, 850, 858, 364, 936, 638,
];

/// The sum of the first `n` distances.
pub open spec fn distance_sum(n: nat) -> int
    decreases n,
{
    if n == 0 {
        0
    } else {
        distance_sum((n - 1) as nat) + BZ2_RNUMS[n - 1]
    }
}

/// The sum of the sums of the first one, the first two and up to the first `n` distances.
pub open spec fn sum_of_sums(n: nat) -> int
    decreases n,
{
    if n == 0 {
        0
    } else {
        sum_of_sums((n - 1) as nat) + distance_sum(n)
    }
}

#[verifier::spinoff_prover]
proof fn lemma_sums_0()
    requires
        distance_sum(0) == 0,
        sum_of_sums(0) == 0,
    ensures
        distance_sum(16) == 9275,
        sum_of_sums(16) == 79296,
        forall|i: int| 0 <= i < 16 ==> 50 <= #[trigger] BZ2_RNUMS[i] <= 999,
{
    reveal_with_fuel(distance_sum, 17);
    reveal_with_fuel(sum_of_sums, 17);
}

#[verifier::spinoff_prover]
proof fn lemma_sums_1()
    requires
        distance_sum(16) == 9275,
        sum_of_sums(16) == 79296,
    ensures
        distance_sum(32) == 18035,
        sum_of_sums(32) == 305521,
        forall|i: int| 16 <= i < 32 ==> 50 <= #[trigger] BZ2_RNUMS[i] <= 999,
{
    reveal_with_fuel(distance_sum, 17);
    reveal_with_fuel(sum_of_sums, 17);
}

#[verifier::spinoff_prover]
proof fn lemma_sums_2()
    requires
        distance_sum(32) == 18035,
        sum_of_sums(32) == 305521,
    ensures
        distance_sum(48) == 26671,
        sum_of_sums(48) == 661774,
        forall|i: int| 32 <= i < 48 ==> 50 <= #[trigger] BZ2_RNUMS[i] <= 999,
{
    reveal_with_fuel(distance_sum, 17);
    reveal_with_fuel(sum_of_sums, 17);
}

#[verifier::spinoff_prover]
proof fn lemma_sums_3()
    requires
        distance_sum(48) == 26671,
        sum_of_sums(48) == 661774,
    ensures
        distance_sum(64) == 34629,
        sum_of_sums(64) == 1166891,
        forall|i: int| 48 <= i < 64 ==> 50 <= #[trigger] BZ2_RNUMS[i] <= 999,
{
    reveal_with_fuel(distance_sum, 17);
    reveal_with_fuel(sum_of_sums, 17);
}

#[verifier::spinoff_prover]
proof fn lemma_sums_4()
    requires
        distance_sum(64) == 34629,
        sum_of_sums(64) == 1166891,
    ensures
        distance_sum(80) == 43103,
        sum_of_sums(80) == 1794503,
        forall|i: int| 64 <= i < 80 ==> 50 <= #[trigger] BZ2_RNUMS[i] <= 999,
{
    reveal_with_fuel(distance_sum, 17);
    reveal_with_fuel(sum_of_sums, 17);
}

#[verifier::spinoff_prover]
proof fn lemma_sums_5()
    requires
        distance_sum(80) == 43103,
        sum_of_sums(80) == 1794503,
    ensures
        distance_sum(96) == 51786,
        sum_of_sums(96) == 2545742,
        forall|i: int| 80 <= i < 96 ==> 50 <= #[trigger] BZ2_RNUMS[i] <= 999,
{
    reveal_with_fuel(distance_sum, 17);
    reveal_with_fuel(sum_of_sums, 17);
}

#[verifier::spinoff_prover]
proof fn lemma_sums_6()
    requires
        distance_sum(96) == 51786,
        sum_of_sums(96) == 2545742,
    ensures
        distance_sum(112) == 61162,
        sum_of_sums(112) == 3457205,
        forall|i: int| 96 <= i < 112 ==> 50 <= #[trigger] BZ2_RNUMS[i] <= 999,
{
    reveal_with_fuel(distance_sum, 17);
    reveal_with_fuel(sum_of_sums, 17);
}

#[verifier::spinoff_prover]
proof fn lemma_sums_7()
    requires
        distance_sum(112) == 61162,
        sum_of_sums(112) == 3457205,
    ensures
        distance_sum(128) == 69530,
        sum_of_sums(128) == 4510226,
        forall|i: int| 112 <= i < 128 ==> 50 <= #[trigger] BZ2_RNUMS[i] <= 999,
{
    reveal_with_fuel(distance_sum, 17);
    reveal_with_fuel(sum_of_sums, 17);
}

#[verifier::spinoff_prover]
proof fn lemma_sums_8()
    requires
        distance_sum(128) == 69530,
        sum_of_sums(128) == 4510226,
    ensures
        distance_sum(144) == 77270,
        sum_of_sums(144) == 5688451,
        forall|i: int| 128 <= i < 144 ==> 50 <= #[trigger] BZ2_RNUMS[i] <= 999,
{
    reveal_with_fuel(distance_sum, 17);
    reveal_with_fuel(sum_of_sums, 17);
}

#[verifier::spinoff_prover]
proof fn lemma_sums_9()
    requires
        distance_sum(144) == 77270,
        sum_of_sums(144) == 5688451,
    ensures
        distance_sum(160) == 85146,
        sum_of_sums(160) == 6991148,
        forall|i: int| 144 <= i < 160 ==> 50 <= #[trigger] BZ2_RNUMS[i] <= 999,
{
    reveal_with_fuel(distance_sum, 17);
    reveal_with_fuel(sum_of_sums, 17);
}

#[verifier::spinoff_prover]
proof fn lemma_sums_10()
    requires
        distance_sum(160) == 85146,
        sum_of_sums(160) == 6991148,
    ensures
        distance_sum(176) == 93982,
        sum_of_sums(176) == 8429396,
        forall|i: int| 160 <= i < 176 ==> 50 <= #[trigger] BZ2_RNUMS[i] <= 999,
{
    reveal_with_fuel(distance_sum, 17);
    reveal_with_fuel(sum_of_sums, 17);
}

#[verifier::spinoff_prover]
proof fn lemma_sums_11()
    requires
        distance_sum(176) == 93982,
        sum_of_sums(176) == 8429396,
    ensures
        distance_sum(192) == 103834,
        sum_of_sums(192) == 10016708,
        forall|i: int| 176 <= i < 192 ==> 50 <= #[trigger] BZ2_RNUMS[i] <= 999,
{
    reveal_with_fuel(distance_sum, 17);
    reveal_with_fuel(sum_of_sums, 17);
}

#[verifier::spinoff_prover]
proof fn lemma_sums_12()
    requires
        distance_sum(192) == 103834,
        sum_of_sums(192) == 10016708,
    ensures
        distance_sum(208) == 111696,
        sum_of_sums(208) == 11754614,
        forall|i: int| 192 <= i < 208 ==> 50 <= #[trigger] BZ2_RNUMS[i] <= 999,
{
    reveal_with_fuel(distance_sum, 17);
    reveal_with_fuel(sum_of_sums, 17);
}

#[verifier::spinoff_prover]
proof fn lemma_sums_13()
    requires
        distance_sum(208) == 111696,
        sum_of_sums(208) == 11754614,
    ensures
        distance_sum(224) == 120394,
        sum_of_sums(224) == 13617479,
        forall|i: int| 208 <= i < 224 ==> 50 <= #[trigger] BZ2_RNUMS[i] <= 999,
{
    reveal_with_fuel(distance_sum, 17);
    reveal_with_fuel(sum_of_sums, 17);
}

#[verifier::spinoff_prover]
proof fn lemma_sums_14()
    requires
        distance_sum(224) == 120394,
        sum_of_sums(224) == 13617479,
    ensures
        distance_sum(240) == 127587,
        sum_of_sums(240) == 15613959,
        forall|i: int| 224 <= i < 240 ==> 50 <= #[trigger] BZ2_RNUMS[i] <= 999,
{
    reveal_with_fuel(distance_sum, 17);
    reveal_with_fuel(sum_of_sums, 17);
}

#[verifier::spinoff_prover]
proof fn lemma_sums_15()
    requires
        distance_sum(240) == 127587,
        sum_of_sums(240) == 15613959,
    ensures
        distance_sum(256) == 135961,
        sum_of_sums(256) == 17729726,
        forall|i: int| 240 <= i < 256 ==> 50 <= #[trigger] BZ2_RNUMS[i] <= 999,
{
    reveal_with_fuel(distance_sum, 17);
    reveal_with_fuel(sum_of_sums, 17);
}

#[verifier::spinoff_prover]
proof fn lemma_sums_16()
    requires
        distance_sum(256) == 135961,
        sum_of_sums(256) == 17729726,
    ensures
        distance_sum(272) == 145582,
        sum_of_sums(272) == 19984694,
        forall|i: int| 256 <= i < 272 ==> 50 <= #[trigger] BZ2_RNUMS[i] <= 999,
{
    reveal_with_fuel(distance_sum, 17);
    reveal_with_fuel(sum_of_sums, 17);
}

#[verifier::spinoff_prover]
proof fn lemma_sums_17()
    requires
        distance_sum(272) == 145582,
        sum_of_sums(272) == 19984694,
    ensures
        distance_sum(288) == 154686,
        sum_of_sums(288) == 22387901,
        forall|i: int| 272 <= i < 288 ==> 50 <= #[trigger] BZ2_RNUMS[i] <= 999,
{
    reveal_with_fuel(distance_sum, 17);
    reveal_with_fuel(sum_of_sums, 17);
}

#[verifier::spinoff_prover]
proof fn lemma_sums_18()
    requires
        distance_sum(288) == 154686,
        sum_of_sums(288) == 22387901,
    ensures
        distance_sum(304) == 164354,
        sum_of_sums(304) == 24948945,
        forall|i: int| 288 <= i < 304 ==> 50 <= #[trigger] BZ2_RNUMS[i] <= 999,
{
    reveal_with_fuel(distance_sum, 17);
    reveal_with_fuel(sum_of_sums, 17);
}

#[verifier::spinoff_prover]
proof fn lemma_sums_19()
    requires
        distance_sum(304) == 164354,
        sum_of_sums(304) == 24948945,
    ensures
        distance_sum(320) == 172884,
        sum_of_sums(320) == 27648327,
        forall|i: int| 304 <= i < 320 ==> 50 <= #[trigger] BZ2_RNUMS[i] <= 999,
{
    reveal_with_fuel(distance_sum, 17);
    reveal_with_fuel(sum_of_sums, 17);
}

#[verifier::spinoff_prover]
proof fn lemma_sums_20()
    requires
        distance_sum(320) == 172884,
        sum_of_sums(320) == 27648327,
    ensures
        distance_sum(336) == 183615,
        sum_of_sums(336) == 30509779,
        forall|i: int| 320 <= i < 336 ==> 50 <= #[trigger] BZ2_RNUMS[i] <= 999,
{
    reveal_with_fuel(distance_sum, 17);
    reveal_with_fuel(sum_of_sums, 17);
}

#[verifier::spinoff_prover]
proof fn lemma_sums_21()
    requires
        distance_sum(336) == 183615,
        sum_of_sums(336) == 30509779,
    ensures
        distance_sum(352) == 192304,
        sum_of_sums(352) == 33526652,
        forall|i: int| 336 <= i < 352 ==> 50 <= #[trigger] BZ2_RNUMS[i] <= 999,
{
    reveal_with_fuel(distance_sum, 17);
    reveal_with_fuel(sum_of_sums, 17);
}

#[verifier::spinoff_prover]
proof fn lemma_sums_22()
    requires
        distance_sum(352) == 192304,
        sum_of_sums(352) == 33526652,
    ensures
        distance_sum(368) == 200923,
        sum_of_sums(368) == 36676236,
        forall|i: int| 352 <= i < 368 ==> 50 <= #[trigger] BZ2_RNUMS[i] <= 999,
{
    reveal_with_fuel(distance_sum, 17);
    reveal_with_fuel(sum_of_sums, 17);
}

#[verifier::spinoff_prover]
proof fn lemma_sums_23()
    requires
        distance_sum(368) == 200923,
        sum_of_sums(368) == 36676236,
    ensures
        distance_sum(384) == 206962,
        sum_of_sums(384) == 39940556,
        forall|i: int| 368 <= i < 384 ==> 50 <= #[trigger] BZ2_RNUMS[i] <= 999,
{
    reveal_with_fuel(distance_sum, 17);
    reveal_with_fuel(sum_of_sums, 17);
}

#[verifier::spinoff_prover]
proof fn lemma_sums_24()
    requires
        distance_sum(384) == 206962,
        sum_of_sums(384) == 39940556,
    ensures
        distance_sum(400) == 215367,
        sum_of_sums(400) == 43324648,
        forall|i: int| 384 <= i < 400 ==> 50 <= #[trigger] BZ2_RNUMS[i] <= 999,
{
    reveal_with_fuel(distance_sum, 17);
    reveal_with_fuel(sum_of_sums, 17);
}

#[verifier::spinoff_prover]
proof fn lemma_sums_25()
    requires
        distance_sum(400) == 215367,
        sum_of_sums(400) == 43324648,
    ensures
        distance_sum(416) == 224765,
        sum_of_sums(416) == 46843080,
        forall|i: int| 400 <= i < 416 ==> 50 <= #[trigger] BZ2_RNUMS[i] <= 999,
{
    reveal_with_fuel(distance_sum, 17);
    reveal_with_fuel(sum_of_sums, 17);
}

#[verifier::spinoff_prover]
proof fn lemma_sums_26()
    requires
        distance_sum(416) == 224765,
        sum_of_sums(416) == 46843080,
    ensures
        distance_sum(432) == 233653,
        sum_of_sums(432) == 50511586,
        forall|i: int| 416 <= i < 432 ==> 50 <= #[trigger] BZ2_RNUMS[i] <= 999,
{
    reveal_with_fuel(distance_sum, 17);
    reveal_with_fuel(sum_of_sums, 17);
}

#[verifier::spinoff_prover]
proof fn lemma_sums_27()
    requires
        distance_sum(432) == 233653,
        sum_of_sums(432) == 50511586,
    ensures
        distance_sum(448) == 243402,
        sum_of_sums(448) == 54319851,
        forall|i: int| 432 <= i < 448 ==> 50 <= #[trigger] BZ2_RNUMS[i] <= 999,
{
    reveal_with_fuel(distance_sum, 17);
    reveal_with_fuel(sum_of_sums, 17);
}

#[verifier::spinoff_prover]
proof fn lemma_sums_28()
    requires
        distance_sum(448) == 243402,
        sum_of_sums(448) == 54319851,
    ensures
        distance_sum(464) == 252996,
        sum_of_sums(464) == 58293581,
        forall|i: int| 448 <= i < 464 ==> 50 <= #[trigger] BZ2_RNUMS[i] <= 999,
{
    reveal_with_fuel(distance_sum, 17);
    reveal_with_fuel(sum_of_sums, 17);
}

#[verifier::spinoff_prover]
proof fn lemma_sums_29()
    requires
        distance_sum(464) == 252996,
        sum_of_sums(464) == 58293581,
    ensures
        distance_sum(480) == 261093,
        sum_of_sums(480) == 62413212,
        forall|i: int| 464 <= i < 480 ==> 50 <= #[trigger] BZ2_RNUMS[i] <= 999,
{
    reveal_with_fuel(distance_sum, 17);
    reveal_with_fuel(sum_of_sums, 17);
}

#[verifier::spinoff_prover]
proof fn lemma_sums_30()
    requires
        distance_sum(480) == 261093,
        sum_of_sums(480) == 62413212,
    ensures
        distance_sum(496) == 269854,
        sum_of_sums(496) == 66669326,
        forall|i: int| 480 <= i < 496 ==> 50 <= #[trigger] BZ2_RNUMS[i] <= 999,
{
    reveal_with_fuel(distance_sum, 17);
    reveal_with_fuel(sum_of_sums, 17);
}

#[verifier::spinoff_prover]
proof fn lemma_sums_31()
    requires
        distance_sum(496) == 269854,
        sum_of_sums(496) == 66669326,
    ensures
        distance_sum(512) == 278212,
        sum_of_sums(512) == 71048418,
        forall|i: int| 496 <= i < 512 ==> 50 <= #[trigger] BZ2_RNUMS[i] <= 999,
{
    reveal_with_fuel(distance_sum, 17);
    reveal_with_fuel(sum_of_sums, 17);
}

/// The table as a whole: all distances lie between 50 and 999, they add up to 278212, and their
/// sums from the first one on to 71048418.
pub proof fn lemma_table()
    ensures
        forall|i: int| 0 <= i < 512 ==> 50 <= #[trigger] BZ2_RNUMS[i] <= 999,
        distance_sum(512) == 278212,
        sum_of_sums(512) == 71048418,
{
    lemma_sums_0();
    lemma_sums_1();
    lemma_sums_2();
    lemma_sums_3();
    lemma_sums_4();
    lemma_sums_5();
    lemma_sums_6();
    lemma_sums_7();
    lemma_sums_8();
    lemma_sums_9();
    lemma_sums_10();
    lemma_sums_11();
    lemma_sums_12();
    lemma_sums_13();
    lemma_sums_14();
    lemma_sums_15();
    lemma_sums_16();
    lemma_sums_17();
    lemma_sums_18();
    lemma_sums_19();
    lemma_sums_20();
    lemma_sums_21();
    lemma_sums_22();
    lemma_sums_23();
    lemma_sums_24();
    lemma_sums_25();
    lemma_sums_26();
    lemma_sums_27();
    lemma_sums_28();
    lemma_sums_29();
    lemma_sums_30();
    lemma_sums_31();
}

} // verus!
