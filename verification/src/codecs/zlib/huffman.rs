//! Canonical Huffman codes with at most fifteen bits.

use vstd::arithmetic::div_mod::{lemma_mod_mod, lemma_small_mod};
use vstd::arithmetic::power2::{lemma2_to64, lemma_pow2_adds, lemma_pow2_pos, pow2};
use vstd::prelude::*;

use crate::codecs::zlib::bitstream::{
    bits_at, lemma_bits_at_bound, lemma_bits_at_divide, BitReader,
};
use crate::codecs::zlib::fault::Fault;
use crate::math::{lemma_pow2_monotonic, lemma_pow2_step, lemma_split_at, power_of_two};

verus! {

/// The longest code in bits.
pub const MAX_BITS: usize = 15;

const INVALID_ENTRY: u32 = 0xffff_ffff;

/// How many of the first `n` symbols have a code of `length` bits.
pub open spec fn symbols_of_length(lengths: Seq<u8>, n: nat, length: int) -> nat
    decreases n,
{
    if n == 0 {
        0
    } else {
        symbols_of_length(lengths, (n - 1) as nat, length) + (if lengths[n - 1] as int == length {
            1nat
        } else {
            0
        })
    }
}

/// The number of codes of `length` bits; the length zero stands for an absent code.
pub open spec fn code_count(lengths: Seq<u8>, length: nat) -> nat {
    if length == 0 {
        0
    } else {
        symbols_of_length(lengths, lengths.len(), length as int)
    }
}

/// The numerically first code of `length` bits.
pub open spec fn first_code(lengths: Seq<u8>, length: nat) -> nat
    decreases length,
{
    if length == 0 {
        0
    } else {
        2 * (first_code(lengths, (length - 1) as nat) + code_count(lengths, (length - 1) as nat))
    }
}

/// The canonical code of `symbol`: codes of one length are consecutive in symbol order.
pub open spec fn code_of(lengths: Seq<u8>, symbol: int) -> int {
    first_code(lengths, lengths[symbol] as nat) as int + symbols_of_length(
        lengths,
        symbol as nat,
        lengths[symbol] as int,
    )
}

/// The codes of each length fit into that many bits.
pub open spec fn codes_fit(lengths: Seq<u8>, length: nat) -> bool {
    first_code(lengths, length) + code_count(lengths, length) <= pow2(length)
}

/// No code is longer than fifteen bits.
pub open spec fn lengths_fit(lengths: Seq<u8>) -> bool {
    forall|i: int| 0 <= i < lengths.len() ==> #[trigger] lengths[i] <= 15
}

/// No length has more codes than fit beside the shorter ones.
pub open spec fn not_oversubscribed(lengths: Seq<u8>) -> bool {
    forall|l: nat| 1 <= l <= 15 ==> #[trigger] codes_fit(lengths, l)
}

/// Some symbol has a code.
pub open spec fn any_code(lengths: Seq<u8>) -> bool {
    exists|i: int| 0 <= i < lengths.len() && #[trigger] lengths[i] > 0
}

/// Why `lengths` describe no canonical code, if they do not.
pub open spec fn codes_fault(lengths: Seq<u8>) -> Option<Fault> {
    if !lengths_fit(lengths) {
        Some(Fault::CodeTooLong)
    } else if !not_oversubscribed(lengths) {
        Some(Fault::OversubscribedTree)
    } else {
        None
    }
}

/// Why `lengths` describe no decoding tree, if they do not.
pub open spec fn tree_fault(lengths: Seq<u8>) -> Option<Fault> {
    if !any_code(lengths) {
        Some(Fault::EmptyTree)
    } else {
        codes_fault(lengths)
    }
}

/// The `length` bits of `code` in reverse order.
pub open spec fn reversed(code: int, length: nat) -> int
    decreases length,
{
    if length == 0 {
        0
    } else {
        (code % 2) * pow2((length - 1) as nat) + reversed(code / 2, (length - 1) as nat)
    }
}

/// The stream window `window` starts with the code of `symbol`, most significant bit first.
pub open spec fn starts_with(lengths: Seq<u8>, symbol: int, window: int) -> bool {
    &&& 0 <= symbol < lengths.len()
    &&& lengths[symbol] > 0
    &&& window % (pow2(lengths[symbol] as nat) as int) == reversed(
        code_of(lengths, symbol),
        lengths[symbol] as nat,
    )
}

/// The symbol whose code stands at bit `p` and the position behind it. A code that the end of
/// the stream cuts off is recognised as if zeros followed, and refused.
pub open spec fn symbol_at(lengths: Seq<u8>, data: Seq<u8>, p: int) -> Result<(int, int), Fault> {
    let window = bits_at(data, p, 15);
    if p >= 8 * data.len() {
        Err(Fault::TruncatedStream)
    } else if exists|s: int| starts_with(lengths, s, window) {
        let symbol = choose|s: int| starts_with(lengths, s, window);
        if p + lengths[symbol] > 8 * data.len() {
            Err(Fault::TruncatedCode)
        } else {
            Ok((symbol, p + lengths[symbol]))
        }
    } else {
        Err(Fault::InvalidCode)
    }
}

pub proof fn lemma_reversed_bound(code: int, length: nat)
    ensures
        0 <= reversed(code, length) < pow2(length),
    decreases length,
{
    lemma_pow2_pos(length);
    if length > 0 {
        lemma_reversed_bound(code / 2, (length - 1) as nat);
        lemma_pow2_step((length - 1) as nat);
        let h = pow2((length - 1) as nat) as int;
        assert(0 <= (code % 2) * h <= h) by (nonlinear_arith)
            requires
                0 <= code % 2 <= 1,
                h > 0,
        ;
    }
}

/// The low bits of a reversed code are the reversal of its high bits.
proof fn lemma_reversed_prefix(code: int, length: nat, k: nat)
    requires
        k <= length,
        code >= 0,
    ensures
        reversed(code, length) % (pow2(k) as int) == reversed(
            code / (pow2((length - k) as nat) as int),
            k,
        ),
    decreases length - k,
{
    lemma_pow2_pos(k);
    if k == length {
        lemma2_to64();
        lemma_reversed_bound(code, length);
        lemma_small_mod(reversed(code, length) as nat, pow2(k));
        assert(code / 1 == code);
    } else {
        let h = (length - 1) as nat;
        lemma_reversed_prefix(code / 2, h, k);
        // The top bit is a multiple of 2^k.
        let d = (h - k) as nat;
        lemma_pow2_adds(k, d);
        let low = reversed(code / 2, h);
        let top = (code % 2) * pow2(h);
        let m = pow2(k) as int;
        let q = (code % 2) * pow2(d);
        assert(top == m * q) by (nonlinear_arith)
            requires
                top == (code % 2) * pow2(h),
                q == (code % 2) * pow2(d),
                m * pow2(d) == pow2(h),
        ;
        vstd::arithmetic::div_mod::lemma_mod_multiples_vanish(q, low, m);
        lemma_pow2_step(d);
        lemma_pow2_pos(d);
        vstd::arithmetic::div_mod::lemma_div_denominator(code, 2, pow2(d) as int);
        assert((length - k) as nat == d + 1);
    }
}

proof fn lemma_reversed_injective(a: int, b: int, length: nat)
    requires
        0 <= a < pow2(length),
        0 <= b < pow2(length),
        reversed(a, length) == reversed(b, length),
    ensures
        a == b,
    decreases length,
{
    if length == 0 {
        lemma2_to64();
    } else {
        let n = (length - 1) as nat;
        lemma_pow2_step(n);
        lemma_reversed_bound(a / 2, n);
        lemma_reversed_bound(b / 2, n);
        let h = pow2(n) as int;
        let ra = reversed(a / 2, n);
        let rb = reversed(b / 2, n);
        assert((a % 2) * h == h * (a % 2)) by (nonlinear_arith);
        assert((b % 2) * h == h * (b % 2)) by (nonlinear_arith);
        lemma_split_at(ra, a % 2, h);
        lemma_split_at(rb, b % 2, h);
        lemma_reversed_injective(a / 2, b / 2, n);
    }
}

pub proof fn lemma_symbols_monotonic(lengths: Seq<u8>, a: nat, b: nat, length: int)
    requires
        a <= b <= lengths.len(),
    ensures
        symbols_of_length(lengths, a, length) <= symbols_of_length(lengths, b, length) <= b,
    decreases b,
{
    if b > 0 {
        if a < b {
            lemma_symbols_monotonic(lengths, a, (b - 1) as nat, length);
        } else {
            lemma_symbols_monotonic(lengths, (a - 1) as nat, (b - 1) as nat, length);
        }
    }
}

/// A code lies among those of its length.
pub proof fn lemma_code_bound(lengths: Seq<u8>, symbol: int)
    requires
        codes_fit(lengths, lengths[symbol] as nat),
        0 <= symbol < lengths.len(),
        lengths[symbol] > 0,
    ensures
        0 <= code_of(lengths, symbol) < first_code(lengths, lengths[symbol] as nat) + code_count(
            lengths,
            lengths[symbol] as nat,
        ) <= pow2(lengths[symbol] as nat),
{
    let l = lengths[symbol] as nat;
    lemma_symbols_monotonic(lengths, (symbol + 1) as nat, lengths.len(), l as int);
    assert(symbols_of_length(lengths, (symbol + 1) as nat, l as int) == symbols_of_length(
        lengths,
        symbol as nat,
        l as int,
    ) + 1);
}

/// Longer codes start behind all shorter ones.
pub proof fn lemma_first_code_grows(lengths: Seq<u8>, a: nat, b: nat)
    requires
        a < b,
    ensures
        (first_code(lengths, a) + code_count(lengths, a)) * pow2((b - a) as nat) <= first_code(
            lengths,
            b,
        ),
    decreases b,
{
    let base = first_code(lengths, a) + code_count(lengths, a);
    if b == a + 1 {
        lemma2_to64();
        let p = pow2((b - a) as nat);
        assert(base * p == 2 * base) by (nonlinear_arith)
            requires
                p == 2,
        ;
    } else {
        lemma_first_code_grows(lengths, a, (b - 1) as nat);
        lemma_pow2_step((b - 1 - a) as nat);
        let p = pow2((b - 1 - a) as nat);
        assert(base * (2 * p) == 2 * (base * p)) by (nonlinear_arith);
        assert((b - 1 - a) as nat + 1 == (b - a) as nat);
    }
}

/// No code is the beginning of another one: at most one symbol fits a window.
pub proof fn lemma_prefix_free(lengths: Seq<u8>, a: int, b: int, window: int)
    requires
        codes_fault(lengths) is None,
        starts_with(lengths, a, window),
        starts_with(lengths, b, window),
    ensures
        a == b,
    decreases (if lengths[a] > lengths[b] { 1int } else { 0 }),
{
    let la = lengths[a] as nat;
    let lb = lengths[b] as nat;
    if la > lb {
        lemma_prefix_free(lengths, b, a, window);
    } else if a != b {
        let ca = code_of(lengths, a);
        let cb = code_of(lengths, b);
        assert(codes_fit(lengths, la) && codes_fit(lengths, lb));
        lemma_code_bound(lengths, a);
        lemma_code_bound(lengths, b);
        let d = (lb - la) as nat;
        lemma_pow2_pos(la);
        lemma_pow2_pos(d);
        lemma_pow2_adds(la, d);
        assert(pow2(la) * pow2(d) == pow2(lb));
        lemma_mod_mod(window, pow2(la) as int, pow2(d) as int);
        lemma_reversed_prefix(cb, lb, la);
        let high = cb / (pow2(d) as int);
        assert(0 <= high < pow2(la)) by (nonlinear_arith)
            requires
                high == cb / (pow2(d) as int),
                0 <= cb < pow2(lb),
                pow2(la) * pow2(d) == pow2(lb),
                pow2(d) > 0,
        ;
        lemma_reversed_injective(ca, high, la);
        assert(ca == high);
        if la == lb {
            lemma2_to64();
            assert(cb / 1 == cb);
            let low = if a < b { a } else { b };
            let up = if a < b { b } else { a };
            lemma_symbols_monotonic(lengths, (low + 1) as nat, up as nat, la as int);
            assert(symbols_of_length(lengths, (low + 1) as nat, la as int) == symbols_of_length(
                lengths,
                low as nat,
                la as int,
            ) + 1);
        } else {
            lemma_first_code_grows(lengths, la, lb);
            let base = first_code(lengths, la) + code_count(lengths, la);
            let f = pow2(d) as int;
            assert(high >= base) by (nonlinear_arith)
                requires
                    high == cb / f,
                    f > 0,
                    base * f <= cb,
            ;
        }
    }
}

/// What stands at a position is the one symbol that fits there.
pub proof fn lemma_symbol_at(lengths: Seq<u8>, data: Seq<u8>, p: int, symbol: int)
    requires
        codes_fault(lengths) is None,
        p + lengths[symbol] <= 8 * data.len(),
        starts_with(lengths, symbol, bits_at(data, p, 15)),
    ensures
        symbol_at(lengths, data, p) == Ok::<(int, int), Fault>((symbol, p + lengths[symbol])),
{
    let window = bits_at(data, p, 15);
    let chosen = choose|s: int| starts_with(lengths, s, window);
    lemma_prefix_free(lengths, symbol, chosen, window);
}

/// A fit depends only on as many bits as the code has.
pub proof fn lemma_window_prefix(lengths: Seq<u8>, symbol: int, window: int, bits: nat)
    requires
        0 <= symbol < lengths.len(),
        lengths[symbol] <= bits,
        window >= 0,
    ensures
        starts_with(lengths, symbol, window) == starts_with(
            lengths,
            symbol,
            window % (pow2(bits) as int),
        ),
{
    let l = lengths[symbol] as nat;
    let d = (bits - l) as nat;
    lemma_pow2_pos(l);
    lemma_pow2_pos(d);
    lemma_pow2_adds(l, d);
    lemma_mod_mod(window, pow2(l) as int, pow2(d) as int);
}

/// The canonical codes for the given code lengths.
pub fn canonical_codes(lengths: &[u8]) -> (codes: Result<Vec<u16>, Fault>)
    requires
        lengths@.len() <= 0xffff,
    ensures
        match codes {
            Ok(codes) => {
                &&& codes_fault(lengths@) is None
                &&& codes@.len() == lengths@.len()
                &&& forall|s: int|
                    0 <= s < lengths@.len() && lengths@[s] > 0 ==> #[trigger] codes@[s] == code_of(
                        lengths@,
                        s,
                    )
            },
            Err(fault) => codes_fault(lengths@) == Some(fault),
        },
{
    let mut counts: Vec<u32> = vec![0; 16];
    let mut i: usize = 0;
    while i < lengths.len()
        invariant
            i <= lengths@.len() <= 0xffff,
            counts@.len() == 16,
            counts@[0] == 0,
            forall|k: int| 0 <= k < i ==> #[trigger] lengths@[k] <= 15,
            forall|l: int|
                1 <= l < 16 ==> #[trigger] counts@[l] == symbols_of_length(lengths@, i as nat, l),
        decreases lengths.len() - i,
    {
        let length: usize = lengths[i] as usize;
        if length > MAX_BITS {
            return Err(Fault::CodeTooLong);
        }
        if length != 0 {
            proof {
                lemma_symbols_monotonic(lengths@, 0, i as nat, length as int);
            }
            counts.set(length, counts[length] + 1);
        }
        i += 1;
    }
    let mut next: Vec<u32> = vec![0; 16];
    let mut left: i64 = 1;
    let mut code: u32 = 0;
    let mut bits: usize = 1;
    proof {
        lemma2_to64();
    }
    while bits <= MAX_BITS
        invariant
            1 <= bits <= 16,
            lengths@.len() <= 0xffff,
            lengths_fit(lengths@),
            counts@.len() == 16,
            next@.len() == 16,
            forall|l: nat| l < 16 ==> #[trigger] counts@[l as int] == code_count(lengths@, l),
            left == pow2((bits - 1) as nat) - first_code(lengths@, (bits - 1) as nat) - code_count(
                lengths@,
                (bits - 1) as nat,
            ),
            0 <= left <= pow2((bits - 1) as nat),
            code == first_code(lengths@, (bits - 1) as nat),
            forall|l: nat| 1 <= l < bits ==> #[trigger] codes_fit(lengths@, l),
            forall|l: nat| l < bits ==> #[trigger] next@[l as int] == first_code(lengths@, l),
        decreases 16 - bits,
    {
        proof {
            lemma_pow2_step((bits - 1) as nat);
            lemma_pow2_monotonic((bits - 1) as nat, 14);
            lemma2_to64();
            assert(counts@[(bits - 1) as nat as int] == code_count(lengths@, (bits - 1) as nat));
            assert(counts@[bits as nat as int] == code_count(lengths@, bits as nat));
            assert(first_code(lengths@, bits as nat) == 2 * (first_code(
                lengths@,
                (bits - 1) as nat,
            ) + code_count(lengths@, (bits - 1) as nat)));
            lemma_symbols_monotonic(lengths@, 0, lengths@.len(), bits as int);
        }
        left = left * 2 - counts[bits] as i64;
        if left < 0 {
            assert(!codes_fit(lengths@, bits as nat));
            return Err(Fault::OversubscribedTree);
        }
        code = (code + counts[bits - 1]) * 2;
        next.set(bits, code);
        assert(codes_fit(lengths@, bits as nat));
        bits += 1;
    }
    let mut codes: Vec<u16> = vec![0; lengths.len()];
    let mut symbol: usize = 0;
    while symbol < lengths.len()
        invariant
            symbol <= lengths@.len() <= 0xffff,
            codes_fault(lengths@) is None,
            next@.len() == 16,
            codes@.len() == lengths@.len(),
            forall|l: nat|
                1 <= l < 16 ==> #[trigger] next@[l as int] == first_code(lengths@, l)
                    + symbols_of_length(lengths@, symbol as nat, l as int),
            forall|s: int|
                0 <= s < symbol && lengths@[s] > 0 ==> #[trigger] codes@[s] == code_of(lengths@, s),
        decreases lengths.len() - symbol,
    {
        let length: usize = lengths[symbol] as usize;
        if length != 0 {
            proof {
                assert(codes_fit(lengths@, length as nat));
                lemma_code_bound(lengths@, symbol as int);
                lemma_pow2_monotonic(length as nat, 15);
                lemma2_to64();
                assert(next@[length as nat as int] == code_of(lengths@, symbol as int));
            }
            codes.set(symbol, next[length] as u16);
            next.set(length, next[length] + 1);
        }
        symbol += 1;
    }
    Ok(codes)
}

/// The lowest `length` bits of `code` in reverse order.
pub fn reverse_code(code: u16, length: u8) -> (result: u16)
    requires
        length <= 16,
    ensures
        result == reversed(code as int, length as nat),
{
    let mut rest: u16 = code;
    let mut result: u32 = 0;
    let mut i: u8 = 0;
    proof {
        assert(0 * pow2(length as nat) == 0) by (nonlinear_arith);
        lemma2_to64();
    }
    while i < length
        invariant
            i <= length <= 16,
            result < pow2(i as nat),
            reversed(code as int, length as nat) == result * pow2((length - i) as nat) + reversed(
                rest as int,
                (length - i) as nat,
            ),
        decreases length - i,
    {
        proof {
            let n = (length - i - 1) as nat;
            lemma_pow2_step(n);
            lemma_pow2_step(i as nat);
            lemma_pow2_monotonic(i as nat, 15);
            lemma2_to64();
            let h = pow2(n) as int;
            let r = result as int;
            let b = rest as int % 2;
            assert(r * (2 * h) + b * h == (2 * r + b) * h) by (nonlinear_arith);
        }
        result = result * 2 + (rest % 2) as u32;
        rest = rest / 2;
        i += 1;
    }
    proof {
        lemma2_to64();
        lemma_pow2_monotonic(length as nat, 16);
        let one = pow2((length - i) as nat) as int;
        assert(result * one == result) by (nonlinear_arith)
            requires
                one == 1,
        ;
    }
    result as u16
}

/// A decoding table for one set of code lengths.
pub struct Huffman {
    table: Vec<u32>,
    max_bits: usize,
    lengths: Ghost<Seq<u8>>,
}

/// A table entry names the one symbol whose code its index starts with.
spec fn entry_fits(lengths: Seq<u8>, entry: u32, index: int, upto: int) -> bool {
    if entry == INVALID_ENTRY {
        forall|s: int| 0 <= s < upto ==> !#[trigger] starts_with(lengths, s, index)
    } else {
        let symbol = (entry / 32) as int;
        &&& symbol < upto
        &&& starts_with(lengths, symbol, index)
        &&& entry % 32 == lengths[symbol]
    }
}

impl Huffman {
    /// The code lengths of the tree.
    pub closed spec fn lengths(&self) -> Seq<u8> {
        self.lengths@
    }

    pub closed spec fn wf(&self) -> bool {
        &&& 1 <= self.max_bits <= 15
        &&& tree_fault(self.lengths@) is None
        &&& self.lengths@.len() <= 0xffff
        &&& forall|i: int| 0 <= i < self.lengths@.len() ==> #[trigger] self.lengths@[i] <= self.max_bits
        &&& self.table@.len() == pow2(self.max_bits as nat)
        &&& forall|i: int|
            0 <= i < self.table@.len() ==> entry_fits(
                self.lengths@,
                #[trigger] self.table@[i],
                i,
                self.lengths@.len() as int,
            )
    }

    pub proof fn lemma_valid(&self)
        requires
            self.wf(),
        ensures
            tree_fault(self.lengths()) is None,
            self.lengths().len() <= 0xffff,
    {
    }

    pub fn new(lengths: &[u8]) -> (tree: Result<Self, Fault>)
        requires
            lengths@.len() <= 0xffff,
        ensures
            match tree {
                Ok(tree) => tree.wf() && tree.lengths() == lengths@ && tree_fault(lengths@) is None,
                Err(fault) => tree_fault(lengths@) == Some(fault),
            },
    {
        let mut max_bits: usize = 0;
        let mut i: usize = 0;
        while i < lengths.len()
            invariant
                i <= lengths@.len(),
                max_bits <= 255,
                forall|k: int| 0 <= k < i ==> #[trigger] lengths@[k] <= max_bits,
                max_bits > 0 ==> exists|k: int| 0 <= k < i && #[trigger] lengths@[k] == max_bits,
            decreases lengths.len() - i,
        {
            if lengths[i] as usize > max_bits {
                max_bits = lengths[i] as usize;
                assert(lengths@[i as int] == max_bits);
            }
            i += 1;
        }
        if max_bits == 0 {
            return Err(Fault::EmptyTree);
        }
        let codes = match canonical_codes(lengths) {
            Ok(codes) => codes,
            Err(fault) => return Err(fault),
        };
        let size: usize = power_of_two(max_bits) as usize;
        proof {
            lemma_pow2_monotonic(max_bits as nat, 15);
            lemma2_to64();
        }
        let mut table: Vec<u32> = vec![INVALID_ENTRY; size];
        let mut symbol: usize = 0;
        while symbol < lengths.len()
            invariant
                symbol <= lengths@.len() <= 0xffff,
                1 <= max_bits <= 15,
                size == pow2(max_bits as nat),
                size <= 32768,
                table@.len() == size,
                codes_fault(lengths@) is None,
                codes@.len() == lengths@.len(),
                forall|k: int| 0 <= k < lengths@.len() ==> #[trigger] lengths@[k] <= max_bits,
                forall|s: int|
                    0 <= s < lengths@.len() && lengths@[s] > 0 ==> #[trigger] codes@[s] == code_of(
                        lengths@,
                        s,
                    ),
                forall|k: int|
                    0 <= k < size ==> entry_fits(lengths@, #[trigger] table@[k], k, symbol as int),
            decreases lengths.len() - symbol,
        {
            let length: u8 = lengths[symbol];
            let ghost before = table@;
            if length != 0 {
                Self::fill_symbol(
                    &mut table,
                    symbol,
                    length,
                    reverse_code(codes[symbol], length) as usize,
                    max_bits,
                    Ghost(lengths@),
                );
            }
            assert forall|k: int| 0 <= k < size implies entry_fits(
                lengths@,
                #[trigger] table@[k],
                k,
                symbol as int + 1,
            ) by {
                assert(entry_fits(lengths@, before[k], k, symbol as int));
            }
            symbol += 1;
        }
        Ok(Huffman { table, max_bits, lengths: Ghost(lengths@) })
    }

    /// Enters `symbol` at every index that starts with its code.
    fn fill_symbol(
        table: &mut Vec<u32>,
        symbol: usize,
        length: u8,
        code: usize,
        max_bits: usize,
        lengths: Ghost<Seq<u8>>,
    )
        requires
            1 <= length <= max_bits <= 15,
            symbol < lengths@.len() <= 0xffff,
            lengths@[symbol as int] == length,
            code == reversed(code_of(lengths@, symbol as int), length as nat),
            old(table)@.len() == pow2(max_bits as nat),
        ensures
            final(table)@.len() == old(table)@.len(),
            forall|k: int|
                0 <= k < final(table)@.len() ==> #[trigger] final(table)@[k] == (if starts_with(
                    lengths@,
                    symbol as int,
                    k,
                ) {
                    (symbol * 32 + length) as u32
                } else {
                    old(table)@[k]
                }),
    {
        let step: usize = power_of_two(length as usize) as usize;
        let repetitions: usize = power_of_two(max_bits - length as usize) as usize;
        let entry: u32 = symbol as u32 * 32 + length as u32;
        let mut suffix: usize = 0;
        let mut index: usize = code;
        proof {
            lemma_pow2_monotonic(max_bits as nat, 15);
            lemma_pow2_monotonic(length as nat, 15);
            lemma_pow2_monotonic((max_bits - length) as nat, 15);
            lemma2_to64();
            lemma_pow2_adds(length as nat, (max_bits - length) as nat);
            lemma_reversed_bound(code_of(lengths@, symbol as int), length as nat);
            assert(step * 0 == 0) by (nonlinear_arith);
        }
        while suffix < repetitions
            invariant
                1 <= length <= max_bits <= 15,
                symbol < lengths@.len() <= 0xffff,
                lengths@[symbol as int] == length,
                code == reversed(code_of(lengths@, symbol as int), length as nat),
                step == pow2(length as nat),
                0 <= code < step <= 32768,
                repetitions <= 32768,
                suffix <= repetitions,
                step * repetitions == table@.len(),
                table@.len() <= 32768,
                table@.len() == old(table)@.len(),
                index == code + step * suffix,
                entry == symbol * 32 + length,
                forall|k: int|
                    0 <= k < table@.len() ==> #[trigger] table@[k] == (if k % (step as int)
                        == code && k / (step as int) < suffix {
                        entry
                    } else {
                        old(table)@[k]
                    }),
            decreases repetitions - suffix,
        {
            assert(step * suffix + step <= step * repetitions) by (nonlinear_arith)
                requires
                    suffix < repetitions,
                    step > 0,
            ;
            assert(step * (suffix + 1) == step * suffix + step) by (nonlinear_arith);
            let ghost before = table@;
            table.set(index, entry);
            assert forall|k: int| 0 <= k < table@.len() implies #[trigger] table@[k] == (if k % (
            step as int) == code && k / (step as int) < suffix + 1 {
                entry
            } else {
                old(table)@[k]
            }) by {
                lemma_split_at(code as int, suffix as int, step as int);
                if k != index {
                    assert(table@[k] == before[k]);
                    if k % (step as int) == code && k / (step as int) == suffix {
                        vstd::arithmetic::div_mod::lemma_fundamental_div_mod(k, step as int);
                    }
                }
            }
            suffix += 1;
            index += step;
        }
        assert forall|k: int| 0 <= k < table@.len() implies #[trigger] table@[k] == (
        if starts_with(lengths@, symbol as int, k) {
            (symbol * 32 + length) as u32
        } else {
            old(table)@[k]
        }) by {
            assert(k / (step as int) < repetitions) by (nonlinear_arith)
                requires
                    0 <= k < step * repetitions,
                    step > 0,
            ;
        }
    }

    /// Reads the next symbol.
    pub fn decode(&self, reader: &mut BitReader<'_>) -> (symbol: Result<u16, Fault>)
        requires
            self.wf(),
            old(reader).wf(),
        ensures
            final(reader).wf(),
            final(reader).data() == old(reader).data(),
            match symbol_at(self.lengths(), old(reader).data(), old(reader).at()) {
                Ok((s, q)) => symbol == Ok::<u16, Fault>(s as u16) && 0 <= s
                    < self.lengths().len() && final(reader).at() == q && q > old(reader).at(),
                Err(fault) => symbol == Err::<u16, Fault>(fault),
            },
    {
        let ghost p = reader.at();
        let ghost data = reader.data();
        let ghost window = bits_at(data, p, 15);
        let index: usize = match reader.peek_padded(self.max_bits) {
            Some(bits) => {
                proof {
                    lemma_bits_at_bound(data, p, self.max_bits as nat);
                    lemma_pow2_monotonic(self.max_bits as nat, 15);
                    lemma2_to64();
                }
                bits as usize
            },
            None => return Err(Fault::TruncatedStream),
        };
        let entry: u32 = self.table[index];
        proof {
            lemma_bits_at_bound(data, p, 15);
            lemma_bits_at_divide(
                data,
                p,
                self.max_bits as nat,
                (15 - self.max_bits) as nat,
            );
            assert(entry_fits(
                self.lengths@,
                self.table@[index as int],
                index as int,
                self.lengths@.len() as int,
            ));
            assert forall|s: int| 0 <= s < self.lengths@.len() implies #[trigger] starts_with(
                self.lengths@,
                s,
                window,
            ) == starts_with(self.lengths@, s, index as int) by {
                lemma_window_prefix(self.lengths@, s, window, self.max_bits as nat);
            }
        }
        if entry == INVALID_ENTRY {
            assert forall|s: int| !starts_with(self.lengths@, s, window) by {
                if 0 <= s < self.lengths@.len() {
                    assert(!starts_with(self.lengths@, s, index as int));
                }
            }
            return Err(Fault::InvalidCode);
        }
        let symbol: u32 = entry / 32;
        let length: usize = (entry % 32) as usize;
        proof {
            assert(starts_with(self.lengths@, symbol as int, window));
            let chosen = choose|s: int| starts_with(self.lengths@, s, window);
            lemma_prefix_free(self.lengths@, symbol as int, chosen, window);
        }
        if !reader.drop_bits(length) {
            return Err(Fault::TruncatedCode);
        }
        Ok(symbol as u16)
    }
}

} // verus!
