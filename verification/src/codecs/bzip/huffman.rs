//! Canonical Huffman codes with at most twenty bits.

use vstd::arithmetic::power2::{lemma2_to64, lemma_pow2_pos, pow2};
use vstd::prelude::*;

use crate::codecs::bzip::bitstream::{
    bits_at, holds, lemma_bits_at_bound, lemma_holds_number, low_bits, BitReader,
};
use crate::codecs::bzip::fault::Fault;
use crate::codecs::zlib::huffman::{
    code_count, code_of, codes_fit, first_code, lemma_code_bound, lemma_first_code_grows,
    lemma_symbols_monotonic, symbols_of_length,
};
use crate::math::{lemma_pow2_monotonic, lemma_pow2_step};

verus! {

/// The longest code in bits.
pub const MAX_CODE_LENGTH: usize = 20;

/// Every symbol has a code of one to twenty bits.
pub open spec fn lengths_valid(lengths: Seq<u8>) -> bool {
    forall|i: int| 0 <= i < lengths.len() ==> 1 <= #[trigger] lengths[i] <= 20
}

/// No length has more codes than fit beside the shorter ones.
pub open spec fn not_oversubscribed(lengths: Seq<u8>) -> bool {
    forall|l: nat| 1 <= l <= 20 ==> #[trigger] codes_fit(lengths, l)
}

/// Why `lengths` describe no code, if they do not.
pub open spec fn tree_fault(lengths: Seq<u8>) -> Option<Fault> {
    if !lengths_valid(lengths) {
        Some(Fault::HuffmanLength)
    } else if !not_oversubscribed(lengths) {
        Some(Fault::OversubscribedTree)
    } else {
        None
    }
}

/// The longest of the first `n` code lengths.
pub open spec fn longest(lengths: Seq<u8>, n: nat) -> int
    decreases n,
{
    if n == 0 {
        0
    } else if lengths[n - 1] > longest(lengths, (n - 1) as nat) {
        lengths[n - 1] as int
    } else {
        longest(lengths, (n - 1) as nat)
    }
}

/// The code of `symbol` has `length` bits and the given value.
pub open spec fn has_code(lengths: Seq<u8>, symbol: int, length: nat, code: int) -> bool {
    &&& 0 <= symbol < lengths.len()
    &&& lengths[symbol] == length
    &&& code_of(lengths, symbol) == code
}

/// The symbol whose code of at least `length` bits stands at bit `p`, and the position behind.
pub open spec fn symbol_from(lengths: Seq<u8>, data: Seq<u8>, p: int, length: nat) -> Result<
    (int, int),
    Fault,
>
    decreases 21 - length,
{
    if length > longest(lengths, lengths.len()) || length > 20 {
        Err(Fault::InvalidCode)
    } else if p + length > 8 * data.len() {
        Err(Fault::TruncatedStream)
    } else {
        let code = bits_at(data, p, length);
        if exists|s: int| has_code(lengths, s, length, code) {
            Ok((choose|s: int| has_code(lengths, s, length, code), p + length))
        } else {
            symbol_from(lengths, data, p, length + 1)
        }
    }
}

/// The symbol whose code stands at bit `p`, and the position behind it.
pub open spec fn symbol_at(lengths: Seq<u8>, data: Seq<u8>, p: int) -> Result<(int, int), Fault> {
    symbol_from(lengths, data, p, 1)
}

/// The code of `symbol`.
pub open spec fn symbol_bits(lengths: Seq<u8>, symbol: int) -> Seq<bool> {
    low_bits(code_of(lengths, symbol), lengths[symbol] as nat)
}

pub proof fn lemma_symbol_advances(lengths: Seq<u8>, data: Seq<u8>, p: int, length: nat)
    requires
        length >= 1,
    ensures
        symbol_from(lengths, data, p, length) matches Ok((s, q)) ==> p < q <= 8 * data.len() && 0
            <= s < lengths.len(),
    decreases 21 - length,
{
    if length <= 20 {
        lemma_symbol_advances(lengths, data, p, length + 1);
    }
}

pub proof fn lemma_longest(lengths: Seq<u8>, n: nat)
    requires
        n <= lengths.len(),
    ensures
        forall|i: int| 0 <= i < n ==> #[trigger] lengths[i] <= longest(lengths, n),
        n == 0 || exists|i: int| 0 <= i < n && #[trigger] lengths[i] == longest(lengths, n),
        longest(lengths, n) >= 0,
    decreases n,
{
    if n > 0 {
        lemma_longest(lengths, (n - 1) as nat);
        if lengths[n - 1] > longest(lengths, (n - 1) as nat) {
            assert(lengths[n - 1] == longest(lengths, n));
        } else if n == 1 {
            assert(lengths[0] == longest(lengths, n));
        }
    }
}

/// Codes of one length tell their symbols apart.
proof fn lemma_code_unique(lengths: Seq<u8>, a: int, b: int, length: nat, code: int)
    requires
        has_code(lengths, a, length, code),
        has_code(lengths, b, length, code),
    ensures
        a == b,
{
    if a != b {
        let low = if a < b {
            a
        } else {
            b
        };
        let up = if a < b {
            b
        } else {
            a
        };
        lemma_symbols_monotonic(lengths, (low + 1) as nat, up as nat, length as int);
        assert(symbols_of_length(lengths, (low + 1) as nat, length as int) == symbols_of_length(
            lengths,
            low as nat,
            length as int,
        ) + 1);
    }
}

/// The number that the first bits of a longer number stand for.
proof fn lemma_bits_at_prefix(data: Seq<u8>, p: int, l: nat, d: nat)
    ensures
        bits_at(data, p, l + d) / (pow2(d) as int) == bits_at(data, p, l),
    decreases d,
{
    lemma_pow2_pos(d);
    lemma_bits_at_bound(data, p, l + d);
    if d == 0 {
        lemma2_to64();
    } else {
        let k = (d - 1) as nat;
        lemma_bits_at_prefix(data, p, l, k);
        lemma_pow2_step(k);
        let v = bits_at(data, p, l + d);
        assert(v / 2 == bits_at(data, p, l + k));
        vstd::arithmetic::div_mod::lemma_div_denominator(v, 2, pow2(k) as int);
    }
}

/// A symbol that was written is read back.
proof fn lemma_symbol_from(
    lengths: Seq<u8>,
    data: Seq<u8>,
    p: int,
    symbol: int,
    length: nat,
)
    requires
        tree_fault(lengths) is None,
        0 <= symbol < lengths.len(),
        1 <= length <= lengths[symbol],
        p + lengths[symbol] <= 8 * data.len(),
        bits_at(data, p, lengths[symbol] as nat) == code_of(lengths, symbol),
    ensures
        symbol_from(lengths, data, p, length) == Ok::<(int, int), Fault>(
            (symbol, p + lengths[symbol]),
        ),
    decreases lengths[symbol] - length,
{
    let full = lengths[symbol] as nat;
    lemma_longest(lengths, lengths.len());
    let code = bits_at(data, p, length);
    if length == full {
        assert(has_code(lengths, symbol, length, code));
        let found = choose|s: int| has_code(lengths, s, length, code);
        lemma_code_unique(lengths, symbol, found, length, code);
    } else {
        let d = (full - length) as nat;
        lemma_bits_at_prefix(data, p, length, d);
        lemma_first_code_grows(lengths, length, full);
        lemma_pow2_pos(d);
        let base = first_code(lengths, length) + code_count(lengths, length);
        let f = pow2(d) as int;
        let whole = code_of(lengths, symbol);
        assert(code >= base) by (nonlinear_arith)
            requires
                code == whole / f,
                f > 0,
                base * f <= whole,
        ;
        assert forall|s: int| !has_code(lengths, s, length, code) by {
            if has_code(lengths, s, length, code) {
                assert(codes_fit(lengths, length));
                lemma_code_bound(lengths, s);
            }
        }
        lemma_symbol_from(lengths, data, p, symbol, length + 1);
    }
}

/// A symbol that was written is read back.
pub proof fn lemma_symbol_read_back(lengths: Seq<u8>, data: Seq<u8>, p: int, symbol: int)
    requires
        tree_fault(lengths) is None,
        0 <= symbol < lengths.len(),
        holds(data, p, symbol_bits(lengths, symbol)),
    ensures
        symbol_at(lengths, data, p) == Ok::<(int, int), Fault>(
            (symbol, p + symbol_bits(lengths, symbol).len()),
        ),
        symbol_bits(lengths, symbol).len() == lengths[symbol],
{
    let l = lengths[symbol] as nat;
    assert(codes_fit(lengths, l));
    lemma_code_bound(lengths, symbol);
    lemma_holds_number(data, p, code_of(lengths, symbol), l);
    lemma_symbol_from(lengths, data, p, symbol, 1);
}

/// Code lengths that are all alike, but for one bit less for the first symbols.
pub open spec fn balanced_lengths(count: int, bits: int) -> Seq<u8> {
    Seq::new(
        count as nat,
        |i: int|
            if i < pow2(bits as nat) - count {
                (bits - 1) as u8
            } else {
                bits as u8
            },
    )
}

/// The number of bits that tell `count` symbols apart.
pub open spec fn bits_for(count: int, bits: int) -> bool {
    bits >= 1 && pow2((bits - 1) as nat) < count <= pow2(bits as nat)
}

proof fn lemma_balanced_count(count: int, bits: int, n: nat, length: int)
    requires
        2 <= bits <= 9,
        bits_for(count, bits),
        n <= count,
    ensures
        ({
            let short = pow2(bits as nat) - count;
            symbols_of_length(balanced_lengths(count, bits), n, length) == (if length == bits - 1 {
                if n <= short {
                    n as int
                } else {
                    short
                }
            } else if length == bits {
                if n <= short {
                    0
                } else {
                    n - short
                }
            } else {
                0
            })
        }),
    decreases n,
{
    lemma_pow2_step((bits - 1) as nat);
    if n > 0 {
        lemma_balanced_count(count, bits, (n - 1) as nat, length);
    }
}

proof fn lemma_balanced_first(count: int, bits: int, l: nat)
    requires
        2 <= bits <= 9,
        bits_for(count, bits),
    ensures
        ({
            let short = pow2(bits as nat) - count;
            first_code(balanced_lengths(count, bits), l) == (if l < bits {
                0
            } else if l == bits {
                2 * short
            } else {
                pow2(l) as int
            })
        }),
    decreases l,
{
    lemma_pow2_step((bits - 1) as nat);
    if l > 0 {
        let k = (l - 1) as nat;
        lemma_balanced_first(count, bits, k);
        lemma_balanced_count(count, bits, count as nat, k as int);
        lemma_pow2_step(k);
    }
}

/// Balanced code lengths describe a code.
pub proof fn lemma_balanced_valid(count: int, bits: int)
    requires
        2 <= bits <= 9,
        bits_for(count, bits),
    ensures
        tree_fault(balanced_lengths(count, bits)) is None,
        balanced_lengths(count, bits).len() == count,
{
    let lengths = balanced_lengths(count, bits);
    lemma_pow2_step((bits - 1) as nat);
    assert forall|l: nat| 1 <= l <= 20 implies #[trigger] codes_fit(lengths, l) by {
        lemma_balanced_first(count, bits, l);
        lemma_balanced_count(count, bits, count as nat, l as int);
        lemma_pow2_monotonic(1, l);
        lemma2_to64();
        if l == bits - 1 {
            assert(pow2(bits as nat) - count <= pow2(l));
        }
    }
}

/// The number of bits that tell two counts apart is determined.
pub proof fn lemma_bits_for_unique(count: int, a: int, b: int)
    requires
        bits_for(count, a),
        bits_for(count, b),
    ensures
        a == b,
{
    if a < b {
        lemma_pow2_monotonic(a as nat, (b - 1) as nat);
    } else if b < a {
        lemma_pow2_monotonic(b as nat, (a - 1) as nat);
    }
}

/// Balanced code lengths for `symbol_count` symbols.
pub fn balanced_code_lengths(symbol_count: usize) -> (result: (Vec<u8>, Ghost<int>))
    requires
        3 <= symbol_count <= 258,
    ensures
        2 <= result.1@ <= 9,
        bits_for(symbol_count as int, result.1@),
        result.0@ == balanced_lengths(symbol_count as int, result.1@),
{
    let mut bits: usize = 2;
    let mut size: usize = 4;
    proof {
        lemma2_to64();
    }
    while size < symbol_count
        invariant
            2 <= bits <= 9,
            size == pow2(bits as nat),
            pow2((bits - 1) as nat) < symbol_count,
            symbol_count <= 258,
            size <= 512,
        decreases 512 - size,
    {
        proof {
            lemma2_to64();
            lemma_pow2_step(bits as nat);
            if bits == 9 {
                assert(pow2(9) == 512);
            }
        }
        bits += 1;
        size = size * 2;
    }
    let short: usize = size - symbol_count;
    let mut lengths: Vec<u8> = Vec::with_capacity(symbol_count);
    let mut i: usize = 0;
    while i < symbol_count
        invariant
            i <= symbol_count,
            2 <= bits <= 9,
            short == pow2(bits as nat) - symbol_count,
            lengths@.len() == i,
            forall|k: int|
                0 <= k < i ==> #[trigger] lengths@[k] == balanced_lengths(
                    symbol_count as int,
                    bits as int,
                )[k],
        decreases symbol_count - i,
    {
        lengths.push(
            if i < short {
                (bits - 1) as u8
            } else {
                bits as u8
            },
        );
        i += 1;
    }
    assert(lengths@ =~= balanced_lengths(symbol_count as int, bits as int));
    (lengths, Ghost(bits as int))
}

/// The first code of each length, if the lengths describe a code.
fn first_codes(lengths: &Vec<u8>) -> (result: Result<Vec<u32>, Fault>)
    ensures
        match result {
            Ok(first) => tree_fault(lengths@) is None && first@.len() == 21 && forall|l: nat|
                l <= 20 ==> #[trigger] first@[l as int] == first_code(lengths@, l),
            Err(fault) => tree_fault(lengths@) == Some(fault),
        },
{
    let mut counts: Vec<u64> = vec![0; 21];
    let mut i: usize = 0;
    while i < lengths.len()
        invariant
            i <= lengths@.len(),
            counts@.len() == 21,
            counts@[0] == 0,
            forall|k: int| 0 <= k < i ==> 1 <= #[trigger] lengths@[k] <= 20,
            forall|l: int|
                1 <= l < 21 ==> #[trigger] counts@[l] == symbols_of_length(lengths@, i as nat, l),
        decreases lengths.len() - i,
    {
        let length: usize = lengths[i] as usize;
        if length == 0 || length > MAX_CODE_LENGTH {
            assert(!lengths_valid(lengths@)) by {
                assert(lengths@[i as int] == length);
            }
            return Err(Fault::HuffmanLength);
        }
        proof {
            lemma_symbols_monotonic(lengths@, 0, i as nat, length as int);
        }
        counts.set(length, counts[length] + 1);
        i += 1;
    }
    let mut first: Vec<u32> = vec![0; 21];
    let mut left: i64 = 1;
    let mut code: u32 = 0;
    let mut bits: usize = 1;
    proof {
        lemma2_to64();
    }
    while bits <= MAX_CODE_LENGTH
        invariant
            1 <= bits <= 21,
            lengths_valid(lengths@),
            counts@.len() == 21,
            first@.len() == 21,
            forall|l: nat| l < 21 ==> #[trigger] counts@[l as int] == code_count(lengths@, l),
            left == pow2((bits - 1) as nat) - first_code(lengths@, (bits - 1) as nat) - code_count(
                lengths@,
                (bits - 1) as nat,
            ),
            0 <= left <= pow2((bits - 1) as nat),
            code == first_code(lengths@, (bits - 1) as nat),
            forall|l: nat| 1 <= l < bits ==> #[trigger] codes_fit(lengths@, l),
            forall|l: nat| l < bits ==> #[trigger] first@[l as int] == first_code(lengths@, l),
        decreases 21 - bits,
    {
        proof {
            lemma_pow2_step((bits - 1) as nat);
            lemma_pow2_monotonic((bits - 1) as nat, 19);
            lemma2_to64();
            assert(counts@[(bits - 1) as nat as int] == code_count(lengths@, (bits - 1) as nat));
            assert(counts@[bits as nat as int] == code_count(lengths@, bits as nat));
            assert(first_code(lengths@, bits as nat) == 2 * (first_code(
                lengths@,
                (bits - 1) as nat,
            ) + code_count(lengths@, (bits - 1) as nat)));
            lemma_symbols_monotonic(lengths@, 0, lengths@.len(), bits as int);
        }
        if counts[bits] > (left * 2) as u64 {
            assert(!codes_fit(lengths@, bits as nat));
            return Err(Fault::OversubscribedTree);
        }
        left = left * 2 - counts[bits] as i64;
        code = (code + counts[bits - 1] as u32) * 2;
        first.set(bits, code);
        assert(codes_fit(lengths@, bits as nat));
        bits += 1;
    }
    Ok(first)
}

/// The canonical codes for the given code lengths.
pub fn canonical_codes(lengths: &Vec<u8>) -> (codes: Result<Vec<u32>, Fault>)
    ensures
        match codes {
            Ok(codes) => tree_fault(lengths@) is None && codes@.len() == lengths@.len()
                && forall|s: int|
                0 <= s < lengths@.len() ==> #[trigger] codes@[s] == code_of(lengths@, s),
            Err(fault) => tree_fault(lengths@) == Some(fault),
        },
{
    let mut next = match first_codes(lengths) {
        Ok(first) => first,
        Err(fault) => return Err(fault),
    };
    let mut codes: Vec<u32> = vec![0; lengths.len()];
    let mut symbol: usize = 0;
    while symbol < lengths.len()
        invariant
            symbol <= lengths@.len(),
            tree_fault(lengths@) is None,
            next@.len() == 21,
            codes@.len() == lengths@.len(),
            forall|l: nat|
                1 <= l < 21 ==> #[trigger] next@[l as int] == first_code(lengths@, l)
                    + symbols_of_length(lengths@, symbol as nat, l as int),
            forall|s: int| 0 <= s < symbol ==> #[trigger] codes@[s] == code_of(lengths@, s),
        decreases lengths.len() - symbol,
    {
        let length: usize = lengths[symbol] as usize;
        proof {
            assert(codes_fit(lengths@, length as nat));
            lemma_code_bound(lengths@, symbol as int);
            lemma_pow2_monotonic(length as nat, 20);
            lemma2_to64();
            assert(next@[length as nat as int] == code_of(lengths@, symbol as int));
        }
        codes.set(symbol, next[length]);
        next.set(length, next[length] + 1);
        symbol += 1;
    }
    Ok(codes)
}

/// The symbols of one code length in order.
pub open spec fn row_fits(lengths: Seq<u8>, row: Seq<u16>, length: int, n: nat) -> bool {
    &&& row.len() == symbols_of_length(lengths, n, length)
    &&& forall|r: int|
        0 <= r < row.len() ==> (#[trigger] row[r]) < n && lengths[row[r] as int] as int == length
            && symbols_of_length(lengths, row[r] as nat, length) == r
}

/// A decoder for one set of code lengths.
pub struct Huffman {
    by_length: Vec<Vec<u16>>,
    first: Vec<u32>,
    max_length: usize,
    lengths: Ghost<Seq<u8>>,
}

impl Huffman {
    pub closed spec fn lengths(&self) -> Seq<u8> {
        self.lengths@
    }

    pub closed spec fn wf(&self) -> bool {
        &&& tree_fault(self.lengths@) is None
        &&& 0 < self.lengths@.len() <= 0xffff
        &&& self.max_length == longest(self.lengths@, self.lengths@.len())
        &&& self.max_length <= 20
        &&& self.first@.len() == 21
        &&& self.by_length@.len() == 21
        &&& forall|l: nat|
            l <= 20 ==> #[trigger] self.first@[l as int] == first_code(self.lengths@, l)
        &&& forall|l: int|
            1 <= l <= 20 ==> row_fits(
                self.lengths@,
                (#[trigger] self.by_length@[l])@,
                l,
                self.lengths@.len(),
            )
    }

    pub proof fn lemma_valid(&self)
        requires
            self.wf(),
        ensures
            tree_fault(self.lengths()) is None,
            0 < self.lengths().len() <= 0xffff,
    {
    }

    pub fn new(lengths: &Vec<u8>) -> (tree: Result<Self, Fault>)
        requires
            0 < lengths@.len() <= 0xffff,
        ensures
            match tree {
                Ok(tree) => tree.wf() && tree.lengths() == lengths@ && tree_fault(lengths@) is None,
                Err(fault) => tree_fault(lengths@) == Some(fault),
            },
    {
        let first = match first_codes(lengths) {
            Ok(first) => first,
            Err(fault) => return Err(fault),
        };
        let mut by_length: Vec<Vec<u16>> = Vec::with_capacity(21);
        let mut l: usize = 0;
        while l < 21
            invariant
                l <= 21,
                by_length@.len() == l,
                forall|k: int| 0 <= k < l ==> (#[trigger] by_length@[k])@.len() == 0,
            decreases 21 - l,
        {
            by_length.push(Vec::new());
            l += 1;
        }
        let mut max_length: usize = 0;
        let mut symbol: usize = 0;
        while symbol < lengths.len()
            invariant
                symbol <= lengths@.len() <= 0xffff,
                tree_fault(lengths@) is None,
                by_length@.len() == 21,
                max_length == longest(lengths@, symbol as nat),
                max_length <= 20,
                forall|l: int|
                    1 <= l <= 20 ==> row_fits(
                        lengths@,
                        (#[trigger] by_length@[l])@,
                        l,
                        symbol as nat,
                    ),
            decreases lengths.len() - symbol,
        {
            let length: usize = lengths[symbol] as usize;
            if length > max_length {
                max_length = length;
            }
            let ghost before = by_length@;
            by_length[length].push(symbol as u16);
            assert forall|l: int| 1 <= l <= 20 implies row_fits(
                lengths@,
                (#[trigger] by_length@[l])@,
                l,
                (symbol + 1) as nat,
            ) by {
                assert(row_fits(lengths@, before[l]@, l, symbol as nat));
                if l != length {
                    assert(by_length@[l] == before[l]);
                } else {
                    assert(by_length@[l]@ == before[l]@.push(symbol as u16));
                }
            }
            symbol += 1;
        }
        Ok(Huffman { by_length, first, max_length, lengths: Ghost(lengths@) })
    }

    /// Reads the next symbol.
    pub fn decode(&self, reader: &mut BitReader<'_>) -> (symbol: Result<u16, Fault>)
        requires
            self.wf(),
            old(reader).wf(),
        ensures
            final(reader).wf(),
            final(reader).data() == old(reader).data(),
            match symbol_at(self.lengths(), old(reader).data(), old(reader).at()) {
                Ok((s, q)) => symbol == Ok::<u16, Fault>(s as u16) && 0 <= s
                    < self.lengths().len() && final(reader).at() == q && q > old(reader).at(),
                Err(fault) => symbol == Err::<u16, Fault>(fault),
            },
    {
        let ghost data = reader.data();
        let ghost p = reader.at();
        let ghost lengths = self.lengths@;
        let mut code: u32 = 0;
        let mut length: usize = 1;
        proof {
            reader.lemma_at_in_range();
        }
        while length <= self.max_length
            invariant
                self.wf(),
                lengths == self.lengths@,
                reader.wf(),
                reader.data() == data,
                old(reader).data() == data,
                old(reader).at() == p,
                1 <= length <= 21,
                reader.at() == p + length - 1,
                code == bits_at(data, p, (length - 1) as nat),
                symbol_at(lengths, data, p) == symbol_from(lengths, data, p, length as nat),
            decreases 22 - length,
        {
            proof {
                lemma_bits_at_bound(data, p, (length - 1) as nat);
                lemma_pow2_monotonic((length - 1) as nat, 20);
                lemma2_to64();
            }
            let bit: u32 = match reader.read_bit() {
                Some(bit) => if bit {
                    1
                } else {
                    0
                },
                None => return Err(Fault::TruncatedStream),
            };
            code = code * 2 + bit;
            let start: u32 = self.first[length];
            proof {
                assert(code == bits_at(data, p, length as nat));
                assert(self.first@[length as nat as int] == first_code(lengths, length as nat));
                assert(row_fits(
                    lengths,
                    self.by_length@[length as int]@,
                    length as int,
                    lengths.len(),
                ));
            }
            if code >= start && ((code - start) as usize) < self.by_length[length].len() {
                let symbol: u16 = self.by_length[length][(code - start) as usize];
                proof {
                    assert(has_code(lengths, symbol as int, length as nat, code as int));
                    let found = choose|s: int| has_code(lengths, s, length as nat, code as int);
                    lemma_code_unique(
                        lengths,
                        symbol as int,
                        found,
                        length as nat,
                        code as int,
                    );
                }
                return Ok(symbol);
            }
            assert forall|s: int| !has_code(lengths, s, length as nat, code as int) by {
                if has_code(lengths, s, length as nat, code as int) {
                    assert(codes_fit(lengths, length as nat));
                    lemma_code_bound(lengths, s);
                }
            }
            length += 1;
        }
        Err(Fault::InvalidCode)
    }
}

} // verus!
