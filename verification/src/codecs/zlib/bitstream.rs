//! Bit streams whose bytes are filled from the least significant bit up.

use vstd::arithmetic::power2::{lemma2_to64, lemma_pow2_adds, lemma_pow2_pos, pow2};
use vstd::prelude::*;

use crate::math::{
    lemma_digit_bound, lemma_pow2_monotonic, lemma_pow2_step, lemma_split_at, power_of_two,
};

verus! {

/// Bit `p` of the stream `data`; positions outside the stream read as zero.
pub open spec fn bit_at(data: Seq<u8>, p: int) -> int {
    if 0 <= p < 8 * data.len() {
        (data[p / 8] as int / pow2((p % 8) as nat) as int) % 2
    } else {
        0
    }
}

/// The `n` bits from position `p` on as a number, first bit least significant.
pub open spec fn bits_at(data: Seq<u8>, p: int, n: nat) -> int
    decreases n,
{
    if n == 0 {
        0
    } else {
        bit_at(data, p) + 2 * bits_at(data, p + 1, (n - 1) as nat)
    }
}

pub proof fn lemma_bits_at_bound(data: Seq<u8>, p: int, n: nat)
    ensures
        0 <= bits_at(data, p, n) < pow2(n),
    decreases n,
{
    lemma_pow2_pos(n);
    if n > 0 {
        lemma_bits_at_bound(data, p + 1, (n - 1) as nat);
        lemma_pow2_step((n - 1) as nat);
    } else {
        lemma2_to64();
    }
}

/// Reading `a + b` bits at once is reading `a` bits and then `b` bits.
pub proof fn lemma_bits_at_split(data: Seq<u8>, p: int, a: nat, b: nat)
    ensures
        bits_at(data, p, a + b) == bits_at(data, p, a) + pow2(a) * bits_at(data, p + a, b),
    decreases a,
{
    if a == 0 {
        lemma2_to64();
    } else {
        lemma_bits_at_split(data, p + 1, (a - 1) as nat, b);
        lemma_pow2_step((a - 1) as nat);
        let rest = bits_at(data, p + a, b);
        assert(p + 1 + (a - 1) as nat == p + a);
        assert(pow2(a) * rest == 2 * (pow2((a - 1) as nat) * rest)) by (nonlinear_arith)
            requires
                pow2(a) == 2 * pow2((a - 1) as nat),
        ;
    }
}

/// The first `a` of `a + b` bits are the remainder modulo `2^a`, the rest the quotient.
pub proof fn lemma_bits_at_divide(data: Seq<u8>, p: int, a: nat, b: nat)
    ensures
        bits_at(data, p, a + b) % (pow2(a) as int) == bits_at(data, p, a),
        bits_at(data, p, a + b) / (pow2(a) as int) == bits_at(data, p + a, b),
{
    lemma_bits_at_split(data, p, a, b);
    lemma_bits_at_bound(data, p, a);
    lemma_split_at(bits_at(data, p, a), bits_at(data, p + a, b), pow2(a) as int);
}

/// The last `8 - i` bits of byte `k` are that byte without its `i` lowest bits.
proof fn lemma_bits_at_byte_tail(data: Seq<u8>, k: int, i: nat)
    requires
        0 <= k < data.len(),
        i <= 8,
    ensures
        bits_at(data, 8 * k + i, (8 - i) as nat) == data[k] as int / (pow2(i) as int),
    decreases 8 - i,
{
    let d = data[k] as int;
    if i == 8 {
        lemma2_to64();
        assert(bits_at(data, 8 * k + i, 0) == 0);
    } else {
        lemma_bits_at_byte_tail(data, k, i + 1);
        lemma_pow2_step(i);
        vstd::arithmetic::div_mod::lemma_div_denominator(d, pow2(i) as int, 2);
        assert((8 * k + i) / 8 == k && (8 * k + i) % 8 == i);
        assert(pow2(i) * 2 == pow2(i + 1));
        let rest = (7 - i) as nat;
        assert(bits_at(data, 8 * k + i, (8 - i) as nat) == bit_at(data, 8 * k + i) + 2 * bits_at(
            data,
            8 * k + i + 1,
            rest,
        ));
    }
}

/// Eight bits from a byte boundary are that byte.
pub proof fn lemma_bits_at_byte(data: Seq<u8>, k: int)
    requires
        0 <= k < data.len(),
    ensures
        bits_at(data, 8 * k, 8) == data[k],
{
    lemma_bits_at_byte_tail(data, k, 0);
    lemma2_to64();
    assert(data[k] as int / 1 == data[k]);
}

/// Past the end of the stream only zeros are read.
pub proof fn lemma_bits_at_end(data: Seq<u8>, p: int, n: nat)
    requires
        p >= 8 * data.len(),
    ensures
        bits_at(data, p, n) == 0,
    decreases n,
{
    if n > 0 {
        lemma_bits_at_end(data, p + 1, (n - 1) as nat);
    }
}

/// A reader that hands out the bits of `input` in order.
pub struct BitReader<'a> {
    input: &'a [u8],
    position: usize,
    bits: u64,
    bit_count: usize,
}

impl<'a> BitReader<'a> {
    /// The bytes being read.
    pub closed spec fn data(&self) -> Seq<u8> {
        self.input@
    }

    /// The number of bits already handed out.
    pub closed spec fn at(&self) -> int {
        8 * self.position - self.bit_count
    }

    /// The buffered bits are the next ones of the input.
    pub closed spec fn wf(&self) -> bool {
        &&& self.position <= self.input@.len()
        &&& self.bit_count <= 56
        &&& self.bit_count <= 8 * self.position
        &&& self.bits == bits_at(self.input@, self.at(), self.bit_count as nat)
    }

    pub proof fn lemma_at_in_range(&self)
        requires
            self.wf(),
        ensures
            0 <= self.at() <= 8 * self.data().len(),
    {
    }

    pub fn new(input: &'a [u8]) -> (reader: Self)
        ensures
            reader.wf(),
            reader.data() == input@,
            reader.at() == 0,
    {
        BitReader { input, position: 0, bits: 0, bit_count: 0 }
    }

    fn fill(&mut self, count: usize)
        requires
            old(self).wf(),
            count <= 48,
        ensures
            final(self).wf(),
            final(self).data() == old(self).data(),
            final(self).at() == old(self).at(),
            final(self).bit_count >= count || final(self).position == final(self).input@.len(),
            final(self).bit_count >= old(self).bit_count,
    {
        while self.bit_count < count && self.position < self.input.len()
            invariant
                self.wf(),
                count <= 48,
                self.input == old(self).input,
                self.at() == old(self).at(),
                self.bit_count >= old(self).bit_count,
            decreases self.input.len() - self.position,
        {
            let byte: u64 = self.input[self.position] as u64;
            let weight: u64 = power_of_two(self.bit_count);
            proof {
                let c = self.bit_count as nat;
                let p = self.at();
                assert(p + c == 8 * self.position);
                lemma_bits_at_split(self.input@, p, c, 8);
                lemma_bits_at_byte(self.input@, self.position as int);
                lemma_bits_at_bound(self.input@, p, c);
                lemma_pow2_adds(c, 8);
                lemma2_to64();
                lemma_digit_bound(self.bits as int, pow2(c) as int, byte as int, 256);
                lemma_pow2_monotonic(c + 8, 56);
                assert(pow2(56) == 0x100000000000000) by {
                    vstd::arithmetic::power2::lemma2_to64_rest();
                }
                assert(byte * weight == weight * byte) by (nonlinear_arith);
                assert(0 <= weight * byte) by (nonlinear_arith);
            }
            self.bits = self.bits + byte * weight;
            self.bit_count = self.bit_count + 8;
            self.position = self.position + 1;
        }
    }

    /// Whether at least `count` bits are left.
    fn has_bits(&self, count: usize) -> (enough: bool)
        requires
            self.wf(),
            count <= 56,
        ensures
            enough == (self.at() + count <= 8 * self.data().len()),
    {
        if self.bit_count >= count {
            true
        } else {
            let missing: usize = count - self.bit_count;
            (self.input.len() - self.position) >= (missing + 7) / 8
        }
    }

    /// The next `count` bits without consuming them, padded with zeros at the end of the
    /// stream; `None` if no bit is left.
    pub fn peek_padded(&mut self, count: usize) -> (value: Option<u64>)
        requires
            old(self).wf(),
            1 <= count <= 48,
        ensures
            final(self).wf(),
            final(self).data() == old(self).data(),
            final(self).at() == old(self).at(),
            value is None <==> old(self).at() >= 8 * old(self).data().len(),
            value matches Some(bits) ==> bits == bits_at(
                old(self).data(),
                old(self).at(),
                count as nat,
            ),
    {
        self.fill(count);
        if self.bit_count == 0 {
            return None;
        }
        let weight: u64 = power_of_two(count);
        proof {
            lemma_pow2_pos(count as nat);
            let p = self.at();
            let c = self.bit_count as nat;
            if self.bit_count >= count {
                lemma_bits_at_divide(self.input@, p, count as nat, (c - count) as nat);
            } else {
                let gap = (count - c) as nat;
                lemma_bits_at_split(self.input@, p, c, gap);
                lemma_bits_at_end(self.input@, p + c, gap);
                assert(pow2(c) * 0 == 0) by (nonlinear_arith);
                lemma_bits_at_bound(self.input@, p, count as nat);
                vstd::arithmetic::div_mod::lemma_small_mod(self.bits as nat, pow2(count as nat));
            }
        }
        Some(self.bits % weight)
    }

    /// Discards the first `count` buffered bits.
    fn consume(&mut self, count: usize)
        requires
            old(self).wf(),
            count <= old(self).bit_count,
        ensures
            final(self).wf(),
            final(self).data() == old(self).data(),
            final(self).at() == old(self).at() + count,
    {
        let weight: u64 = power_of_two(count);
        proof {
            lemma_pow2_pos(count as nat);
            lemma_bits_at_divide(
                self.input@,
                self.at(),
                count as nat,
                (self.bit_count - count) as nat,
            );
        }
        self.bits = self.bits / weight;
        self.bit_count = self.bit_count - count;
    }

    /// The next `count` bits, or `None` (and nothing consumed) if fewer are left.
    pub fn read_bits(&mut self, count: usize) -> (value: Option<u64>)
        requires
            old(self).wf(),
            count <= 48,
        ensures
            final(self).wf(),
            final(self).data() == old(self).data(),
            value is Some <==> old(self).at() + count <= 8 * old(self).data().len(),
            value matches Some(bits) ==> bits == bits_at(
                old(self).data(),
                old(self).at(),
                count as nat,
            ) && final(self).at() == old(self).at() + count,
            value is None ==> final(self).at() == old(self).at(),
    {
        if count == 0 {
            return Some(0);
        }
        self.fill(count);
        if self.bit_count < count {
            return None;
        }
        let weight: u64 = power_of_two(count);
        proof {
            lemma_pow2_pos(count as nat);
            lemma_bits_at_divide(
                self.input@,
                self.at(),
                count as nat,
                (self.bit_count - count) as nat,
            );
        }
        let value: u64 = self.bits % weight;
        self.consume(count);
        Some(value)
    }

    /// Skips `count` bits; reports whether that many were left.
    pub fn drop_bits(&mut self, count: usize) -> (done: bool)
        requires
            old(self).wf(),
            count <= 48,
        ensures
            final(self).wf(),
            final(self).data() == old(self).data(),
            done == (old(self).at() + count <= 8 * old(self).data().len()),
            done ==> final(self).at() == old(self).at() + count,
            !done ==> final(self).at() == old(self).at(),
    {
        if !self.has_bits(count) {
            return false;
        }
        self.fill(count);
        self.consume(count);
        true
    }

    /// Skips to the next byte boundary.
    pub fn align_to_byte(&mut self)
        requires
            old(self).wf(),
        ensures
            final(self).wf(),
            final(self).data() == old(self).data(),
            final(self).at() == (old(self).at() + 7) / 8 * 8,
    {
        let remainder: usize = self.bit_count % 8;
        self.consume(remainder);
    }
}

/// The number that a string of bits stands for, first bit least significant.
pub open spec fn bits_value(bits: Seq<bool>) -> int
    decreases bits.len(),
{
    if bits.len() == 0 {
        0
    } else {
        (if bits[0] { 1int } else { 0 }) + 2 * bits_value(bits.drop_first())
    }
}

/// The `n` lowest bits of `value`, least significant first.
pub open spec fn low_bits(value: int, n: nat) -> Seq<bool>
    decreases n,
{
    if n == 0 {
        Seq::empty()
    } else {
        seq![value % 2 == 1] + low_bits(value / 2, (n - 1) as nat)
    }
}

/// The bytes that hold `bits`, the last one padded with zeros.
pub open spec fn pack(bits: Seq<bool>) -> Seq<u8>
    decreases bits.len(),
{
    if bits.len() == 0 {
        Seq::empty()
    } else if bits.len() <= 8 {
        seq![bits_value(bits) as u8]
    } else {
        seq![bits_value(bits.take(8)) as u8] + pack(bits.skip(8))
    }
}

pub proof fn lemma_low_bits(value: int, n: nat)
    requires
        0 <= value < pow2(n),
    ensures
        low_bits(value, n).len() == n,
        bits_value(low_bits(value, n)) == value,
    decreases n,
{
    if n == 0 {
        lemma2_to64();
    } else {
        lemma_pow2_step((n - 1) as nat);
        lemma_low_bits(value / 2, (n - 1) as nat);
        assert(low_bits(value, n).drop_first() =~= low_bits(value / 2, (n - 1) as nat));
    }
}

pub proof fn lemma_low_bits_len(value: int, n: nat)
    ensures
        low_bits(value, n).len() == n,
    decreases n,
{
    if n > 0 {
        lemma_low_bits_len(value / 2, (n - 1) as nat);
    }
}

pub proof fn lemma_bits_value_bound(bits: Seq<bool>)
    ensures
        0 <= bits_value(bits) < pow2(bits.len()),
    decreases bits.len(),
{
    lemma_pow2_pos(bits.len());
    if bits.len() > 0 {
        lemma_bits_value_bound(bits.drop_first());
        lemma_pow2_step((bits.len() - 1) as nat);
    }
}

pub proof fn lemma_bits_value_append(a: Seq<bool>, b: Seq<bool>)
    ensures
        bits_value(a + b) == bits_value(a) + pow2(a.len()) * bits_value(b),
    decreases a.len(),
{
    if a.len() == 0 {
        lemma2_to64();
        assert(a + b =~= b);
    } else {
        lemma_bits_value_append(a.drop_first(), b);
        assert((a + b).drop_first() =~= a.drop_first() + b);
        lemma_pow2_step((a.len() - 1) as nat);
        let v = bits_value(b);
        let h = pow2((a.len() - 1) as nat);
        assert((2 * h) * v == 2 * (h * v)) by (nonlinear_arith);
    }
}

/// Whole bytes at the front of a bit string are packed on their own.
pub proof fn lemma_pack_front(a: Seq<bool>, b: Seq<bool>)
    requires
        a.len() % 8 == 0,
    ensures
        pack(a + b) == pack(a) + pack(b),
    decreases a.len(),
{
    if a.len() == 0 {
        assert(a + b =~= b);
        assert(pack(a) + pack(b) =~= pack(b));
    } else {
        lemma_pack_front(a.skip(8), b);
        assert((a + b).take(8) =~= a.take(8));
        assert((a + b).skip(8) =~= a.skip(8) + b);
        if a.len() == 8 {
            assert(a.take(8) =~= a);
            assert(a.skip(8).len() == 0);
            assert(pack(a.skip(8)) =~= Seq::<u8>::empty());
            if b.len() == 0 {
                assert(a + b =~= a);
                assert(pack(a) + pack(b) =~= pack(a));
            } else {
                assert(a.skip(8) + b =~= b);
                assert(pack(a + b) =~= pack(a) + pack(b));
            }
        } else {
            assert(pack(a) =~= seq![bits_value(a.take(8)) as u8] + pack(a.skip(8)));
            assert(pack(a + b) =~= pack(a) + pack(b));
        }
    }
}

pub proof fn lemma_pack_len(bits: Seq<bool>)
    ensures
        pack(bits).len() == (bits.len() + 7) / 8,
    decreases bits.len(),
{
    if bits.len() > 8 {
        lemma_pack_len(bits.skip(8));
    }
}

/// The bits of `bits` stand in `data` from position `p` on.
pub open spec fn holds(data: Seq<u8>, p: int, bits: Seq<bool>) -> bool {
    &&& 0 <= p
    &&& p + bits.len() <= 8 * data.len()
    &&& forall|i: int|
        0 <= i < bits.len() ==> #[trigger] bit_at(data, p + i) == (if bits[i] {
            1int
        } else {
            0
        })
}

/// Reading what stands in a stream gives its value.
pub proof fn lemma_holds_value(data: Seq<u8>, p: int, bits: Seq<bool>)
    requires
        holds(data, p, bits),
    ensures
        bits_at(data, p, bits.len()) == bits_value(bits),
    decreases bits.len(),
{
    if bits.len() > 0 {
        assert(bit_at(data, p + 0) == (if bits[0] { 1int } else { 0 }));
        assert forall|i: int| 0 <= i < bits.drop_first().len() implies #[trigger] bit_at(
            data,
            p + 1 + i,
        ) == (if bits.drop_first()[i] { 1int } else { 0 }) by {
            assert(bit_at(data, p + (i + 1)) == (if bits[i + 1] { 1int } else { 0 }));
        }
        lemma_holds_value(data, p + 1, bits.drop_first());
    }
}

pub proof fn lemma_holds_split(data: Seq<u8>, p: int, a: Seq<bool>, b: Seq<bool>)
    requires
        holds(data, p, a + b),
    ensures
        holds(data, p, a),
        holds(data, p + a.len(), b),
{
    assert forall|i: int| 0 <= i < a.len() implies #[trigger] bit_at(data, p + i) == (if a[i] {
        1int
    } else {
        0
    }) by {
        assert((a + b)[i] == a[i]);
    }
    assert forall|i: int| 0 <= i < b.len() implies #[trigger] bit_at(data, p + a.len() + i) == (
    if b[i] {
        1int
    } else {
        0
    }) by {
        assert((a + b)[a.len() + i] == b[i]);
        assert(bit_at(data, p + (a.len() + i)) == (if (a + b)[a.len() + i] { 1int } else { 0 }));
    }
}

/// A number written with `n` bits is read back from them.
pub proof fn lemma_holds_number(data: Seq<u8>, p: int, value: int, n: nat)
    requires
        0 <= value < pow2(n),
        holds(data, p, low_bits(value, n)),
    ensures
        p + n <= 8 * data.len(),
        bits_at(data, p, n) == value,
{
    lemma_low_bits(value, n);
    lemma_holds_value(data, p, low_bits(value, n));
}

/// The value of a bit string is odd exactly if its first bit is set, and so on upward.
proof fn lemma_bits_value_digit(bits: Seq<bool>, i: int)
    requires
        0 <= i < bits.len(),
    ensures
        (bits_value(bits) / (pow2(i as nat) as int)) % 2 == (if bits[i] { 1int } else { 0 }),
    decreases bits.len(),
{
    let rest = bits.drop_first();
    let head: int = if bits[0] { 1 } else { 0 };
    if i == 0 {
        lemma2_to64();
    } else {
        lemma_bits_value_digit(rest, i - 1);
        lemma_pow2_step((i - 1) as nat);
        let v = bits_value(bits);
        assert(v == head + 2 * bits_value(rest));
        assert(v / 2 == bits_value(rest));
        lemma_bits_value_bound(bits);
        vstd::arithmetic::div_mod::lemma_div_denominator(v, 2, pow2((i - 1) as nat) as int);
        assert(rest[i - 1] == bits[i]);
    }
}

/// Packed bits stand in the bytes they were packed into.
pub proof fn lemma_pack_holds(before: Seq<u8>, bits: Seq<bool>, after: Seq<u8>)
    ensures
        holds(before + pack(bits) + after, 8 * before.len() as int, bits),
    decreases bits.len(),
{
    let data = before + pack(bits) + after;
    lemma_pack_len(bits);
    if bits.len() > 0 {
        let first = if bits.len() <= 8 { bits } else { bits.take(8) };
        let base = 8 * before.len() as int;
        lemma_bits_value_bound(first);
        lemma2_to64();
        lemma_pow2_monotonic(first.len(), 8);
        assert(data[before.len() as int] == bits_value(first) as u8);
        assert forall|i: int| 0 <= i < first.len() implies #[trigger] bit_at(data, base + i) == (
        if bits[i] {
            1int
        } else {
            0
        }) by {
            lemma_bits_value_digit(first, i);
            assert((base + i) / 8 == before.len() && (base + i) % 8 == i);
        }
        if bits.len() > 8 {
            let rest = bits.skip(8);
            let front = before.push(bits_value(first) as u8);
            lemma_pack_holds(front, rest, after);
            assert(front + pack(rest) + after =~= data);
            assert forall|i: int| 0 <= i < bits.len() implies #[trigger] bit_at(data, base + i)
                == (if bits[i] {
                1int
            } else {
                0
            }) by {
                if i >= 8 {
                    assert(bit_at(data, 8 * front.len() + (i - 8)) == (if rest[i - 8] {
                        1int
                    } else {
                        0
                    }));
                    assert(8 * front.len() + (i - 8) == base + i);
                }
            }
        }
    }
}

/// A writer that packs bits into bytes behind what `output` already holds.
pub struct BitWriter {
    output: Vec<u8>,
    bits: u64,
    bit_count: usize,
    base: Ghost<Seq<u8>>,
    sent: Ghost<Seq<bool>>,
}

impl BitWriter {
    /// The bytes in front of the bits.
    pub closed spec fn base(&self) -> Seq<u8> {
        self.base@
    }

    /// All bits written so far.
    pub closed spec fn sent(&self) -> Seq<bool> {
        self.sent@
    }

    spec fn whole(&self) -> int {
        self.sent@.len() as int / 8 * 8
    }

    /// Whole bytes are in the output, the bits of the last incomplete byte in the buffer.
    pub closed spec fn wf(&self) -> bool {
        &&& self.bit_count == self.sent@.len() % 8
        &&& self.output@ == self.base@ + pack(self.sent@.take(self.whole()))
        &&& self.bits == bits_value(self.sent@.skip(self.whole()))
    }

    pub fn with_output(output: Vec<u8>) -> (writer: Self)
        ensures
            writer.wf(),
            writer.base() == output@,
            writer.sent() == Seq::<bool>::empty(),
    {
        let ghost base = output@;
        let writer = BitWriter {
            output,
            bits: 0,
            bit_count: 0,
            base: Ghost(base),
            sent: Ghost(Seq::empty()),
        };
        assert(writer.sent@.take(0) =~= Seq::<bool>::empty());
        assert(writer.sent@.skip(0) =~= Seq::<bool>::empty());
        assert(writer.output@ =~= writer.base@ + pack(writer.sent@.take(0)));
        writer
    }

    /// Writes the `count` lowest bits of `value`, least significant first.
    pub fn write_bits(&mut self, value: u64, count: usize)
        requires
            old(self).wf(),
            count <= 48,
            value < pow2(count as nat),
        ensures
            final(self).wf(),
            final(self).base() == old(self).base(),
            final(self).sent() == old(self).sent() + low_bits(value as int, count as nat),
    {
        if count == 0 {
            assert(low_bits(value as int, 0) =~= Seq::<bool>::empty());
            assert(self.sent@ =~= self.sent@ + low_bits(value as int, 0));
            return;
        }
        let weight: u64 = power_of_two(self.bit_count);
        let ghost new = low_bits(value as int, count as nat);
        let ghost start = self.whole();
        let ghost head = self.sent@.take(start);
        let ghost mut pending = self.sent@.skip(start) + new;
        proof {
            let c = self.bit_count as nat;
            lemma_low_bits(value as int, count as nat);
            lemma_bits_value_append(self.sent@.skip(start), new);
            lemma_bits_value_bound(self.sent@.skip(start));
            lemma_digit_bound(
                self.bits as int,
                pow2(c) as int,
                value as int,
                pow2(count as nat) as int,
            );
            lemma_pow2_adds(c, count as nat);
            lemma_pow2_monotonic(c + count as nat, 56);
            vstd::arithmetic::power2::lemma2_to64_rest();
            assert(value * weight == weight * value) by (nonlinear_arith);
            assert(0 <= weight * value) by (nonlinear_arith);
        }
        self.bits = self.bits + value * weight;
        self.bit_count = self.bit_count + count;
        proof {
            self.sent@ = self.sent@ + new;
            assert(self.sent@ =~= head + pending);
        }
        let ghost mut flushed = head;
        while self.bit_count >= 8
            invariant
                self.base@ == old(self).base@,
                self.sent@ == old(self).sent@ + new,
                self.sent@ == flushed + pending,
                flushed.len() % 8 == 0,
                self.bit_count == pending.len(),
                self.bits == bits_value(pending),
                self.output@ == self.base@ + pack(flushed),
            decreases self.bit_count,
        {
            let byte: u8 = (self.bits % 256) as u8;
            let ghost first = pending.take(8);
            let ghost rest = pending.skip(8);
            proof {
                assert(pending =~= first + rest);
                lemma_bits_value_append(first, rest);
                lemma_bits_value_bound(first);
                lemma2_to64();
                lemma_split_at(bits_value(first), bits_value(rest), 256);
                lemma_pack_front(flushed, first);
                assert(pack(first) =~= seq![bits_value(first) as u8]);
                assert(self.sent@ =~= (flushed + first) + rest);
            }
            self.output.push(byte);
            self.bits = self.bits / 256;
            self.bit_count = self.bit_count - 8;
            proof {
                assert(self.output@ =~= self.base@ + pack(flushed + first));
                flushed = flushed + first;
                pending = rest;
            }
        }
        proof {
            assert(self.sent@.len() == flushed.len() + pending.len());
            assert(self.whole() == flushed.len());
            assert(self.sent@.take(self.whole()) =~= flushed);
            assert(self.sent@.skip(self.whole()) =~= pending);
        }
    }

    /// The bytes in front, followed by all bits, padded to a whole byte with zeros.
    pub fn finish(self) -> (output: Vec<u8>)
        requires
            self.wf(),
        ensures
            output@ == self.base() + pack(self.sent()),
    {
        let mut output = self.output;
        proof {
            let whole = self.whole();
            let rest = self.sent@.skip(whole);
            assert(self.sent@ =~= self.sent@.take(whole) + rest);
            lemma_pack_front(self.sent@.take(whole), rest);
            lemma_bits_value_bound(rest);
            lemma2_to64();
            lemma_pow2_monotonic(rest.len(), 8);
        }
        if self.bit_count != 0 {
            output.push(self.bits as u8);
        }
        assert(output@ =~= self.base@ + pack(self.sent@));
        output
    }
}

} // verus!
