//! Bit streams whose bytes are filled from the most significant bit down.

use vstd::arithmetic::power2::{lemma2_to64, lemma_pow2_adds, lemma_pow2_pos, pow2};
use vstd::prelude::*;

use crate::math::{lemma_pow2_monotonic, lemma_pow2_step, power_of_two};

verus! {

/// A bit as a number.
pub open spec fn digit(bit: bool) -> int {
    if bit {
        1
    } else {
        0
    }
}

/// Bit `p` of the stream `data`.
pub open spec fn bit_at(data: Seq<u8>, p: int) -> bool {
    (data[p / 8] as int / (pow2((7 - p % 8) as nat) as int)) % 2 == 1
}

/// The number that a string of bits stands for, first bit most significant.
pub open spec fn value_of(bits: Seq<bool>) -> int
    decreases bits.len(),
{
    if bits.len() == 0 {
        0
    } else {
        2 * value_of(bits.drop_last()) + digit(bits.last())
    }
}

/// The `n` bits from position `p` on as a number, first bit most significant.
pub open spec fn bits_at(data: Seq<u8>, p: int, n: nat) -> int
    decreases n,
{
    if n == 0 {
        0
    } else {
        2 * bits_at(data, p, (n - 1) as nat) + digit(bit_at(data, p + n - 1))
    }
}

/// The `n` lowest bits of `value`, most significant first.
pub open spec fn low_bits(value: int, n: nat) -> Seq<bool>
    decreases n,
{
    if n == 0 {
        Seq::empty()
    } else {
        low_bits(value / 2, (n - 1) as nat).push(value % 2 == 1)
    }
}

/// The byte that begins with the given bits, followed by zeros.
pub open spec fn byte_of(bits: Seq<bool>) -> u8 {
    (value_of(bits) * pow2((8 - bits.len()) as nat)) as u8
}

/// The bytes that hold `bits`, the last one padded with zeros.
pub open spec fn pack(bits: Seq<bool>) -> Seq<u8>
    decreases bits.len(),
{
    if bits.len() == 0 {
        Seq::empty()
    } else if bits.len() <= 8 {
        seq![byte_of(bits)]
    } else {
        seq![byte_of(bits.take(8))] + pack(bits.skip(8))
    }
}

pub proof fn lemma_bits_at_bound(data: Seq<u8>, p: int, n: nat)
    ensures
        0 <= bits_at(data, p, n) < pow2(n),
    decreases n,
{
    lemma_pow2_pos(n);
    if n > 0 {
        lemma_bits_at_bound(data, p, (n - 1) as nat);
        lemma_pow2_step((n - 1) as nat);
    } else {
        lemma2_to64();
    }
}

pub proof fn lemma_value_bound(bits: Seq<bool>)
    ensures
        0 <= value_of(bits) < pow2(bits.len()),
    decreases bits.len(),
{
    lemma_pow2_pos(bits.len());
    if bits.len() > 0 {
        lemma_value_bound(bits.drop_last());
        lemma_pow2_step((bits.len() - 1) as nat);
    } else {
        lemma2_to64();
    }
}

pub proof fn lemma_low_bits_len(value: int, n: nat)
    ensures
        low_bits(value, n).len() == n,
    decreases n,
{
    if n > 0 {
        lemma_low_bits_len(value / 2, (n - 1) as nat);
    }
}

pub proof fn lemma_low_bits(value: int, n: nat)
    requires
        0 <= value < pow2(n),
    ensures
        low_bits(value, n).len() == n,
        value_of(low_bits(value, n)) == value,
    decreases n,
{
    if n == 0 {
        lemma2_to64();
    } else {
        lemma_pow2_step((n - 1) as nat);
        lemma_low_bits(value / 2, (n - 1) as nat);
        assert(low_bits(value, n).drop_last() =~= low_bits(value / 2, (n - 1) as nat));
    }
}

/// The first of `n` bits written is the highest digit.
pub proof fn lemma_low_bits_first(value: int, n: nat)
    requires
        n > 0,
        value >= 0,
    ensures
        low_bits(value, n) == seq![value / (pow2((n - 1) as nat) as int) % 2 == 1] + low_bits(
            value,
            (n - 1) as nat,
        ),
    decreases n,
{
    lemma2_to64();
    if n == 1 {
        assert(value / 1 == value);
        assert(low_bits(value / 2, 0) =~= Seq::<bool>::empty());
        assert(low_bits(value, 0) =~= Seq::<bool>::empty());
        assert(low_bits(value, 1) =~= seq![value % 2 == 1] + low_bits(value, 0));
    } else {
        let k = (n - 2) as nat;
        lemma_low_bits_first(value / 2, (n - 1) as nat);
        lemma_pow2_step(k);
        lemma_pow2_pos(k);
        vstd::arithmetic::div_mod::lemma_div_denominator(value, 2, pow2(k) as int);
        let top = value / (pow2((n - 1) as nat) as int) % 2 == 1;
        assert(low_bits(value, n) =~= seq![top] + low_bits(value, (n - 1) as nat));
    }
}

/// The bits of `bits` stand in `data` from position `p` on.
pub open spec fn holds(data: Seq<u8>, p: int, bits: Seq<bool>) -> bool {
    &&& 0 <= p
    &&& p + bits.len() <= 8 * data.len()
    &&& forall|i: int| 0 <= i < bits.len() ==> #[trigger] bit_at(data, p + i) == bits[i]
}

pub proof fn lemma_holds_value(data: Seq<u8>, p: int, bits: Seq<bool>)
    requires
        holds(data, p, bits),
    ensures
        bits_at(data, p, bits.len()) == value_of(bits),
    decreases bits.len(),
{
    if bits.len() > 0 {
        let n = bits.len() as int;
        assert(bit_at(data, p + (n - 1)) == bits[n - 1]);
        assert(holds(data, p, bits.drop_last()));
        lemma_holds_value(data, p, bits.drop_last());
    }
}

pub proof fn lemma_holds_split(data: Seq<u8>, p: int, a: Seq<bool>, b: Seq<bool>)
    requires
        holds(data, p, a + b),
    ensures
        holds(data, p, a),
        holds(data, p + a.len(), b),
{
    assert forall|i: int| 0 <= i < a.len() implies #[trigger] bit_at(data, p + i) == a[i] by {
        assert((a + b)[i] == a[i]);
    }
    assert forall|i: int| 0 <= i < b.len() implies #[trigger] bit_at(data, p + a.len() + i)
        == b[i] by {
        assert((a + b)[a.len() + i] == b[i]);
        assert(bit_at(data, p + (a.len() + i)) == (a + b)[a.len() + i]);
    }
}

/// A number written with `n` bits is read back from them.
pub proof fn lemma_holds_number(data: Seq<u8>, p: int, value: int, n: nat)
    requires
        0 <= value < pow2(n),
        holds(data, p, low_bits(value, n)),
    ensures
        p + n <= 8 * data.len(),
        bits_at(data, p, n) == value,
        low_bits(value, n).len() == n,
{
    lemma_low_bits(value, n);
    lemma_holds_value(data, p, low_bits(value, n));
}

/// Whole bytes at the front of a bit string are packed on their own.
pub proof fn lemma_pack_front(a: Seq<bool>, b: Seq<bool>)
    requires
        a.len() % 8 == 0,
    ensures
        pack(a + b) == pack(a) + pack(b),
    decreases a.len(),
{
    if a.len() == 0 {
        assert(a + b =~= b);
        assert(pack(a) + pack(b) =~= pack(b));
    } else {
        lemma_pack_front(a.skip(8), b);
        assert((a + b).take(8) =~= a.take(8));
        assert((a + b).skip(8) =~= a.skip(8) + b);
        if a.len() == 8 {
            assert(a.take(8) =~= a);
            assert(a.skip(8).len() == 0);
            assert(pack(a.skip(8)) =~= Seq::<u8>::empty());
            if b.len() == 0 {
                assert(a + b =~= a);
                assert(pack(a) + pack(b) =~= pack(a));
            } else {
                assert(a.skip(8) + b =~= b);
                assert(pack(a + b) =~= pack(a) + pack(b));
            }
        } else {
            assert(pack(a) =~= seq![byte_of(a.take(8))] + pack(a.skip(8)));
            assert(pack(a + b) =~= pack(a) + pack(b));
        }
    }
}

pub proof fn lemma_pack_len(bits: Seq<bool>)
    ensures
        pack(bits).len() == (bits.len() + 7) / 8,
    decreases bits.len(),
{
    if bits.len() > 8 {
        lemma_pack_len(bits.skip(8));
    }
}

/// The digits of a value, counted from the least significant one.
proof fn lemma_value_digit(bits: Seq<bool>, i: int)
    requires
        0 <= i < bits.len(),
    ensures
        (value_of(bits) / (pow2((bits.len() - 1 - i) as nat) as int)) % 2 == digit(bits[i]),
    decreases bits.len(),
{
    let n = bits.len() as int;
    lemma_value_bound(bits);
    if i == n - 1 {
        lemma2_to64();
        assert((n - 1 - i) as nat == 0);
    } else {
        let front = bits.drop_last();
        lemma_value_digit(front, i);
        let k = (n - 2 - i) as nat;
        lemma_pow2_step(k);
        assert((n - 1 - i) as nat == k + 1);
        let v = value_of(bits);
        assert(v / 2 == value_of(front));
        vstd::arithmetic::div_mod::lemma_div_denominator(v, 2, pow2(k) as int);
        assert(front[i] == bits[i]);
    }
}

/// The digits of a byte are the bits it was made of.
proof fn lemma_byte_digit(bits: Seq<bool>, i: int)
    requires
        0 <= i < bits.len() <= 8,
    ensures
        (byte_of(bits) as int / (pow2((7 - i) as nat) as int)) % 2 == digit(bits[i]),
        value_of(bits) * pow2((8 - bits.len()) as nat) < 256,
{
    let n = bits.len();
    let pad = (8 - n) as nat;
    let k = (n - 1 - i) as nat;
    let v = value_of(bits);
    lemma_value_bound(bits);
    lemma_value_digit(bits, i);
    lemma_pow2_adds(pad, k);
    lemma_pow2_adds(n, pad);
    lemma_pow2_pos(pad);
    lemma_pow2_pos(k);
    lemma2_to64();
    let a = pow2(pad) as int;
    let b = pow2(n) as int;
    assert(0 <= v * a < 256) by (nonlinear_arith)
        requires
            0 <= v < b,
            a > 0,
            b * a == 256,
    ;
    assert(pad + k == (7 - i) as nat);
    vstd::arithmetic::div_mod::lemma_div_denominator(v * a, a, pow2(k) as int);
    vstd::arithmetic::div_mod::lemma_div_by_multiple(v, a);
}

/// Packed bits stand in the bytes they were packed into.
pub proof fn lemma_pack_holds(before: Seq<u8>, bits: Seq<bool>, after: Seq<u8>)
    ensures
        holds(before + pack(bits) + after, 8 * before.len() as int, bits),
    decreases bits.len(),
{
    let data = before + pack(bits) + after;
    lemma_pack_len(bits);
    if bits.len() > 0 {
        let first = if bits.len() <= 8 {
            bits
        } else {
            bits.take(8)
        };
        let base = 8 * before.len() as int;
        assert(data[before.len() as int] == byte_of(first));
        assert forall|i: int| 0 <= i < first.len() implies #[trigger] bit_at(data, base + i)
            == bits[i] by {
            lemma_byte_digit(first, i);
            assert((base + i) / 8 == before.len() && (base + i) % 8 == i);
        }
        if bits.len() > 8 {
            let rest = bits.skip(8);
            let front = before.push(byte_of(first));
            lemma_pack_holds(front, rest, after);
            assert(front + pack(rest) + after =~= data);
            assert forall|i: int| 0 <= i < bits.len() implies #[trigger] bit_at(data, base + i)
                == bits[i] by {
                if i >= 8 {
                    assert(bit_at(data, 8 * front.len() + (i - 8)) == rest[i - 8]);
                    assert(8 * front.len() + (i - 8) == base + i);
                }
            }
        }
    }
}

/// A writer of bits.
pub struct BitWriter {
    output: Vec<u8>,
    byte: u8,
    bits: u8,
    sent: Ghost<Seq<bool>>,
}

impl BitWriter {
    /// All bits written so far.
    pub closed spec fn sent(&self) -> Seq<bool> {
        self.sent@
    }

    spec fn whole(&self) -> int {
        self.sent@.len() as int / 8 * 8
    }

    pub closed spec fn wf(&self) -> bool {
        &&& self.bits == self.sent@.len() % 8
        &&& self.output@ == pack(self.sent@.take(self.whole()))
        &&& self.byte == value_of(self.sent@.skip(self.whole()))
    }

    /// A writer that reuses the storage of `output`.
    pub fn with_output(output: Vec<u8>) -> (writer: Self)
        ensures
            writer.wf(),
            writer.sent() == Seq::<bool>::empty(),
    {
        let mut output = output;
        output.clear();
        let writer = BitWriter { output, byte: 0, bits: 0, sent: Ghost(Seq::empty()) };
        assert(writer.sent@.take(0) =~= Seq::<bool>::empty());
        assert(writer.sent@.skip(0) =~= Seq::<bool>::empty());
        assert(writer.output@ =~= pack(writer.sent@.take(0)));
        writer
    }

    /// Writes one bit.
    pub fn write_bit(&mut self, bit: bool)
        requires
            old(self).wf(),
        ensures
            final(self).wf(),
            final(self).sent() == old(self).sent().push(bit),
    {
        let ghost before = self.sent@;
        let ghost start = self.whole();
        let ghost head = before.take(start);
        let ghost tail = before.skip(start);
        let ghost longer = tail.push(bit);
        proof {
            assert(longer.drop_last() =~= tail);
            lemma_value_bound(tail);
            lemma_value_bound(longer);
            lemma_pow2_monotonic(tail.len(), 7);
            lemma_pow2_monotonic(longer.len(), 8);
            lemma2_to64();
            assert(before.push(bit) =~= head + longer);
        }
        self.byte = self.byte * 2 + if bit {
            1
        } else {
            0
        };
        self.bits = self.bits + 1;
        proof {
            self.sent@ = before.push(bit);
        }
        if self.bits == 8 {
            self.output.push(self.byte);
            self.byte = 0;
            self.bits = 0;
            proof {
                lemma_pack_front(head, longer);
                assert(value_of(longer) * 1 == value_of(longer));
                assert(byte_of(longer) == value_of(longer));
                assert(pack(longer) =~= seq![byte_of(longer)]);
                assert(self.sent@.take(self.whole()) =~= self.sent@);
                assert(self.sent@.skip(self.whole()) =~= Seq::<bool>::empty());
                assert(self.output@ =~= pack(self.sent@));
            }
        } else {
            proof {
                assert(self.sent@.take(self.whole()) =~= head);
                assert(self.sent@.skip(self.whole()) =~= longer);
            }
        }
    }

    /// Writes the `count` lowest bits of `value`, most significant first.
    pub fn write_bits(&mut self, value: u64, count: usize)
        requires
            old(self).wf(),
            count <= 64,
        ensures
            final(self).wf(),
            final(self).sent() == old(self).sent() + low_bits(value as int, count as nat),
    {
        let mut left: usize = count;
        let ghost target = self.sent() + low_bits(value as int, count as nat);
        while left > 0
            invariant
                self.wf(),
                left <= count <= 64,
                target == self.sent() + low_bits(value as int, left as nat),
            decreases left,
        {
            let weight: u64 = power_of_two(left - 1);
            proof {
                lemma_pow2_pos((left - 1) as nat);
                lemma_low_bits_first(value as int, left as nat);
            }
            let ghost before = self.sent();
            self.write_bit((value / weight) % 2 == 1);
            left -= 1;
            assert(target =~= self.sent() + low_bits(value as int, left as nat));
        }
        assert(target =~= self.sent());
    }

    /// All bits, padded to a whole byte with zeros.
    pub fn finish(self) -> (output: Vec<u8>)
        requires
            self.wf(),
        ensures
            output@ == pack(self.sent()),
    {
        let mut output = self.output;
        proof {
            let whole = self.whole();
            let rest = self.sent@.skip(whole);
            assert(self.sent@ =~= self.sent@.take(whole) + rest);
            lemma_pack_front(self.sent@.take(whole), rest);
            lemma_value_bound(rest);
            if rest.len() > 0 {
                lemma_byte_digit(rest, 0);
            }
        }
        if self.bits != 0 {
            let weight: u64 = power_of_two(8 - self.bits as usize);
            proof {
                lemma_pow2_monotonic((8 - self.bits) as nat, 8);
                lemma2_to64();
                assert(self.byte as u64 * weight < 256) by {
                    assert(self.byte * pow2((8 - self.bits) as nat) == value_of(
                        self.sent@.skip(self.whole()),
                    ) * pow2((8 - self.sent@.skip(self.whole()).len()) as nat));
                }
            }
            output.push((self.byte as u64 * weight) as u8);
        }
        assert(output@ =~= pack(self.sent@));
        output
    }
}

/// A reader of bits.
pub struct BitReader<'a> {
    input: &'a [u8],
    byte: usize,
    bit: u8,
}

impl<'a> BitReader<'a> {
    pub closed spec fn data(&self) -> Seq<u8> {
        self.input@
    }

    /// The number of bits already read.
    pub closed spec fn at(&self) -> int {
        8 * self.byte + self.bit
    }

    pub closed spec fn wf(&self) -> bool {
        &&& self.bit < 8
        &&& self.byte <= self.input@.len()
        &&& self.byte == self.input@.len() ==> self.bit == 0
    }

    pub proof fn lemma_at_in_range(&self)
        requires
            self.wf(),
        ensures
            0 <= self.at() <= 8 * self.data().len(),
    {
    }

    pub fn new(input: &'a [u8]) -> (reader: Self)
        ensures
            reader.wf(),
            reader.data() == input@,
            reader.at() == 0,
    {
        BitReader { input, byte: 0, bit: 0 }
    }

    /// The next bit, or `None` at the end of the stream.
    pub fn read_bit(&mut self) -> (bit: Option<bool>)
        requires
            old(self).wf(),
        ensures
            final(self).wf(),
            final(self).data() == old(self).data(),
            bit is Some <==> old(self).at() + 1 <= 8 * old(self).data().len(),
            bit matches Some(b) ==> b == bit_at(old(self).data(), old(self).at())
                && final(self).at() == old(self).at() + 1,
    {
        if self.byte >= self.input.len() {
            return None;
        }
        let weight: u64 = power_of_two(7 - self.bit as usize);
        proof {
            lemma_pow2_pos((7 - self.bit) as nat);
            assert(self.at() / 8 == self.byte && self.at() % 8 == self.bit);
        }
        let bit: bool = (self.input[self.byte] as u64 / weight) % 2 == 1;
        self.bit = self.bit + 1;
        if self.bit == 8 {
            self.bit = 0;
            self.byte += 1;
        }
        Some(bit)
    }

    /// The next `count` bits as a number, first bit most significant; `None` if fewer are left.
    pub fn read_bits(&mut self, count: usize) -> (value: Option<u64>)
        requires
            old(self).wf(),
            count <= 48,
        ensures
            final(self).wf(),
            final(self).data() == old(self).data(),
            value is Some <==> old(self).at() + count <= 8 * old(self).data().len(),
            value matches Some(bits) ==> bits == bits_at(
                old(self).data(),
                old(self).at(),
                count as nat,
            ) && final(self).at() == old(self).at() + count,
    {
        let mut value: u64 = 0;
        let mut i: usize = 0;
        proof {
            self.lemma_at_in_range();
        }
        while i < count
            invariant
                self.wf(),
                self.data() == old(self).data(),
                i <= count <= 48,
                self.at() == old(self).at() + i,
                self.at() <= 8 * self.data().len(),
                value == bits_at(self.data(), old(self).at(), i as nat),
            decreases count - i,
        {
            proof {
                lemma_bits_at_bound(self.data(), old(self).at(), i as nat);
                lemma_pow2_monotonic(i as nat, 48);
                vstd::arithmetic::power2::lemma2_to64_rest();
            }
            match self.read_bit() {
                Some(bit) => {
                    value = value * 2 + if bit {
                        1
                    } else {
                        0
                    };
                },
                None => return None,
            }
            i += 1;
        }
        Some(value)
    }

    /// The number of bytes of which at least one bit was read.
    pub fn consumed_bytes(&self) -> (count: usize)
        requires
            self.wf(),
        ensures
            count == (self.at() + 7) / 8,
            count <= self.data().len(),
    {
        let size: usize = self.input.len();
        if self.bit == 0 || self.byte >= size {
            self.byte
        } else {
            self.byte + 1
        }
    }
}

} // verus!
