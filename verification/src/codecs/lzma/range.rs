//! The executable range encoder and decoder.

use vstd::prelude::*;

use crate::codecs::lzma::coder::{
    get_bit, lemma_digits, get_plain, lemma_put_bit_ok, lemma_put_plain_ok, moderate, normalized,
    number, power256, put_bit, put_plain, settled, stream_bytes, whole, widened, Interval, Place,
    Reader, Writer,
};

verus! {

/// Four shifts move all digits of the lower end out.
proof fn lemma_digits_leave(a: u64, b: u64, c: u64, d: u64, e: u64)
    requires
        b == a % 0x100_0000 * 256,
        c == b % 0x100_0000 * 256,
        d == c % 0x100_0000 * 256,
        e == d % 0x100_0000 * 256,
    ensures
        e == 0,
{
    assert(e == 0) by (bit_vector)
        requires
            b == a % 0x100_0000 * 256,
            c == b % 0x100_0000 * 256,
            d == c % 0x100_0000 * 256,
            e == d % 0x100_0000 * 256,
    ;
}

/// A range encoder. The byte `cache` and the bytes `0xff` behind it are held back, since a
/// carry may still change them.
pub struct RangeEncoder {
    output: Vec<u8>,
    low: u64,
    range: u32,
    cache: u8,
    held: Vec<u8>,
    shifted: Ghost<bool>,
}

impl RangeEncoder {
    /// The number that the settled and held bytes stand for.
    #[verifier::opaque]
    spec fn settled_number(&self) -> int {
        (256 * number(self.output@) + self.cache + 1) * power256(self.held@.len()) - 1
    }

    /// The lower end of the interval.
    #[verifier::opaque]
    spec fn total(&self) -> int {
        self.settled_number() * 0x1_0000_0000 + self.low
    }

    /// The interval that the encoder has reached.
    pub closed spec fn interval(&self) -> Interval {
        Interval {
            low: self.total(),
            range: self.range as int,
            shifts: self.output@.len() + self.held@.len(),
            shifted: self.shifted@,
        }
    }

    /// A carry finds a byte that takes it, as long as no more than `room` is added.
    spec fn takes_carry(&self, room: int) -> bool {
        &&& self.low + room <= 0x2_0000_0000
        &&& self.low + room > 0x1_0000_0000 ==> self.cache < 0xff
    }

    pub closed spec fn wf(&self) -> bool {
        &&& self.takes_carry(self.range as int)
        &&& settled(self.interval())
    }

    /// An encoder that reuses the storage of `output`.
    pub fn with_output(output: Vec<u8>) -> (encoder: Self)
        ensures
            encoder.wf(),
            encoder.interval() == whole(),
    {
        let mut output = output;
        output.clear();
        proof {
            reveal(RangeEncoder::total);
            reveal(RangeEncoder::settled_number);
        }
        let encoder = RangeEncoder {
            output,
            low: 0,
            range: 0xffff_ffff,
            cache: 0,
            held: Vec::new(),
            shifted: Ghost(false),
        };
        assert(encoder.output@ =~= Seq::<u8>::empty());
        assert(encoder.held@.len() == 0);
        assert(power256(0) == 1);
        assert(encoder.settled_number() == 0);
        assert(settled(whole()));
        encoder
    }

    /// Settles the bytes held back, after adding the carry, and holds back the next one.
    fn release(&mut self, carry: u8, next: u8)
        requires
            carry <= 1,
            old(self).cache + carry <= 0xff,
        ensures
            final(self).low == old(self).low,
            final(self).range == old(self).range,
            final(self).shifted == old(self).shifted,
            final(self).cache == next,
            final(self).held@.len() == 0,
            number(final(self).output@) == old(self).settled_number() + carry,
            final(self).output@.len() == old(self).output@.len() + old(self).held@.len() + 1,
    {
        proof {
            reveal(RangeEncoder::total);
            reveal(RangeEncoder::settled_number);
        }
        let first: u8 = self.cache + carry;
        self.output.push(first);
        assert(self.output@.drop_last() =~= old(self).output@);
        let filler: u8 = if carry == 0 {
            0xff
        } else {
            0
        };
        let ghost start = number(self.output@);
        let count: usize = self.held.len();
        let mut i: usize = 0;
        assert(power256(0) == 1);
        while i < count
            invariant
                i <= count,
                carry <= 1,
                filler == (if carry == 0 {
                    0xffu8
                } else {
                    0
                }),
                self.low == old(self).low,
                self.range == old(self).range,
                self.shifted == old(self).shifted,
                self.held@ == old(self).held@,
                self.cache == old(self).cache,
                self.output@.len() == old(self).output@.len() + 1 + i,
                number(self.output@) == (start + 1 - carry) * power256(i as nat) - (1 - carry),
            decreases count - i,
        {
            let ghost before = self.output@;
            self.output.push(filler);
            proof {
                assert(self.output@.drop_last() =~= before);
                assert(power256((i + 1) as nat) == 256 * power256(i as nat));
                let s = start + 1 - carry;
                let p = power256(i as nat);
                assert(s * (256 * p) == 256 * (s * p)) by (nonlinear_arith);
            }
            i += 1;
        }
        self.held.clear();
        self.cache = next;
    }

    /// Moves the encoder up by a byte.
    fn shift_low(&mut self, Ghost(room): Ghost<int>)
        requires
            0 < room < 0x100_0000,
            old(self).takes_carry(room),
        ensures
            final(self).takes_carry(room * 256),
            final(self).range == old(self).range,
            final(self).shifted == old(self).shifted,
            final(self).low < 0x1_0000_0000,
            final(self).low == old(self).low % 0x100_0000 * 256,
            final(self).total() == old(self).total() * 256,
            final(self).output@.len() + final(self).held@.len() == old(self).output@.len()
                + old(self).held@.len() + 1,
            final(self).held@.len() <= old(self).held@.len() + 1,
            old(self).low % 0x1_0000_0000 < 0xff00_0000 ==> final(self).held@.len() == 0
                && final(self).cache == old(self).low / 0x100_0000 % 0x100,
    {
        proof {
            reveal(RangeEncoder::total);
            reveal(RangeEncoder::settled_number);
        }
        let low32: u64 = self.low % 0x1_0000_0000;
        let carry: u8 = (self.low / 0x1_0000_0000) as u8;
        let top: u8 = (low32 / 0x100_0000) as u8;
        let ghost pending = self.settled_number();
        assert(power256(0) == 1);
        if low32 < 0xff00_0000 || carry != 0 {
            self.release(carry, top);
            assert(self.settled_number() == 256 * (pending + carry) + top);
        } else {
            proof {
                let n = self.held@.len();
                let s = 256 * number(self.output@) + self.cache + 1;
                let p = power256(n);
                assert(power256(n + 1) == 256 * p);
                assert(s * (256 * p) == 256 * (s * p)) by (nonlinear_arith);
            }
            self.held.push(0xff);
            assert(self.settled_number() == 256 * pending + 255);
        }
        self.low = low32 % 0x100_0000 * 256;
    }

    /// Moves the encoder up by a byte if its interval is small.
    fn widen(&mut self)
        requires
            old(self).takes_carry(old(self).range as int),
            settled(widened(old(self).interval())),
        ensures
            final(self).wf(),
            final(self).interval() == widened(old(self).interval()),
    {
        proof {
            reveal(RangeEncoder::total);
            reveal(RangeEncoder::settled_number);
        }
        if self.range < 0x100_0000 {
            self.shift_low(Ghost(self.range as int));
            self.range = self.range * 256;
            proof {
                self.shifted@ = true;
            }
        } else {
            proof {
                self.shifted@ = false;
            }
        }
    }

    /// Encodes a bit under model `index` and adapts the model.
    pub fn encode_bit(&mut self, probs: &mut Vec<u16>, index: usize, bit: u32)
        requires
            old(self).wf(),
            moderate(old(probs)@),
            index < old(probs)@.len(),
            bit <= 1,
        ensures
            final(self).wf(),
            moderate(final(probs)@),
            final(probs)@.len() == old(probs)@.len(),
            (Writer { interval: final(self).interval(), probs: final(probs)@ }) == put_bit(
                Writer { interval: old(self).interval(), probs: old(probs)@ },
                index as int,
                bit as int,
            ),
    {
        let p: u16 = probs[index];
        let ghost w = Writer { interval: self.interval(), probs: probs@ };
        proof {
            reveal(put_bit);
            reveal(RangeEncoder::total);
            reveal(RangeEncoder::settled_number);
            lemma_put_bit_ok(w, index as int, bit as int);
            let q = self.range as int / 2048;
            assert(q * 31 <= q * p <= q * 2017) by (nonlinear_arith)
                requires
                    31 <= p <= 2017,
                    q >= 0,
            ;
        }
        let bound: u32 = self.range / 2048 * p as u32;
        if bit == 0 {
            self.range = bound;
            probs.set(index, p + (2048 - p) / 32);
        } else {
            self.low = self.low + bound as u64;
            self.range = self.range - bound;
            probs.set(index, p - p / 32);
        }
        self.widen();
    }

    /// Encodes the `count` lowest bits of `value`, most significant first, without a model.
    pub fn encode_direct_bits(&mut self, value: u32, count: u32, Ghost(probs): Ghost<Seq<u16>>)
        requires
            old(self).wf(),
            moderate(probs),
            count <= 32,
        ensures
            final(self).wf(),
            (Writer { interval: final(self).interval(), probs }) == put_plain_bits(
                Writer { interval: old(self).interval(), probs },
                value as int,
                count as nat,
            ),
    {
        let mut left: u32 = count;
        let ghost whole = put_plain_bits(
            Writer { interval: self.interval(), probs },
            value as int,
            count as nat,
        );
        while left > 0
            invariant
                self.wf(),
                moderate(probs),
                left <= count <= 32,
                whole == put_plain_bits(
                    Writer { interval: self.interval(), probs },
                    value as int,
                    left as nat,
                ),
            decreases left,
        {
            left -= 1;
            let weight: u64 = crate::math::power_of_two(left as usize);
            proof {
                vstd::arithmetic::power2::lemma_pow2_pos(left as nat);
            }
            let bit: u64 = (value as u64 / weight) % 2;
            let half: u32 = self.range / 2;
            proof {
                reveal(put_plain);
                reveal(RangeEncoder::total);
            reveal(RangeEncoder::settled_number);
                lemma_put_plain_ok(Writer { interval: self.interval(), probs }, bit as int);
                assert(bit * half == (if bit == 0 {
                    0
                } else {
                    half as int
                })) by (nonlinear_arith)
                    requires
                        bit == 0 || bit == 1,
                ;
            }
            self.range = half;
            if bit != 0 {
                self.low = self.low + half as u64;
            }
            self.widen();
        }
    }

    /// With nothing held back, the settled bytes are all there is.
    proof fn lemma_total_at_rest(&self)
        requires
            self.held@.len() == 0,
            self.cache == 0,
            self.low == 0,
        ensures
            self.total() == number(self.output@) * 0x100_0000_0000,
    {
        reveal(RangeEncoder::total);
        reveal(RangeEncoder::settled_number);
        assert(power256(0) == 1);
    }

    /// Ends the stream: all bytes of the lower end of the interval.
    pub fn finish(self) -> (stream: Vec<u8>)
        requires
            self.wf(),
        ensures
            stream@ == stream_bytes(self.interval()),
    {
        let mut encoder = self;
        let ghost start = self.interval();
        assert(encoder.takes_carry(1));
        encoder.shift_low(Ghost(1));
        let ghost first = encoder;
        assert(encoder.takes_carry(1));
        encoder.shift_low(Ghost(1));
        let ghost second = encoder;
        assert(encoder.takes_carry(1));
        encoder.shift_low(Ghost(1));
        let ghost third = encoder;
        assert(encoder.takes_carry(1));
        encoder.shift_low(Ghost(1));
        let ghost fourth = encoder;
        proof {
            lemma_digits_leave(self.low, first.low, second.low, third.low, fourth.low);
        }
        assert(encoder.takes_carry(1));
        encoder.shift_low(Ghost(1));
        proof {
            let t = self.total();
            assert(encoder.total() == t * 256 * 256 * 256 * 256 * 256);
            encoder.lemma_total_at_rest();
        }
        let stream = encoder.output;
        proof {
            lemma_digits(stream@);
        }
        stream
    }
}

/// Writes the `count` lowest bits of `value`, most significant first, without a model.
pub open spec fn put_plain_bits(w: Writer, value: int, count: nat) -> Writer
    decreases count,
{
    if count == 0 {
        w
    } else {
        let n = (count - 1) as nat;
        put_plain_bits(
            put_plain(w, value / (vstd::arithmetic::power2::pow2(n) as int) % 2),
            value,
            n,
        )
    }
}

/// A range decoder, eager or lazy.
pub struct RangeDecoder<'a> {
    input: &'a [u8],
    position: usize,
    range: u32,
    code: u32,
    lazy: bool,
}

/// The decoder before the first bit, if the stream has a valid beginning.
pub open spec fn first_place(data: Seq<u8>) -> Option<Place> {
    if data.len() < 5 || data[0] != 0 {
        None
    } else {
        Some(Place { range: 0xffff_ffff, code: number(data.take(5)), position: 5 })
    }
}

pub proof fn lemma_number5(data: Seq<u8>)
    requires
        data.len() >= 5,
    ensures
        number(data.take(5)) == data[0] * 0x1_0000_0000 + data[1] * 0x100_0000 + data[2] * 0x1_0000
            + data[3] * 0x100 + data[4],
{
    let s = data.take(5);
    reveal_with_fuel(number, 6);
    assert(s.drop_last() =~= data.take(4));
    assert(data.take(4).drop_last() =~= data.take(3));
    assert(data.take(3).drop_last() =~= data.take(2));
    assert(data.take(2).drop_last() =~= data.take(1));
    assert(data.take(1).drop_last() =~= data.take(0));
}

impl<'a> RangeDecoder<'a> {
    pub closed spec fn data(&self) -> Seq<u8> {
        self.input@
    }

    pub closed spec fn place(&self) -> Place {
        Place { range: self.range as int, code: self.code as int, position: self.position as int }
    }

    pub closed spec fn wf(&self) -> bool {
        &&& self.position <= self.input@.len()
        &&& self.range >= 0x1_0000
        &&& !self.lazy ==> self.range >= 0x100_0000
    }

    pub closed spec fn lazy(&self) -> bool {
        self.lazy
    }

    /// The decoder together with its models.
    pub open spec fn reader(&self, probs: Seq<u16>) -> Reader {
        Reader { lazy: self.lazy(), data: self.data(), place: self.place(), probs }
    }

    /// Starts decoding; `None` if the stream is too short or does not begin with zero.
    pub fn new(input: &'a [u8], lazy: bool) -> (decoder: Option<Self>)
        ensures
            match first_place(input@) {
                Some(place) => decoder is Some && decoder->Some_0.wf()
                    && decoder->Some_0.data() == input@ && decoder->Some_0.place() == place
                    && decoder->Some_0.lazy() == lazy,
                None => decoder is None,
            },
    {
        if input.len() < 5 || input[0] != 0 {
            return None;
        }
        proof {
            lemma_number5(input@);
        }
        let code: u32 = input[1] as u32 * 0x100_0000 + input[2] as u32 * 0x1_0000 + input[3] as u32
            * 0x100 + input[4] as u32;
        Some(RangeDecoder { input, position: 5, range: 0xffff_ffff, code, lazy })
    }

    /// Takes in another byte if the interval has become small; reports whether there was one.
    fn normalize(&mut self) -> (done: bool)
        requires
            old(self).position <= old(self).input@.len(),
            old(self).range >= 0x1_0000,
        ensures
            final(self).data() == old(self).data(),
            final(self).lazy == old(self).lazy,
            match normalized(old(self).data(), old(self).place()) {
                Some(place) => done && final(self).place() == place && final(self).wf()
                    && place.range >= 0x100_0000,
                None => !done,
            },
    {
        if self.range < 0x100_0000 {
            if self.position >= self.input.len() {
                return false;
            }
            let byte: u64 = self.input[self.position] as u64;
            self.range = self.range * 256;
            self.code = ((self.code as u64 * 256 + byte) % 0x1_0000_0000) as u32;
            self.position += 1;
        }
        true
    }

    /// Decodes a bit under model `index` and adapts the model; `None` at the end of the stream.
    pub fn decode_bit(&mut self, probs: &mut Vec<u16>, index: usize) -> (bit: Option<u32>)
        requires
            old(self).wf(),
            moderate(old(probs)@),
            index < old(probs)@.len(),
        ensures
            match get_bit(old(self).reader(old(probs)@), index as int) {
                Some((value, reader)) => bit == Some(value as u32) && 0 <= value <= 1
                    && final(self).reader(final(probs)@) == reader && final(self).wf() && moderate(
                    final(probs)@,
                ) && final(probs)@.len() == old(probs)@.len(),
                None => bit is None,
            },
    {
        let p: u16 = probs[index];
        proof {
            reveal(get_bit);
        }
        if self.lazy && !self.normalize() {
            return None;
        }
        proof {
            let q = self.range as int / 2048;
            assert(q * 31 <= q * p <= q * 2017) by (nonlinear_arith)
                requires
                    31 <= p <= 2017,
                    q >= 0,
            ;
            crate::codecs::lzma::coder::lemma_adapted(p, 0);
            crate::codecs::lzma::coder::lemma_adapted(p, 1);
        }
        let bound: u32 = self.range / 2048 * p as u32;
        let bit: u32 = if self.code < bound {
            self.range = bound;
            probs.set(index, p + (2048 - p) / 32);
            0
        } else {
            self.range = self.range - bound;
            self.code = self.code - bound;
            probs.set(index, p - p / 32);
            1
        };
        if !self.lazy && !self.normalize() {
            return None;
        }
        Some(bit)
    }

    /// Decodes a bit without a model.
    fn decode_plain(&mut self, Ghost(probs): Ghost<Seq<u16>>) -> (bit: Option<u32>)
        requires
            old(self).wf(),
        ensures
            match get_plain(old(self).reader(probs)) {
                Some((value, reader)) => bit == Some(value as u32) && 0 <= value <= 1
                    && final(self).reader(probs) == reader && final(self).wf(),
                None => bit is None,
            },
    {
        proof {
            reveal(get_plain);
        }
        if self.lazy && !self.normalize() {
            return None;
        }
        let half: u32 = self.range / 2;
        self.range = half;
        let difference: u32 = self.code.wrapping_sub(half);
        let above: bool = if self.lazy {
            difference < 0x8000_0000
        } else {
            self.code >= half
        };
        let bit: u32 = if above {
            self.code = difference;
            1
        } else {
            0
        };
        if !self.lazy && !self.normalize() {
            return None;
        }
        Some(bit)
    }

    /// Decodes `count` bits without a model, most significant first.
    pub fn decode_direct_bits(&mut self, count: u32, Ghost(probs): Ghost<Seq<u16>>) -> (value:
        Option<u32>)
        requires
            old(self).wf(),
            count <= 32,
        ensures
            match get_plain_bits(old(self).reader(probs), count as nat, 0) {
                Some((result, reader)) => value == Some(result as u32) && 0 <= result
                    < vstd::arithmetic::power2::pow2(count as nat) && final(self).reader(probs)
                    == reader && final(self).wf(),
                None => value is None,
            },
    {
        let mut result: u32 = 0;
        let mut left: u32 = count;
        let ghost whole = get_plain_bits(self.reader(probs), count as nat, 0);
        proof {
            vstd::arithmetic::power2::lemma2_to64();
        }
        while left > 0
            invariant
                self.wf(),
                left <= count <= 32,
                result < vstd::arithmetic::power2::pow2((count - left) as nat),
                whole == get_plain_bits(old(self).reader(probs), count as nat, 0),
                whole == get_plain_bits(self.reader(probs), left as nat, result as int),
            decreases left,
        {
            let bit: u32 = match self.decode_plain(Ghost(probs)) {
                Some(bit) => bit,
                None => return None,
            };
            proof {
                crate::math::lemma_pow2_step((count - left) as nat);
                crate::math::lemma_pow2_monotonic((count - left) as nat, 31);
                vstd::arithmetic::power2::lemma2_to64();
            }
            result = result * 2 + bit;
            left -= 1;
        }
        Some(result)
    }
}

/// The next `count` bits without a model, appended to the digits of `value`.
pub open spec fn get_plain_bits(r: Reader, count: nat, value: int) -> Option<(int, Reader)>
    decreases count,
{
    if count == 0 {
        Some((value, r))
    } else {
        match get_plain(r) {
            None => None,
            Some((bit, next)) => get_plain_bits(next, (count - 1) as nat, 2 * value + bit),
        }
    }
}

} // verus!
