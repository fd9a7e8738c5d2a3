//! The range coder of LZMA as arithmetic on intervals.
//!
//! An encoder narrows an interval of numbers with every bit. The stream is any number within
//! the last interval, so a decoder can follow the same intervals and tell the bits from where
//! the number lies.

use vstd::prelude::*;

verus! {

/// The number that a string of bytes stands for, most significant byte first.
pub open spec fn number(bytes: Seq<u8>) -> int
    decreases bytes.len(),
{
    if bytes.len() == 0 {
        0
    } else {
        256 * number(bytes.drop_last()) + bytes.last()
    }
}

/// `256^n`.
pub open spec fn power256(n: nat) -> int
    decreases n,
{
    if n == 0 {
        1
    } else {
        256 * power256((n - 1) as nat)
    }
}

pub proof fn lemma_power256_positive(n: nat)
    ensures
        power256(n) >= 1,
    decreases n,
{
    if n > 0 {
        lemma_power256_positive((n - 1) as nat);
    }
}

/// The `count` bytes of `value`, most significant first.
pub open spec fn digits(value: int, count: nat) -> Seq<u8>
    decreases count,
{
    if count == 0 {
        Seq::empty()
    } else {
        digits(value / 256, (count - 1) as nat).push((value % 256) as u8)
    }
}

/// A number determines its bytes.
pub proof fn lemma_digits(bytes: Seq<u8>)
    ensures
        digits(number(bytes), bytes.len()) == bytes,
    decreases bytes.len(),
{
    if bytes.len() > 0 {
        lemma_digits(bytes.drop_last());
        assert(bytes.drop_last().push(bytes.last()) =~= bytes);
    } else {
        assert(digits(0, 0) =~= bytes);
    }
}

/// The bytes of the lower end of an interval.
pub open spec fn stream_bytes(interval: Interval) -> Seq<u8> {
    digits(interval.low, 5 + interval.shifts)
}

/// The bytes of a number stand for it.
pub proof fn lemma_number_of_digits(value: int, count: nat)
    requires
        0 <= value < power256(count),
    ensures
        digits(value, count).len() == count,
        number(digits(value, count)) == value,
    decreases count,
{
    if count > 0 {
        lemma_number_of_digits(value / 256, (count - 1) as nat);
        assert(digits(value, count).drop_last() =~= digits(value / 256, (count - 1) as nat));
    }
}

/// The stream that an encoder ends with lies within its interval.
pub proof fn lemma_stream_bytes(interval: Interval)
    requires
        settled(interval),
    ensures
        fits(stream_bytes(interval), interval),
{
    let k = interval.shifts;
    assert(power256(k + 1) == 256 * power256(k));
    assert(power256(k + 2) == 256 * power256(k + 1));
    assert(power256(k + 3) == 256 * power256(k + 2));
    assert(power256(k + 4) == 256 * power256(k + 3));
    assert(power256(k + 5) == 256 * power256(k + 4));
    lemma_power256_positive(k);
    lemma_number_of_digits(interval.low, 5 + k);
    let s = stream_bytes(interval);
    assert(s.take(5 + k as int) =~= s);
}

/// A range decoder: the size of the interval, where the stream lies in it, and the number of
/// bytes read.
pub struct Place {
    pub range: int,
    pub code: int,
    pub position: int,
}

/// A decoder of modelled bits. An eager one reads the next byte as soon as its interval is
/// small, a lazy one only when it needs another bit.
pub struct Reader {
    pub lazy: bool,
    pub data: Seq<u8>,
    pub place: Place,
    pub probs: Seq<u16>,
}

/// A probability after a zero bit.
pub open spec fn raised(p: u16) -> u16 {
    (p + (2048 - p) / 32) as u16
}

/// A probability after a one bit.
pub open spec fn lowered(p: u16) -> u16 {
    (p - p / 32) as u16
}

/// A probability after the given bit.
pub open spec fn adapted(p: u16, bit: int) -> u16 {
    if bit == 0 {
        raised(p)
    } else {
        lowered(p)
    }
}

/// The probabilities stay away from certainty.
pub open spec fn moderate(probs: Seq<u16>) -> bool {
    forall|i: int| 0 <= i < probs.len() ==> 31 <= #[trigger] probs[i] <= 2017
}

/// Takes in another byte if the interval has become small.
pub open spec fn normalized(data: Seq<u8>, place: Place) -> Option<Place> {
    if place.range >= 0x100_0000 {
        Some(place)
    } else if place.position < data.len() {
        Some(
            Place {
                range: place.range * 256,
                code: (place.code * 256 + data[place.position]) % 0x1_0000_0000,
                position: place.position + 1,
            },
        )
    } else {
        None
    }
}

/// A bit with the given probability of being zero, of 2048.
pub open spec fn modelled(place: Place, p: u16) -> (int, Place) {
    let bound = place.range / 2048 * p;
    if place.code < bound {
        (0, Place { range: bound, ..place })
    } else {
        (1, Place { range: place.range - bound, code: place.code - bound, ..place })
    }
}

/// A bit without a model. A lazy decoder compares by the sign of the difference, which tells
/// the two apart only where the code lies outside its interval.
pub open spec fn unmodelled(lazy: bool, place: Place) -> (int, Place) {
    let half = place.range / 2;
    let above = if lazy {
        (place.code - half) % 0x1_0000_0000 < 0x8000_0000
    } else {
        place.code >= half
    };
    if above {
        (1, Place { range: half, code: (place.code - half) % 0x1_0000_0000, ..place })
    } else {
        (0, Place { range: half, ..place })
    }
}

/// The next bit under model `index`; nothing if the stream ends too early.
#[verifier::opaque]
pub open spec fn get_bit(r: Reader, index: int) -> Option<(int, Reader)> {
    if r.lazy {
        match normalized(r.data, r.place) {
            None => None,
            Some(place) => {
                let (bit, next) = modelled(place, r.probs[index]);
                Some(
                    (
                        bit,
                        Reader {
                            place: next,
                            probs: r.probs.update(index, adapted(r.probs[index], bit)),
                            ..r
                        },
                    ),
                )
            },
        }
    } else {
        let (bit, next) = modelled(r.place, r.probs[index]);
        match normalized(r.data, next) {
            None => None,
            Some(place) => Some(
                (
                    bit,
                    Reader {
                        place,
                        probs: r.probs.update(index, adapted(r.probs[index], bit)),
                        ..r
                    },
                ),
            ),
        }
    }
}

/// The next bit without a model.
#[verifier::opaque]
pub open spec fn get_plain(r: Reader) -> Option<(int, Reader)> {
    if r.lazy {
        match normalized(r.data, r.place) {
            None => None,
            Some(place) => {
                let (bit, next) = unmodelled(true, place);
                Some((bit, Reader { place: next, ..r }))
            },
        }
    } else {
        let (bit, next) = unmodelled(false, r.place);
        match normalized(r.data, next) {
            None => None,
            Some(place) => Some((bit, Reader { place, ..r })),
        }
    }
}

/// The interval of an encoder: its lower end and size at a resolution of `5 + shifts` bytes,
/// and whether the last bit moved it up by a byte.
pub struct Interval {
    pub low: int,
    pub range: int,
    pub shifts: nat,
    pub shifted: bool,
}

/// An encoder of modelled bits.
pub struct Writer {
    pub interval: Interval,
    pub probs: Seq<u16>,
}

/// The interval before the first bit.
pub open spec fn whole() -> Interval {
    Interval { low: 0, range: 0xffff_ffff, shifts: 0, shifted: false }
}

/// Moves a small interval up by a byte.
pub open spec fn widened(interval: Interval) -> Interval {
    if interval.range < 0x100_0000 {
        Interval {
            low: interval.low * 256,
            range: interval.range * 256,
            shifts: interval.shifts + 1,
            shifted: true,
        }
    } else {
        Interval { shifted: false, ..interval }
    }
}

/// Writes a bit under model `index`.
#[verifier::opaque]
pub open spec fn put_bit(w: Writer, index: int, bit: int) -> Writer {
    let bound = w.interval.range / 2048 * w.probs[index];
    let part = if bit == 0 {
        Interval { range: bound, ..w.interval }
    } else {
        Interval {
            low: w.interval.low + bound,
            range: w.interval.range - bound,
            ..w.interval
        }
    };
    Writer { interval: widened(part), probs: w.probs.update(index, adapted(w.probs[index], bit)) }
}

/// Writes a bit without a model.
#[verifier::opaque]
pub open spec fn put_plain(w: Writer, bit: int) -> Writer {
    let half = w.interval.range / 2;
    let part = Interval { low: w.interval.low + bit * half, range: half, ..w.interval };
    Writer { interval: widened(part), ..w }
}

/// The interval is as large as between two bits.
pub open spec fn settled(interval: Interval) -> bool {
    &&& 0x100_0000 <= interval.range <= 0xffff_ffff
    &&& 0 <= interval.low
    &&& interval.low + interval.range <= 0x1_0000_0000 * power256(interval.shifts)
    &&& interval.shifted ==> interval.range % 256 == 0 && interval.low % 256 == 0
        && interval.range / 256 < 0x100_0000 && interval.shifts > 0
}

pub open spec fn writer_ok(w: Writer) -> bool {
    settled(w.interval) && moderate(w.probs)
}

/// The stream `data` lies within the interval.
pub open spec fn fits(data: Seq<u8>, interval: Interval) -> bool {
    &&& 5 + interval.shifts <= data.len()
    &&& interval.low <= number(data.take(5 + interval.shifts as int)) < interval.low
        + interval.range
}

/// The decoder that has read from `data` what the encoder wrote.
pub open spec fn reader_at(lazy: bool, data: Seq<u8>, w: Writer) -> Reader {
    let i = w.interval;
    let place = if lazy && i.shifted {
        Place {
            range: i.range / 256,
            code: number(data.take(4 + i.shifts as int)) - i.low / 256,
            position: 4 + i.shifts as int,
        }
    } else {
        Place {
            range: i.range,
            code: number(data.take(5 + i.shifts as int)) - i.low,
            position: 5 + i.shifts as int,
        }
    };
    Reader { lazy, data, place, probs: w.probs }
}

/// Adapting a probability keeps it moderate.
pub proof fn lemma_adapted(p: u16, bit: int)
    requires
        31 <= p <= 2017,
    ensures
        31 <= adapted(p, bit) <= 2017,
{
}

/// Both parts of a settled interval are large enough to be settled after at most one shift.
proof fn lemma_bound(range: int, p: int)
    requires
        0x100_0000 <= range <= 0xffff_ffff,
        31 <= p <= 2017,
    ensures
        0x1_0000 <= range / 2048 * p <= range - 0x1_0000,
{
    let q = range / 2048;
    assert(q * 31 <= q * p <= q * 2017) by (nonlinear_arith)
        requires
            31 <= p <= 2017,
            q >= 0,
    ;
}

pub proof fn lemma_put_bit_ok(w: Writer, index: int, bit: int)
    requires
        writer_ok(w),
        0 <= index < w.probs.len(),
    ensures
        writer_ok(put_bit(w, index, bit)),
        put_bit(w, index, bit).probs.len() == w.probs.len(),
{
    reveal(put_bit);
    lemma_bound(w.interval.range, w.probs[index] as int);
    lemma_adapted(w.probs[index], bit);
}

pub proof fn lemma_put_plain_ok(w: Writer, bit: int)
    requires
        writer_ok(w),
        bit == 0 || bit == 1,
    ensures
        writer_ok(put_plain(w, bit)),
        put_plain(w, bit).probs == w.probs,
{
    reveal(put_plain);
    let half = w.interval.range / 2;
    assert(bit * half == (if bit == 0 {
        0
    } else {
        half
    })) by (nonlinear_arith)
        requires
            bit == 0 || bit == 1,
    ;
}

proof fn lemma_number_take(data: Seq<u8>, n: int)
    requires
        0 <= n < data.len(),
    ensures
        number(data.take(n + 1)) == 256 * number(data.take(n)) + data[n],
{
    assert(data.take(n + 1).drop_last() =~= data.take(n));
}

/// A lazy decoder that catches up is where an eager one is.
proof fn lemma_catch_up(data: Seq<u8>, w: Writer)
    requires
        settled(w.interval),
        fits(data, w.interval),
    ensures
        normalized(data, reader_at(true, data, w).place) == Some(reader_at(false, data, w).place),
{
    let i = w.interval;
    if i.shifted {
        lemma_number_take(data, 4 + i.shifts as int);
    }
}

/// Taking part of an interval and widening it keeps the stream inside.
proof fn lemma_widened_fits(data: Seq<u8>, part: Interval)
    requires
        fits(data, widened(part)),
        part.range < 0x1_0000_0000,
    ensures
        fits(data, part),
{
    if part.range < 0x100_0000 {
        lemma_number_take(data, 5 + part.shifts as int);
    }
}

/// The decoder behind a widened interval, before it takes in the byte and after.
proof fn lemma_widened_place(data: Seq<u8>, part: Interval, probs: Seq<u16>)
    requires
        fits(data, widened(part)),
        0x1_0000 <= part.range < 0x1_0000_0000,
    ensures
        ({
            let raw = Place {
                range: part.range,
                code: number(data.take(5 + part.shifts as int)) - part.low,
                position: 5 + part.shifts as int,
            };
            let w = Writer { interval: widened(part), probs };
            &&& reader_at(true, data, w).place == raw
            &&& normalized(data, raw) == Some(reader_at(false, data, w).place)
            &&& 0 <= raw.code < raw.range
        }),
{
    lemma_widened_fits(data, part);
    if part.range < 0x100_0000 {
        lemma_number_take(data, 5 + part.shifts as int);
    }
}

/// A bit that was written is read back, by eager and lazy decoders alike.
pub proof fn lemma_bit_read_back(lazy: bool, data: Seq<u8>, w: Writer, index: int, bit: int)
    requires
        writer_ok(w),
        0 <= index < w.probs.len(),
        bit == 0 || bit == 1,
        fits(data, put_bit(w, index, bit).interval),
    ensures
        fits(data, w.interval),
        get_bit(reader_at(lazy, data, w), index) == Some(
            (bit, reader_at(lazy, data, put_bit(w, index, bit))),
        ),
{
    reveal(put_bit);
    reveal(get_bit);
    let bound = w.interval.range / 2048 * w.probs[index];
    lemma_bound(w.interval.range, w.probs[index] as int);
    let part = if bit == 0 {
        Interval { range: bound, ..w.interval }
    } else {
        Interval { low: w.interval.low + bound, range: w.interval.range - bound, ..w.interval }
    };
    let after = put_bit(w, index, bit);
    lemma_widened_place(data, part, after.probs);
    lemma_widened_fits(data, part);
    lemma_catch_up(data, w);
}

/// A bit without a model that was written is read back.
pub proof fn lemma_plain_read_back(lazy: bool, data: Seq<u8>, w: Writer, bit: int)
    requires
        writer_ok(w),
        bit == 0 || bit == 1,
        fits(data, put_plain(w, bit).interval),
    ensures
        fits(data, w.interval),
        get_plain(reader_at(lazy, data, w)) == Some(
            (bit, reader_at(lazy, data, put_plain(w, bit))),
        ),
{
    reveal(put_plain);
    reveal(get_plain);
    let half = w.interval.range / 2;
    assert(bit * half == (if bit == 0 {
        0
    } else {
        half
    })) by (nonlinear_arith)
        requires
            bit == 0 || bit == 1,
    ;
    let part = Interval { low: w.interval.low + bit * half, range: half, ..w.interval };
    lemma_widened_place(data, part, w.probs);
    lemma_widened_fits(data, part);
    lemma_catch_up(data, w);
}

} // verus!
