//! The adaptive model and the range coder.

use vstd::prelude::*;

use crate::codecs::dz::coder::{
    byte_at, end_position, finished, first_sender, first_taker, get_symbol, halved, lemma_narrowed,
    lemma_settle, lemma_settle_taker, lemma_shifted, lemma_window_step, looked_at, middle, narrowed,
    pushed, put_symbol, recorded, settle, settle_taker, tail_size, uniform, window, Model, Sender,
    Span, Taker,
};
use crate::codecs::dz::fault::DzFault;
use crate::codecs::dz::fenwick::{
    add_to_tree, build_tree, find_symbol, lemma_sum_bound, lemma_sum_update, prefix_sum, sum_to,
    symbol_of, tree_fits,
};

verus! {

/// The increment of a model that names none.
pub const MODEL_INCREMENT: u16 = 16;

/// The total above which a model halves its frequencies.
pub const MODEL_MAX_TOTAL: u32 = 0x1_0000;

/// The number of binary digits of a value.
pub open spec fn bit_length(value: nat) -> nat
    decreases value,
{
    if value == 0 {
        0
    } else {
        1 + bit_length(value / 2)
    }
}

/// The number of binary digits of a value.
pub fn bit_length_u64(value: u64) -> (length: i32)
    ensures
        length == bit_length(value as nat),
        0 <= length <= 64,
{
    let mut rest: u64 = value;
    let mut length: i32 = 0;
    proof {
        vstd::arithmetic::power2::lemma2_to64();
        vstd::arithmetic::power2::lemma2_to64_rest();
    }
    assert(rest < vstd::arithmetic::power2::pow2(64));
    while rest != 0
        invariant
            0 <= length <= 64,
            length + bit_length(rest as nat) == bit_length(value as nat),
            rest < vstd::arithmetic::power2::pow2((64 - length) as nat),
        decreases rest,
    {
        proof {
            vstd::arithmetic::power2::lemma2_to64();
            if length == 64 {
                assert(false);
            }
            crate::math::lemma_pow2_step((63 - length) as nat);
        }
        rest = rest / 2;
        length += 1;
    }
    length
}

/// An alphabet whose frequencies follow the symbols that are coded.
#[derive(Debug)]
pub struct AdaptiveModel {
    frequencies: Vec<u16>,
    fenwick: Vec<u32>,
    total: u32,
    increment: u16,
}

impl View for AdaptiveModel {
    type V = Model;

    closed spec fn view(&self) -> Model {
        Model { frequencies: self.frequencies@, increment: self.increment }
    }
}

impl AdaptiveModel {
    #[verifier::type_invariant]
    spec fn sound(self) -> bool {
        &&& self.frequencies@.len() <= 0xffff
        &&& self.frequencies@.len() > 0 ==> tree_fits(self.frequencies@, self.fenwick@)
        &&& self.total == sum_to(self.frequencies@, self.frequencies@.len())
    }

    fn from_frequencies(frequencies: Vec<u16>, increment: u16) -> (model: AdaptiveModel)
        requires
            0 < frequencies@.len() <= 0xffff,
        ensures
            model@ == (Model { frequencies: frequencies@, increment }),
    {
        let fenwick = build_tree(&frequencies);
        let ghost all = frequencies@;
        proof {
            lemma_sum_bound(all, all.len());
        }
        let total = prefix_sum(&fenwick, frequencies.len(), Ghost(all));
        AdaptiveModel { frequencies, fenwick, total, increment }
    }

    /// A model in which every symbol has frequency one.
    pub fn new(symbols: usize) -> (result: Result<AdaptiveModel, DzFault>)
        ensures
            match result {
                Ok(model) => 0 < symbols <= 0xffff && model@ == uniform(
                    symbols as nat,
                    MODEL_INCREMENT,
                ),
                Err(fault) => !(0 < symbols <= 0xffff) && fault == (DzFault::ModelSize {
                    symbols,
                }),
            },
    {
        AdaptiveModel::new_with_increment(symbols, MODEL_INCREMENT)
    }

    /// A model in which every symbol has frequency one, with an increment of its own.
    pub fn new_with_increment(symbols: usize, increment: u16) -> (result: Result<
        AdaptiveModel,
        DzFault,
    >)
        ensures
            match result {
                Ok(model) => 0 < symbols <= 0xffff && model@ == uniform(symbols as nat, increment),
                Err(fault) => !(0 < symbols <= 0xffff) && fault == (DzFault::ModelSize {
                    symbols,
                }),
            },
    {
        if symbols == 0 || symbols > 0xffff {
            return Err(DzFault::ModelSize { symbols });
        }
        let frequencies: Vec<u16> = vec![1; symbols];
        assert(frequencies@ =~= uniform(symbols as nat, increment).frequencies);
        Ok(AdaptiveModel::from_frequencies(frequencies, increment))
    }

    /// A model of recorded frequencies.
    pub fn from_normalized(frequencies: &[u8]) -> (result: Result<AdaptiveModel, DzFault>)
        requires
            frequencies@.len() <= 0xffff,
        ensures
            match result {
                Ok(model) => frequencies@.len() > 0 && model@ == recorded(
                    frequencies@,
                    MODEL_INCREMENT,
                ),
                Err(fault) => frequencies@.len() == 0 && fault == DzFault::EmptyTable,
            },
    {
        AdaptiveModel::from_normalized_with_increment(frequencies, MODEL_INCREMENT)
    }

    /// A model of recorded frequencies, with an increment of its own.
    pub fn from_normalized_with_increment(frequencies: &[u8], increment: u16) -> (result: Result<
        AdaptiveModel,
        DzFault,
    >)
        requires
            frequencies@.len() <= 0xffff,
        ensures
            match result {
                Ok(model) => frequencies@.len() > 0 && model@ == recorded(frequencies@, increment),
                Err(fault) => frequencies@.len() == 0 && fault == DzFault::EmptyTable,
            },
    {
        if frequencies.len() == 0 {
            return Err(DzFault::EmptyTable);
        }
        let mut values: Vec<u16> = Vec::with_capacity(frequencies.len());
        let mut i: usize = 0;
        while i < frequencies.len()
            invariant
                i <= frequencies@.len(),
                values@ == recorded(frequencies@, increment).frequencies.take(i as int),
            decreases frequencies@.len() - i,
        {
            let frequency: u16 = frequencies[i] as u16;
            values.push(
                if frequency == 0 {
                    1
                } else {
                    frequency
                },
            );
            i += 1;
            assert(values@ =~= recorded(frequencies@, increment).frequencies.take(i as int));
        }
        assert(values@ =~= recorded(frequencies@, increment).frequencies);
        Ok(AdaptiveModel::from_frequencies(values, increment))
    }

    /// A model with the same frequencies.
    pub fn duplicate(&self) -> (model: AdaptiveModel)
        ensures
            model@ == self@,
    {
        proof {
            use_type_invariant(&*self);
        }
        let mut frequencies: Vec<u16> = Vec::with_capacity(self.frequencies.len());
        frequencies.extend_from_slice(self.frequencies.as_slice());
        assert(frequencies@ =~= self.frequencies@);
        let mut fenwick: Vec<u32> = Vec::with_capacity(self.fenwick.len());
        fenwick.extend_from_slice(self.fenwick.as_slice());
        assert(fenwick@ =~= self.fenwick@);
        AdaptiveModel { frequencies, fenwick, total: self.total, increment: self.increment }
    }

    /// The size of the alphabet.
    pub fn symbol_count(&self) -> (count: usize)
        ensures
            count == self@.frequencies.len(),
            count <= 0xffff,
    {
        proof {
            use_type_invariant(&*self);
        }
        self.frequencies.len()
    }

    /// The sum of all frequencies.
    pub fn total(&self) -> (total: u32)
        ensures
            total == self@.total(),
    {
        proof {
            use_type_invariant(&*self);
        }
        self.total
    }

    /// About how many bits a symbol takes.
    pub fn estimated_cost(&self, symbol: usize) -> (result: Result<i32, DzFault>)
        ensures
            match result {
                Ok(cost) => symbol < self@.frequencies.len() && cost == (if self@.frequencies[symbol as int]
                    == 0 {
                    -1
                } else {
                    bit_length((self@.total() / 2) as nat) - bit_length(
                        (self@.frequencies[symbol as int] / 2) as nat,
                    )
                }),
                Err(fault) => symbol >= self@.frequencies.len() && fault == (
                DzFault::SymbolOutsideModel {
                    symbol,
                    symbols: self@.frequencies.len() as usize,
                }),
            },
    {
        proof {
            use_type_invariant(&*self);
        }
        if symbol >= self.frequencies.len() {
            return Err(DzFault::SymbolOutsideModel { symbol, symbols: self.frequencies.len() });
        }
        let frequency: u16 = self.frequencies[symbol];
        if frequency == 0 {
            return Ok(-1);
        }
        Ok(bit_length_u64((self.total / 2) as u64) - bit_length_u64((frequency / 2) as u64))
    }

    /// Where the interval of a symbol begins and how wide it is.
    pub fn interval(&self, symbol: usize) -> (result: Result<(u32, u32), DzFault>)
        ensures
            match result {
                Ok((before, frequency)) => {
                    &&& symbol < self@.frequencies.len()
                    &&& before == self@.before(symbol as int)
                    &&& frequency == self@.frequencies[symbol as int]
                },
                Err(fault) => symbol >= self@.frequencies.len() && fault == (
                DzFault::SymbolOutsideModel {
                    symbol,
                    symbols: self@.frequencies.len() as usize,
                }),
            },
    {
        proof {
            use_type_invariant(&*self);
        }
        if symbol >= self.frequencies.len() {
            return Err(DzFault::SymbolOutsideModel { symbol, symbols: self.frequencies.len() });
        }
        Ok(
            (
                prefix_sum(&self.fenwick, symbol, Ghost(self.frequencies@)),
                self.frequencies[symbol] as u32,
            ),
        )
    }

    /// The symbol whose interval holds a count, where the interval begins and how wide it is.
    pub fn symbol_for_count(&self, count: u32) -> (result: Result<(usize, u32, u32), DzFault>)
        ensures
            match result {
                Ok((symbol, before, frequency)) => {
                    &&& count < self@.total()
                    &&& symbol == symbol_of(self@.frequencies, count as int, 0)
                    &&& symbol < self@.frequencies.len()
                    &&& before == self@.before(symbol as int)
                    &&& frequency == self@.frequencies[symbol as int]
                    &&& before <= count < before + frequency
                },
                Err(fault) => count >= self@.total() && fault == (DzFault::RangeCount {
                    count: count as usize,
                    total: self@.total() as usize,
                }),
            },
    {
        proof {
            use_type_invariant(&*self);
        }
        if count >= self.total {
            return Err(DzFault::RangeCount { count: count as usize, total: self.total as usize });
        }
        let (symbol, before) = find_symbol(&self.fenwick, count, Ghost(self.frequencies@));
        Ok((symbol, before, self.frequencies[symbol] as u32))
    }

    /// Lets the frequency of a symbol grow.
    pub fn update(&mut self, symbol: usize)
        requires
            symbol < old(self)@.frequencies.len(),
        ensures
            final(self)@ == old(self)@.updated(symbol as int),
    {
        proof {
            use_type_invariant(&*self);
        }
        let ghost before = self@;
        let ghost all = self.frequencies@;
        let increment: u16 = self.increment;
        let grown: u32 = self.frequencies[symbol] as u32 + increment as u32;
        proof {
            lemma_sum_bound(all, all.len());
        }
        let next_total: u32 = self.total + increment as u32;
        if next_total > MODEL_MAX_TOTAL || grown > 0xffff {
            let count: usize = self.frequencies.len();
            let mut frequencies: Vec<u16> = Vec::with_capacity(count);
            let wrapped: u16 = (grown % 0x1_0000) as u16;
            let ghost plain = all.update(symbol as int, wrapped);
            let mut i: usize = 0;
            while i < count
                invariant
                    i <= count == self.frequencies@.len(),
                    self.frequencies@ == all,
                    symbol < all.len(),
                    plain == all.update(symbol as int, wrapped),
                    frequencies@ == halved(plain).take(i as int),
                decreases count - i,
            {
                let value: u16 = if i == symbol {
                    wrapped
                } else {
                    self.frequencies[i]
                };
                frequencies.push(value - value / 2);
                i += 1;
                assert(frequencies@ =~= halved(plain).take(i as int));
            }
            assert(frequencies@ =~= halved(plain));
            *self = AdaptiveModel::from_frequencies(frequencies, increment);
        } else {
            let mut taken = AdaptiveModel {
                frequencies: Vec::new(),
                fenwick: Vec::new(),
                total: 0,
                increment,
            };
            core::mem::swap(self, &mut taken);
            let AdaptiveModel { mut frequencies, mut fenwick, .. } = taken;
            let ghost after = all.update(symbol as int, grown as u16);
            proof {
                lemma_sum_update(all, symbol as int, grown as u16, all.len());
                lemma_sum_bound(after, after.len());
            }
            frequencies.set(symbol, grown as u16);
            add_to_tree(&mut fenwick, symbol, increment as u32, Ghost(all), Ghost(after));
            assert(frequencies@ == after);
            *self = AdaptiveModel { frequencies, fenwick, total: next_total, increment };
        }
    }
}

/// Encodes symbols into bytes.
#[derive(Debug)]
pub struct RangeEncoder {
    output: Vec<u8>,
    low: u32,
    range: u32,
}

impl View for RangeEncoder {
    type V = Sender;

    closed spec fn view(&self) -> Sender {
        Sender {
            span: Span { low: self.low as int, range: self.range as int },
            sent: self.output@,
        }
    }
}

impl RangeEncoder {
    /// An encoder that has put nothing yet.
    pub fn new() -> (encoder: RangeEncoder)
        ensures
            encoder@ == first_sender(),
            encoder@.span.sound(),
            encoder@.span.settled(),
    {
        RangeEncoder::with_output(Vec::new())
    }

    /// An encoder that writes into the storage of an earlier output.
    pub fn with_output(output: Vec<u8>) -> (encoder: RangeEncoder)
        ensures
            encoder@ == first_sender(),
            encoder@.span.sound(),
            encoder@.span.settled(),
    {
        let mut output = output;
        output.clear();
        assert(output@ =~= seq![]);
        RangeEncoder { output, low: 0, range: 0xffff_ffff }
    }

    /// Encodes one symbol.
    pub fn encode(&mut self, model: &mut AdaptiveModel, symbol: usize) -> (result: Result<
        (),
        DzFault,
    >)
        requires
            old(self)@.span.sound(),
            old(self)@.span.settled(),
        ensures
            symbol >= old(model)@.frequencies.len() ==> result == Err::<(), DzFault>(
                DzFault::SymbolOutsideModel {
                    symbol,
                    symbols: old(model)@.frequencies.len() as usize,
                },
            ),
            symbol < old(model)@.frequencies.len() ==> match put_symbol(
                old(self)@,
                old(model)@,
                symbol as int,
            ) {
                Ok((sender, after)) => {
                    &&& result is Ok
                    &&& final(self)@ == sender
                    &&& final(model)@ == after
                    &&& after.frequencies.len() == old(model)@.frequencies.len()
                    &&& sender.span.sound()
                    &&& sender.span.settled()
                },
                Err(fault) => result == Err::<(), DzFault>(fault),
            },
    {
        let (before, frequency) = match model.interval(symbol) {
            Ok(interval) => interval,
            Err(fault) => return Err(fault),
        };
        let total: u32 = model.total();
        proof {
            reveal(put_symbol);
        }
        if total == 0 || self.range / total == 0 || frequency == 0 {
            return Err(DzFault::Collapsed);
        }
        let unit: u32 = self.range / total;
        let ghost inner = narrowed(self@.span, model@, symbol as int);
        proof {
            lemma_narrowed(self@.span, model@, symbol as int);
            lemma_settle(Sender { span: inner, sent: self@.sent });
            assert(unit * before == inner.low - self.low);
            assert(unit * frequency == inner.range);
        }
        self.low = self.low + unit * before;
        self.range = unit * frequency;
        self.renormalize();
        model.update(symbol);
        Ok(())
    }

    /// Lets the certain bytes out.
    fn renormalize(&mut self)
        requires
            old(self)@.span.sound(),
        ensures
            final(self)@ == settle(old(self)@),
    {
        let ghost whole = settle(self@);
        while self.low / 0x100_0000 == self.low.wrapping_add(self.range) / 0x100_0000 || self.range
            < 0x1_0000
            invariant
                self@.span.sound(),
                whole == settle(self@),
            ensures
                whole == self@,
            decreases self@.span.measure(),
        {
            let ghost before = self@;
            proof {
                lemma_shifted(before.span);
            }
            if self.low / 0x100_0000 != self.low.wrapping_add(self.range) / 0x100_0000 {
                self.range = (0x1_0000 - self.low % 0x1_0000) % 0x1_0000;
            }
            self.output.push((self.low / 0x100_0000) as u8);
            self.low = (self.low % 0x100_0000) * 0x100;
            self.range = self.range * 0x100;
            assert(self@ == pushed(before));
        }
    }

    /// The whole stream.
    pub fn finish(self) -> (output: Vec<u8>)
        requires
            self@.span.sound(),
            self@.span.settled(),
        ensures
            output@ == finished(self@),
    {
        let ghost span = self@.span;
        let ghost sent = self@.sent;
        let low: u32 = self.low;
        let range: u32 = self.range;
        let mut output = self.output;
        let midpoint: u32 = low + range / 2;
        let count: usize = count_tail(low, range);
        output.push((midpoint / 0x100_0000) as u8);
        if count >= 2 {
            output.push((midpoint / 0x1_0000 % 0x100) as u8);
        }
        if count >= 3 {
            output.push((midpoint / 0x100 % 0x100) as u8);
        }
        if count >= 4 {
            output.push((midpoint % 0x100) as u8);
        }
        assert(output@ =~= finished(Sender { span, sent }));
        output
    }
}

/// The number of bytes that end a stream with the given interval.
fn count_tail(low: u32, range: u32) -> (count: usize)
    requires
        (Span { low: low as int, range: range as int }).sound(),
    ensures
        count == tail_size(Span { low: low as int, range: range as int }),
{
    let midpoint: u32 = low + range / 2;
    let high: u32 = low + (range - 1);
    if midpoint / 0x100_0000 != low / 0x100_0000 && midpoint / 0x100_0000 != high / 0x100_0000 {
        1
    } else if midpoint / 0x1_0000 != low / 0x1_0000 && midpoint / 0x1_0000 != high / 0x1_0000 {
        2
    } else if midpoint / 0x100 != low / 0x100 && midpoint / 0x100 != high / 0x100 {
        3
    } else {
        4
    }
}

/// Decodes symbols from bytes.
pub struct RangeDecoder<'a> {
    input: &'a [u8],
    position: usize,
    low: u32,
    code: u32,
    range: u32,
    shifts: Ghost<nat>,
}

impl<'a> View for RangeDecoder<'a> {
    type V = Taker;

    closed spec fn view(&self) -> Taker {
        Taker {
            span: Span { low: self.low as int, range: self.range as int },
            shifts: self.shifts@,
        }
    }
}

impl<'a> RangeDecoder<'a> {
    pub closed spec fn data(&self) -> Seq<u8> {
        self.input@
    }

    pub open spec fn sound(&self) -> bool {
        self@.span.sound() && self.in_step()
    }

    /// The decoder has looked at the bytes that its interval asks for.
    pub closed spec fn in_step(&self) -> bool {
        &&& self.position == looked_at(self@)
        &&& self.code == window(self.input@, self@.shifts as int)
    }

    /// A decoder at the start of the input.
    pub fn new(input: &'a [u8]) -> (decoder: RangeDecoder<'a>)
        ensures
            decoder.data() == input@,
            decoder@ == first_taker(),
            decoder.sound(),
            decoder@.span.settled(),
    {
        let mut decoder = RangeDecoder {
            input,
            position: 0,
            low: 0,
            code: 0,
            range: 0xffff_ffff,
            shifts: Ghost(0),
        };
        let a: u32 = decoder.read_byte() as u32;
        let b: u32 = decoder.read_byte() as u32;
        let c: u32 = decoder.read_byte() as u32;
        let d: u32 = decoder.read_byte() as u32;
        decoder.code = a * 0x100_0000 + b * 0x1_0000 + c * 0x100 + d;
        decoder
    }

    /// The next byte, or ones behind the end of the input.
    fn read_byte(&mut self) -> (value: u8)
        ensures
            value == byte_at(old(self).input@, old(self).position as int),
            final(self).position == (if old(self).position < usize::MAX {
                (old(self).position + 1) as usize
            } else {
                usize::MAX
            }),
            final(self).input == old(self).input,
            final(self)@ == old(self)@,
            final(self).code == old(self).code,
    {
        let value: u8 = if self.position < self.input.len() {
            self.input[self.position]
        } else {
            0xff
        };
        if self.position < usize::MAX {
            self.position = self.position + 1;
        }
        value
    }

    /// Decodes one symbol.
    pub fn decode(&mut self, model: &mut AdaptiveModel) -> (result: Result<usize, DzFault>)
        requires
            old(self).sound(),
            old(self)@.span.settled(),
        ensures
            final(self).data() == old(self).data(),
            match get_symbol(old(self).data(), old(self)@, old(model)@) {
                Ok((symbol, taker, after)) => {
                    &&& result matches Ok(value) && value == symbol
                    &&& symbol < old(model)@.frequencies.len()
                    &&& final(self)@ == taker
                    &&& final(self).sound()
                    &&& taker.span.settled()
                    &&& final(model)@ == after
                    &&& after.frequencies.len() == old(model)@.frequencies.len()
                },
                Err(fault) => result == Err::<usize, DzFault>(fault),
            },
    {
        proof {
            reveal(get_symbol);
            lemma_window_step(self.input@, self@.shifts as int);
        }
        let total: u32 = model.total();
        if total == 0 || self.range / total == 0 {
            return Err(DzFault::Collapsed);
        }
        let unit: u32 = self.range / total;
        let count: u32 = self.code.wrapping_sub(self.low) / unit;
        assert(self.code.wrapping_sub(self.low) == (self.code - self.low) % 0x1_0000_0000);
        let (symbol, before, frequency) = match model.symbol_for_count(count) {
            Ok(found) => found,
            Err(fault) => return Err(fault),
        };
        let ghost inner = narrowed(self@.span, model@, symbol as int);
        proof {
            lemma_narrowed(self@.span, model@, symbol as int);
            lemma_settle_taker(Taker { span: inner, shifts: self@.shifts });
            assert(unit * before == inner.low - self.low);
            assert(unit * frequency == inner.range);
        }
        self.low = self.low + unit * before;
        self.range = unit * frequency;
        model.update(symbol);
        self.renormalize();
        Ok(symbol)
    }

    /// How many bytes have been looked at.
    pub fn consumed(&self) -> (count: usize)
        requires
            self.sound(),
        ensures
            count == looked_at(self@),
    {
        self.position
    }

    /// Where the stream ends that ends with the symbol decoded last.
    ///
    /// The decoder looks up to four bytes ahead; those that do not belong to the shortest
    /// beginning of the middle of the interval belong to what follows.
    pub fn finished_position(&self) -> (position: usize)
        requires
            self.sound(),
        ensures
            position == end_position(self@),
    {
        let spare: usize = 4 - count_tail(self.low, self.range);
        if self.position >= spare {
            self.position - spare
        } else {
            0
        }
    }

    /// Takes in bytes until the interval is wide enough.
    fn renormalize(&mut self)
        requires
            old(self).sound(),
        ensures
            final(self).sound(),
            final(self)@ == settle_taker(old(self)@),
            final(self).data() == old(self).data(),
    {
        let ghost whole = settle_taker(self@);
        while self.low / 0x100_0000 == self.low.wrapping_add(self.range) / 0x100_0000 || self.range
            < 0x1_0000
            invariant
                self.sound(),
                self.data() == old(self).data(),
                whole == settle_taker(self@),
            ensures
                whole == self@,
            decreases self@.span.measure(),
        {
            let ghost before = self@;
            let size: usize = self.input.len();
            proof {
                lemma_shifted(before.span);
                assert(size <= usize::MAX);
                lemma_window_step(self.input@, before.shifts as int);
            }
            if self.low / 0x100_0000 != self.low.wrapping_add(self.range) / 0x100_0000 {
                self.range = (0x1_0000 - self.low % 0x1_0000) % 0x1_0000;
            }
            self.range = self.range * 0x100;
            let next: u8 = self.read_byte();
            self.code = (self.code % 0x100_0000) * 0x100 + next as u32;
            self.low = (self.low % 0x100_0000) * 0x100;
            self.shifts = Ghost((before.shifts + 1) as nat);
            assert(self@ == (Taker { span: before.span.shifted(), shifts: before.shifts + 1 }));
        }
    }
}

} // verus!
