//! The adaptive frequency model and the carryless range coder as mathematics.

use vstd::prelude::*;

use crate::codecs::dz::fault::DzFault;
use crate::codecs::dz::fenwick::{
    lemma_sum_bound, lemma_sum_monotonic, lemma_sum_update, lemma_symbol_of, sum_to, symbol_of,
};

verus! {

/// The frequencies of an alphabet and the amount a coded symbol gains.
#[verifier::ext_equal]
pub struct Model {
    pub frequencies: Seq<u16>,
    pub increment: u16,
}

impl Model {
    pub open spec fn total(self) -> int {
        sum_to(self.frequencies, self.frequencies.len())
    }

    /// The sum of the frequencies before a symbol.
    pub open spec fn before(self, symbol: int) -> int {
        sum_to(self.frequencies, symbol as nat)
    }

    /// The model after a symbol was coded: the symbol's frequency grows, and all frequencies are
    /// halved once their total passes 65536.
    pub open spec fn updated(self, symbol: int) -> Model {
        let grown = self.frequencies[symbol] + self.increment;
        let frequencies = self.frequencies.update(symbol, (grown % 0x1_0000) as u16);
        Model {
            frequencies: if self.total() + self.increment > 0x1_0000 || grown > 0xffff {
                halved(frequencies)
            } else {
                frequencies
            },
            increment: self.increment,
        }
    }

    /// Every symbol keeps a positive frequency, now and after any number of updates.
    pub open spec fn lively(self) -> bool {
        &&& self.increment + 2 <= self.frequencies.len()
        &&& self.increment + self.frequencies.len() <= 0x1_0000
        &&& self.total() <= 0x1_0000
        &&& forall|i: int|
            0 <= i < self.frequencies.len() ==> #[trigger] self.frequencies[i] >= 1
    }
}

/// Half of every frequency, rounded up.
pub open spec fn halved(frequencies: Seq<u16>) -> Seq<u16> {
    Seq::new(frequencies.len(), |i: int| (frequencies[i] - frequencies[i] / 2) as u16)
}

/// A model in which every symbol has frequency one.
pub open spec fn uniform(symbols: nat, increment: u16) -> Model {
    Model { frequencies: Seq::new(symbols, |i: int| 1u16), increment }
}

/// A model of recorded frequencies, in which zero counts as one.
pub open spec fn recorded(frequencies: Seq<u8>, increment: u16) -> Model {
    Model {
        frequencies: Seq::new(
            frequencies.len(),
            |i: int|
                if frequencies[i] == 0 {
                    1u16
                } else {
                    frequencies[i] as u16
                },
        ),
        increment,
    }
}

proof fn lemma_uniform_sum(symbols: nat, n: nat)
    requires
        n <= symbols,
    ensures
        sum_to(Seq::new(symbols, |i: int| 1u16), n) == n,
    decreases n,
{
    if n > 0 {
        lemma_uniform_sum(symbols, (n - 1) as nat);
    }
}

pub proof fn lemma_uniform_lively(symbols: nat, increment: u16)
    requires
        increment + 2 <= symbols,
        increment + symbols <= 0x1_0000,
    ensures
        uniform(symbols, increment).lively(),
{
    lemma_uniform_sum(symbols, symbols);
}

proof fn lemma_halved_sum(frequencies: Seq<u16>, n: nat)
    requires
        n <= frequencies.len(),
    ensures
        2 * sum_to(halved(frequencies), n) <= sum_to(frequencies, n) + n,
    decreases n,
{
    if n > 0 {
        lemma_halved_sum(frequencies, (n - 1) as nat);
    }
}

proof fn lemma_others(frequencies: Seq<u16>, symbol: int, n: nat)
    requires
        0 <= symbol < n <= frequencies.len(),
        forall|i: int| 0 <= i < frequencies.len() ==> #[trigger] frequencies[i] >= 1,
    ensures
        frequencies[symbol] + n - 1 <= sum_to(frequencies, n),
    decreases n,
{
    if symbol < n - 1 {
        lemma_others(frequencies, symbol, (n - 1) as nat);
    } else {
        lemma_at_least(frequencies, (n - 1) as nat);
    }
}

proof fn lemma_at_least(frequencies: Seq<u16>, n: nat)
    requires
        n <= frequencies.len(),
        forall|i: int| 0 <= i < frequencies.len() ==> #[trigger] frequencies[i] >= 1,
    ensures
        n <= sum_to(frequencies, n),
    decreases n,
{
    if n > 0 {
        lemma_at_least(frequencies, (n - 1) as nat);
    }
}

/// A lively model stays lively.
pub proof fn lemma_stays_lively(model: Model, symbol: int)
    requires
        model.lively(),
        0 <= symbol < model.frequencies.len(),
    ensures
        model.updated(symbol).lively(),
        model.updated(symbol).frequencies.len() == model.frequencies.len(),
{
    let n = model.frequencies.len();
    lemma_others(model.frequencies, symbol, n);
    let grown = model.frequencies[symbol] + model.increment;
    let frequencies = model.frequencies.update(symbol, (grown % 0x1_0000) as u16);
    lemma_sum_update(model.frequencies, symbol, grown as u16, n);
    lemma_halved_sum(frequencies, n);
    assert(forall|i: int| 0 <= i < n ==> #[trigger] frequencies[i] >= 1);
}

/// The interval of the coder: where it begins and how wide it is.
pub struct Span {
    pub low: int,
    pub range: int,
}

impl Span {
    pub open spec fn sound(self) -> bool {
        &&& 0 <= self.low < 0x1_0000_0000
        &&& 0 < self.range <= 0x1_0000_0000
        &&& self.low + self.range <= 0x1_0000_0000
        &&& self.low + self.range == 0x1_0000_0000 ==> self.low >= 0x100_0000
    }

    /// Both ends begin with the same byte.
    pub open spec fn stable(self) -> bool {
        self.low / 0x100_0000 == ((self.low + self.range) % 0x1_0000_0000) / 0x100_0000
    }

    /// The width that ends the interval at the next multiple of 65536.
    pub open spec fn cut(self) -> int {
        (0x1_0000 - self.low % 0x1_0000) % 0x1_0000
    }

    pub open spec fn settled(self) -> bool {
        !self.stable() && self.range >= 0x1_0000
    }

    /// The interval without its first byte.
    pub open spec fn shifted(self) -> Span {
        Span {
            low: (self.low % 0x100_0000) * 0x100,
            range: (if self.stable() {
                self.range
            } else {
                self.cut()
            }) * 0x100,
        }
    }

    pub open spec fn measure(self) -> int {
        (if (self.low + self.range) % 0x1_0000 == 0 {
            0int
        } else {
            0x2_0000_0000
        }) + 0x1_0000_0000 - self.range
    }
}

pub proof fn lemma_shifted(span: Span)
    requires
        span.sound(),
        !span.settled(),
    ensures
        span.shifted().sound(),
        0 <= span.shifted().measure() < span.measure(),
        span.shifted().range % 0x100 == 0,
        0 < (if span.stable() {
            span.range
        } else {
            span.cut()
        }) <= 0x100_0000 - span.low % 0x100_0000,
        !span.stable() ==> span.cut() <= span.range,
{
    let low = span.low;
    let range = span.range;
    if span.stable() {
        if low + range == 0x1_0000_0000 {
            assert(false);
        }
        assert(low / 0x100_0000 == (low + range) / 0x100_0000);
        assert(low % 0x100_0000 + range < 0x100_0000);
        let l = low % 0x100_0000;
        assert((l * 0x100 + range * 0x100) % 0x1_0000 == ((l + range) % 0x100) * 0x100);
        assert((low + range) % 0x1_0000 == (l + range) % 0x1_0000);
        if (low + range) % 0x1_0000 == 0 {
            assert((l + range) % 0x100 == 0);
        }
        assert(span.shifted().low + span.shifted().range < 0x1_0000_0000);
    } else {
        assert(range < 0x1_0000);
        let l = low % 0x1_0000;
        if low + range == 0x1_0000_0000 {
            assert(low / 0x100_0000 == 0xff);
            assert(low >= 0xffff_0000);
            assert(low / 0x1_0000 == 0xffff);
            assert(l + range == 0x1_0000);
        } else {
            assert(low / 0x100_0000 != (low + range) / 0x100_0000);
            if l == 0 {
                assert(low / 0x1_0000 == (low + range) / 0x1_0000);
                assert((low / 0x1_0000) / 0x100 == ((low + range) / 0x1_0000) / 0x100);
                assert(false);
            }
            if l + range < 0x1_0000 {
                assert(low / 0x1_0000 == (low + range) / 0x1_0000);
                assert((low / 0x1_0000) / 0x100 == ((low + range) / 0x1_0000) / 0x100);
                assert(false);
            }
        }
        assert(l > 0);
        assert(span.cut() == 0x1_0000 - l);
        assert(span.cut() <= range);
        let m = low % 0x100_0000;
        assert(m / 0x1_0000 == 0xff) by {
            // The interval crosses a multiple of 0x100_0000 within its 65535 values.
            if m + range < 0x100_0000 {
                assert(low / 0x100_0000 == (low + range) / 0x100_0000);
            }
        }
        assert(m == 0xff_0000 + l);
        assert(m * 0x100 + span.cut() * 0x100 == 0x1_0000_0000);
    }
}

/// An interval with the bytes that have left it.
#[verifier::ext_equal]
pub struct Sender {
    pub span: Span,
    pub sent: Seq<u8>,
}

/// Lets the bytes that are certain leave the interval.
pub open spec fn settle(sender: Sender) -> Sender
    decreases sender.span.measure(),
    when sender.span.sound()
    via settle_ends
{
    if sender.span.settled() {
        sender
    } else {
        settle(pushed(sender))
    }
}

/// One byte leaves the interval.
pub open spec fn pushed(sender: Sender) -> Sender {
    Sender {
        span: sender.span.shifted(),
        sent: sender.sent.push((sender.span.low / 0x100_0000) as u8),
    }
}

#[via_fn]
proof fn settle_ends(sender: Sender) {
    if !sender.span.settled() {
        lemma_shifted(sender.span);
    }
}

/// Where a decoder stands: its interval and the number of bytes it has left behind.
pub struct Taker {
    pub span: Span,
    pub shifts: nat,
}

/// A byte of the input, which is continued by bytes of ones.
pub open spec fn byte_at(data: Seq<u8>, i: int) -> int {
    if 0 <= i < data.len() {
        data[i] as int
    } else {
        0xff
    }
}

/// The four bytes from `k` on as a number.
pub open spec fn window(data: Seq<u8>, k: int) -> int {
    byte_at(data, k) * 0x100_0000 + byte_at(data, k + 1) * 0x1_0000 + byte_at(data, k + 2) * 0x100
        + byte_at(data, k + 3)
}

/// The taker that follows a sender.
pub open spec fn taker_of(sender: Sender) -> Taker {
    Taker { span: sender.span, shifts: sender.sent.len() }
}

pub open spec fn settle_taker(taker: Taker) -> Taker
    decreases taker.span.measure(),
    when taker.span.sound()
    via settle_taker_ends
{
    if taker.span.settled() {
        taker
    } else {
        settle_taker(Taker { span: taker.span.shifted(), shifts: taker.shifts + 1 })
    }
}

#[via_fn]
proof fn settle_taker_ends(taker: Taker) {
    if !taker.span.settled() {
        lemma_shifted(taker.span);
    }
}

/// The interval a coder starts with.
pub open spec fn full_span() -> Span {
    Span { low: 0, range: 0xffff_ffff }
}

pub open spec fn first_sender() -> Sender {
    Sender { span: full_span(), sent: seq![] }
}

pub open spec fn first_taker() -> Taker {
    Taker { span: full_span(), shifts: 0 }
}

/// The part of an interval that belongs to a symbol.
pub open spec fn narrowed(span: Span, model: Model, symbol: int) -> Span {
    let unit = span.range / model.total();
    Span {
        low: span.low + unit * model.before(symbol),
        range: unit * model.frequencies[symbol],
    }
}

/// Encodes one symbol.
#[verifier::opaque]
pub open spec fn put_symbol(sender: Sender, model: Model, symbol: int) -> Result<
    (Sender, Model),
    DzFault,
> {
    if model.total() == 0 || sender.span.range / model.total() == 0 || model.frequencies[symbol]
        == 0 {
        Err(DzFault::Collapsed)
    } else {
        Ok(
            (
                settle(Sender { span: narrowed(sender.span, model, symbol), sent: sender.sent }),
                model.updated(symbol),
            ),
        )
    }
}

/// Decodes one symbol.
#[verifier::opaque]
pub open spec fn get_symbol(data: Seq<u8>, taker: Taker, model: Model) -> Result<
    (int, Taker, Model),
    DzFault,
> {
    let total = model.total();
    if total == 0 || taker.span.range / total == 0 {
        Err(DzFault::Collapsed)
    } else {
        let unit = taker.span.range / total;
        let code = window(data, taker.shifts as int);
        let count = ((code - taker.span.low) % 0x1_0000_0000) / unit;
        if count >= total {
            Err(DzFault::RangeCount { count: count as usize, total: total as usize })
        } else {
            let symbol = symbol_of(model.frequencies, count, 0);
            Ok(
                (
                    symbol,
                    settle_taker(
                        Taker {
                            span: narrowed(taker.span, model, symbol),
                            shifts: taker.shifts,
                        },
                    ),
                    model.updated(symbol),
                ),
            )
        }
    }
}

/// The data begin with what was sent, and go on inside the interval.
pub open spec fn fits(data: Seq<u8>, sender: Sender) -> bool {
    &&& forall|i: int| 0 <= i < sender.sent.len() ==> #[trigger] byte_at(data, i) == sender.sent[i]
    &&& sender.span.low <= window(data, sender.sent.len() as int) < sender.span.low
        + sender.span.range
}

pub proof fn lemma_byte_bound(data: Seq<u8>, i: int)
    ensures
        0 <= byte_at(data, i) <= 0xff,
{
}

pub proof fn lemma_window_step(data: Seq<u8>, k: int)
    ensures
        window(data, k + 1) == (window(data, k) % 0x100_0000) * 0x100 + byte_at(data, k + 4),
        window(data, k) / 0x100_0000 == byte_at(data, k),
        0 <= window(data, k) < 0x1_0000_0000,
{
}

proof fn lemma_fits_pushed(data: Seq<u8>, sender: Sender)
    requires
        sender.span.sound(),
        !sender.span.settled(),
        fits(data, pushed(sender)),
    ensures
        fits(data, sender),
{
    lemma_shifted(sender.span);
    let next = pushed(sender);
    let k = sender.sent.len() as int;
    lemma_window_step(data, k);
    assert(byte_at(data, k) == next.sent[k]);
    assert forall|i: int| 0 <= i < sender.sent.len() implies #[trigger] byte_at(data, i)
        == sender.sent[i] by {
        assert(next.sent[i] == sender.sent[i]);
        assert(byte_at(data, i) == next.sent[i]);
    }
    let low = sender.span.low;
    let w = window(data, k);
    let width = if sender.span.stable() {
        sender.span.range
    } else {
        sender.span.cut()
    };
    assert(w / 0x100_0000 == low / 0x100_0000);
    assert((low % 0x100_0000) * 0x100 <= (w % 0x100_0000) * 0x100 + byte_at(data, k + 4));
    assert(low % 0x100_0000 <= w % 0x100_0000);
    assert(w % 0x100_0000 < low % 0x100_0000 + width);
}

pub proof fn lemma_settle(sender: Sender)
    requires
        sender.span.sound(),
    ensures
        settle(sender).span.sound(),
        settle(sender).span.settled(),
        taker_of(settle(sender)) == settle_taker(taker_of(sender)),
    decreases sender.span.measure(),
{
    if !sender.span.settled() {
        lemma_shifted(sender.span);
        lemma_settle(pushed(sender));
    }
}

pub proof fn lemma_settle_taker(taker: Taker)
    requires
        taker.span.sound(),
    ensures
        settle_taker(taker).span.sound(),
        settle_taker(taker).span.settled(),
    decreases taker.span.measure(),
{
    if !taker.span.settled() {
        lemma_shifted(taker.span);
        lemma_settle_taker(Taker { span: taker.span.shifted(), shifts: taker.shifts + 1 });
    }
}

pub proof fn lemma_fits_settled(data: Seq<u8>, sender: Sender)
    requires
        sender.span.sound(),
        fits(data, settle(sender)),
    ensures
        fits(data, sender),
    decreases sender.span.measure(),
{
    if !sender.span.settled() {
        lemma_shifted(sender.span);
        lemma_fits_settled(data, pushed(sender));
        lemma_fits_pushed(data, sender);
    }
}

/// A symbol's part of a settled interval is sound.
pub proof fn lemma_narrowed(span: Span, model: Model, symbol: int)
    requires
        span.sound(),
        span.settled(),
        0 <= symbol < model.frequencies.len(),
        model.total() > 0,
        span.range / model.total() > 0,
        model.frequencies[symbol] > 0,
    ensures
        narrowed(span, model, symbol).sound(),
        span.low <= narrowed(span, model, symbol).low,
        narrowed(span, model, symbol).low + narrowed(span, model, symbol).range <= span.low
            + span.range,
        0 <= model.before(symbol),
        model.before(symbol) + model.frequencies[symbol] <= model.total(),
{
    let n = model.frequencies.len();
    let unit = span.range / model.total();
    let before = model.before(symbol);
    let frequency = model.frequencies[symbol] as int;
    lemma_sum_monotonic(model.frequencies, 0, symbol as nat);
    lemma_sum_monotonic(model.frequencies, (symbol + 1) as nat, n);
    assert(before + frequency <= model.total());
    let total = model.total();
    vstd::arithmetic::div_mod::lemma_fundamental_div_mod(span.range, total);
    assert(unit * before >= 0) by (nonlinear_arith)
        requires
            unit > 0,
            before >= 0,
    ;
    assert(unit * frequency > 0) by (nonlinear_arith)
        requires
            unit > 0,
            frequency > 0,
    ;
    assert(unit * before + unit * frequency <= span.range) by (nonlinear_arith)
        requires
            unit > 0,
            before + frequency <= total,
            span.range >= total * unit,
    ;
}

/// Lemma for one symbol: what was put is what is got.
pub proof fn lemma_symbol_read_back(data: Seq<u8>, sender: Sender, model: Model, symbol: int)
    requires
        sender.span.sound(),
        sender.span.settled(),
        0 <= symbol < model.frequencies.len(),
        put_symbol(sender, model, symbol) is Ok,
        fits(data, put_symbol(sender, model, symbol)->Ok_0.0),
    ensures
        fits(data, sender),
        get_symbol(data, taker_of(sender), model) == Ok::<(int, Taker, Model), DzFault>(
            (
                symbol,
                taker_of(put_symbol(sender, model, symbol)->Ok_0.0),
                put_symbol(sender, model, symbol)->Ok_0.1,
            ),
        ),
        put_symbol(sender, model, symbol)->Ok_0.0.span.sound(),
        put_symbol(sender, model, symbol)->Ok_0.0.span.settled(),
{
    reveal(put_symbol);
    reveal(get_symbol);
    let span = sender.span;
    let n = model.frequencies.len();
    lemma_sum_bound(model.frequencies, n);
    let total = model.total();
    assert(total > 0);
    vstd::arithmetic::div_mod::lemma_div_pos_is_pos(span.range, total);
    let unit = span.range / total;
    assert(unit > 0);
    lemma_narrowed(span, model, symbol);
    let inner = narrowed(span, model, symbol);
    let middle = Sender { span: inner, sent: sender.sent };
    lemma_settle(middle);
    lemma_fits_settled(data, middle);
    let code = window(data, sender.sent.len() as int);
    let before = model.before(symbol);
    let frequency = model.frequencies[symbol] as int;
    let offset = code - span.low;
    assert(offset % 0x1_0000_0000 == offset);
    let count = offset / unit;
    assert(before <= count < before + frequency) by (nonlinear_arith)
        requires
            unit > 0,
            count == offset / unit,
            unit * before <= offset,
            offset < unit * before + unit * frequency,
    ;
    lemma_symbol_of(model.frequencies, count, 0, symbol);
    lemma_sum_monotonic(model.frequencies, (symbol + 1) as nat, n);
}

/// A put symbol leaves a sound, settled interval.
pub proof fn lemma_put_symbol(sender: Sender, model: Model, symbol: int)
    requires
        sender.span.sound(),
        sender.span.settled(),
        0 <= symbol < model.frequencies.len(),
    ensures
        put_symbol(sender, model, symbol) matches Ok((next, after)) ==> {
            &&& next.span.sound()
            &&& next.span.settled()
            &&& after == model.updated(symbol)
        },
        put_symbol(sender, model, symbol) matches Err(fault) ==> fault == DzFault::Collapsed,
        model.lively() ==> put_symbol(sender, model, symbol) is Ok
            && model.updated(symbol).lively(),
{
    reveal(put_symbol);
    lemma_sum_bound(model.frequencies, model.frequencies.len());
    if model.lively() {
        lemma_stays_lively(model, symbol);
        lemma_at_least(model.frequencies, model.frequencies.len());
        vstd::arithmetic::div_mod::lemma_div_non_zero(sender.span.range, model.total());
    }
    if put_symbol(sender, model, symbol) is Ok {
        vstd::arithmetic::div_mod::lemma_div_pos_is_pos(sender.span.range, model.total());
        lemma_narrowed(sender.span, model, symbol);
        lemma_settle(Sender { span: narrowed(sender.span, model, symbol), sent: sender.sent });
    }
}

/// A got symbol leaves a sound, settled interval.
pub proof fn lemma_get_symbol(data: Seq<u8>, taker: Taker, model: Model)
    requires
        taker.span.sound(),
        taker.span.settled(),
    ensures
        get_symbol(data, taker, model) matches Ok((symbol, next, after)) ==> {
            &&& next.span.sound()
            &&& next.span.settled()
            &&& 0 <= symbol < model.frequencies.len()
            &&& after == model.updated(symbol)
        },
{
    reveal(get_symbol);
    if get_symbol(data, taker, model) is Ok {
        let total = model.total();
        lemma_sum_bound(model.frequencies, model.frequencies.len());
        vstd::arithmetic::div_mod::lemma_div_pos_is_pos(taker.span.range, total);
        let unit = taker.span.range / total;
        let code = window(data, taker.shifts as int);
        let count = ((code - taker.span.low) % 0x1_0000_0000) / unit;
        vstd::arithmetic::div_mod::lemma_div_pos_is_pos(
            (code - taker.span.low) % 0x1_0000_0000,
            unit,
        );
        lemma_symbol_exists(model.frequencies, count, 0);
        let symbol = symbol_of(model.frequencies, count, 0);
        lemma_narrowed(taker.span, model, symbol);
        lemma_settle_taker(
            Taker { span: narrowed(taker.span, model, symbol), shifts: taker.shifts },
        );
    }
}

pub proof fn lemma_symbol_exists(frequencies: Seq<u16>, count: int, i: int)
    requires
        0 <= i <= frequencies.len(),
        sum_to(frequencies, i as nat) <= count < sum_to(frequencies, frequencies.len()),
    ensures
        i <= symbol_of(frequencies, count, i) < frequencies.len(),
        sum_to(frequencies, symbol_of(frequencies, count, i) as nat) <= count,
        count < sum_to(frequencies, (symbol_of(frequencies, count, i) + 1) as nat),
    decreases frequencies.len() - i,
{
    if i < frequencies.len() && sum_to(frequencies, (i + 1) as nat) <= count {
        lemma_symbol_exists(frequencies, count, i + 1);
    }
}

/// The middle of the interval.
pub open spec fn middle(span: Span) -> int {
    span.low + span.range / 2
}

/// A prefix of `n` bytes sets the middle of the interval apart from both of its ends.
pub open spec fn apart(span: Span, n: int) -> bool {
    let unit = if n <= 1 {
        0x100_0000int
    } else if n == 2 {
        0x1_0000
    } else if n == 3 {
        0x100
    } else {
        1
    };
    &&& middle(span) / unit != span.low / unit
    &&& middle(span) / unit != (span.low + span.range - 1) / unit
}

/// The number of bytes that end a stream.
pub open spec fn tail_size(span: Span) -> nat {
    if apart(span, 1) {
        1
    } else if apart(span, 2) {
        2
    } else if apart(span, 3) {
        3
    } else {
        4
    }
}

/// The byte number `i` of a 32-bit value, counted from the first.
pub open spec fn digit(value: int, i: int) -> u8 {
    (if i == 0 {
        value / 0x100_0000
    } else if i == 1 {
        value / 0x1_0000 % 0x100
    } else if i == 2 {
        value / 0x100 % 0x100
    } else {
        value % 0x100
    }) as u8
}

/// The bytes that end a stream: the shortest beginning of the middle of the interval that no
/// continuation can carry out of the interval.
pub open spec fn tail(span: Span) -> Seq<u8> {
    Seq::new(tail_size(span), |i: int| digit(middle(span), i))
}

/// The whole stream of a sender.
pub open spec fn finished(sender: Sender) -> Seq<u8> {
    sender.sent + tail(sender.span)
}

/// A finished stream fits, whatever follows it.
#[verifier::rlimit(60)]
#[verifier::spinoff_prover]
pub proof fn lemma_finished_fits(sender: Sender, rest: Seq<u8>)
    requires
        sender.span.sound(),
        sender.span.settled(),
    ensures
        fits(finished(sender) + rest, sender),
{
    let data = finished(sender) + rest;
    let span = sender.span;
    let k = sender.sent.len() as int;
    let n = tail_size(span);
    let m = middle(span);
    assert forall|i: int| 0 <= i < sender.sent.len() implies #[trigger] byte_at(data, i)
        == sender.sent[i] by {}
    assert forall|i: int| 0 <= i < n implies #[trigger] byte_at(data, k + i) == digit(m, i) by {
        assert(data[k + i] == tail(span)[i]);
    }
    let w = window(data, k);
    lemma_byte_bound(data, k + 1);
    lemma_byte_bound(data, k + 2);
    lemma_byte_bound(data, k + 3);
    assert(0 <= m < 0x1_0000_0000);
    assert(byte_at(data, k + 0) == digit(m, 0));
    if n == 1 {
        assert(w / 0x100_0000 == m / 0x100_0000);
    } else if n == 2 {
        assert(byte_at(data, k + 1) == digit(m, 1));
        assert(w / 0x1_0000 == m / 0x1_0000);
    } else if n == 3 {
        assert(byte_at(data, k + 1) == digit(m, 1));
        assert(byte_at(data, k + 2) == digit(m, 2));
        assert(w / 0x100 == m / 0x100);
    } else {
        assert(byte_at(data, k + 1) == digit(m, 1));
        assert(byte_at(data, k + 2) == digit(m, 2));
        assert(byte_at(data, k + 3) == digit(m, 3));
        assert(w == m);
    }
}

/// How many bytes a decoder has looked at.
pub open spec fn looked_at(taker: Taker) -> int {
    if taker.shifts + 4 <= usize::MAX {
        taker.shifts as int + 4
    } else {
        usize::MAX as int
    }
}

/// Where the stream that ends at this point ends.
pub open spec fn end_position(taker: Taker) -> int {
    let spare = 4 - tail_size(taker.span) as int;
    if looked_at(taker) >= spare {
        looked_at(taker) - spare
    } else {
        0
    }
}

} // verus!
