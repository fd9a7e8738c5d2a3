//! What holds of DZ streams, in the format's own numbers.

use vstd::arithmetic::power2::{lemma_pow2_pos, pow2};
use vstd::prelude::*;

use crate::codecs::dz::archive::{memory_estimate, request_fault, DzEncoderOptions};
use crate::codecs::dz::codec::{encode_refusal, encoded};
use crate::codecs::dz::coder::{
    byte_at, end_position, finished, first_sender, first_taker, get_symbol, narrowed, pushed, tail,
    taker_of, uniform, window, Model, Sender, Span, Taker,
};
use crate::codecs::dz::fault::DzFault;
use crate::codecs::dz::fenwick::{sum_to, symbol_of};
use crate::codecs::dz::cutting::{
    costs_by, reference_symbol, segment_stream, segments_counted, stale_before, Piece,
};
use crate::codecs::dz::frequencies::{
    capped_sum, largest, more, normalized, normalized_counts, symbol_cost,
};
use crate::codecs::dz::matchfinder::{
    best_offer, better_offer, decided, gain_of, reach_of, stale_at, window_of, Costs, Judge,
    LzDecision, Reach,
};
use crate::codecs::dz::options::{encode_workspace, model_workspace, EncoderOptions};
use crate::codecs::dz::range::bit_length;
use crate::codecs::dz::settings::RangeSettings;
use crate::codecs::dz::sharing::{common_written, written, Written};
use crate::codecs::dz::stream::{
    base_after, chunk_holding, chunk_links, chunk_tables, distance_code, get_digits, get_distance,
    get_grouped, get_grouped_from_first, get_match, get_reference, get_reference_length, get_target,
    match_context, no_recent, payload_at, payload_start, recent_after, recorded_tables, target_of,
    turn, unchunk, undz, uniform_tables, Common, Desk, ReferenceBaseUpdate, Tables, Turn,
};
use crate::codecs::dz::tokens::{gap, nearest};
use crate::codecs::matchfinder::common_length;

verus! {

/// A distance that is not among the last four goes in front of them and the oldest one drops
/// out; it is coded as itself plus three. No other code stands for it.
pub proof fn lemma_new_distance(recent: Seq<usize>, distance: usize)
    requires
        recent.len() == 4,
        !recent.contains(distance),
        1 <= distance,
        distance + 3 <= usize::MAX,
    ensures
        distance_code(distance, recent) == distance + 3,
        recent_after(distance, recent) == seq![distance] + recent.take(3),
        get_distance(distance + 3, recent) == Ok::<(usize, Seq<usize>), DzFault>(
            (distance, seq![distance] + recent.take(3)),
        ),
{
    assert(recent[0] != distance && recent[1] != distance && recent[2] != distance && recent[3]
        != distance);
    assert(seq![distance, recent[0], recent[1], recent[2]] =~= seq![distance] + recent.take(3));
}

/// A distance among the last four is coded by its first place; it and the one in front change
/// places, and the others stay.
pub proof fn lemma_known_distance(recent: Seq<usize>, place: int)
    requires
        recent.len() == 4,
        0 <= place < 4,
        recent[place] != 0,
        forall|i: int| 0 <= i < place ==> #[trigger] recent[i] != recent[place],
    ensures
        distance_code(recent[place], recent) == place,
        ({
            let after = recent_after(recent[place], recent);
            &&& after.len() == 4
            &&& after[0] == recent[place]
            &&& after[place] == recent[0]
            &&& forall|i: int| 0 < i < 4 && i != place ==> #[trigger] after[i] == recent[i]
            &&& get_distance(place, recent) == Ok::<(usize, Seq<usize>), DzFault>(
                (recent[place], after),
            )
        }),
{
    if place > 0 {
        assert(recent[0] != recent[place]);
    }
    if place > 1 {
        assert(recent[1] != recent[place]);
    }
    if place > 2 {
        assert(recent[2] != recent[place]);
    }
}

/// Four new distances in turn fill the list, the last one in front; the next code of the one
/// before it is one, and so on.
pub proof fn lemma_four_distances(recent: Seq<usize>, d1: usize, d2: usize, d3: usize, d4: usize)
    requires
        recent.len() == 4,
        forall|i: int|
            0 <= i < 4 ==> #[trigger] recent[i] != d1 && recent[i] != d2 && recent[i] != d3
                && recent[i] != d4,
        1 <= d1,
        1 <= d2,
        1 <= d3,
        1 <= d4,
        d1 != d2 && d1 != d3 && d1 != d4 && d2 != d3 && d2 != d4 && d3 != d4,
    ensures
        ({
            let after = recent_after(
                d4,
                recent_after(d3, recent_after(d2, recent_after(d1, recent))),
            );
            &&& after == seq![d4, d3, d2, d1]
            &&& distance_code(d4, after) == 0
            &&& distance_code(d3, after) == 1
            &&& distance_code(d2, after) == 2
            &&& distance_code(d1, after) == 3
        }),
{
}

/// Before anything was sent no distance is known.
pub proof fn lemma_no_distance(code: int)
    requires
        0 <= code < 4,
    ensures
        no_recent().len() == 4,
        get_distance(code, no_recent()) == Err::<(usize, Seq<usize>), DzFault>(
            DzFault::UnsetDistance,
        ),
{
}

/// Symbols below 256 are bytes; those from 256 to 512 are matches of 2 to 258 bytes; 513 ends the
/// chunk; those from 514 on begin references.
pub proof fn lemma_tokens(
    data: Seq<u8>,
    desk: Desk,
    out: Seq<u8>,
    expected: int,
    settings: RangeSettings,
    common: Option<Common>,
    update: ReferenceBaseUpdate,
    symbol: int,
    taker: Taker,
    top: Model,
)
    requires
        get_symbol(data, desk.taker, desk.tables.top) == Ok::<(int, Taker, Model), DzFault>(
            (symbol, taker, top),
        ),
        0 <= symbol,
    ensures
        ({
            let next = Desk { taker, tables: Tables { top, ..desk.tables }, ..desk };
            let told = turn(data, desk, out, expected, settings, common, update);
            &&& symbol < 256 && out.len() < expected ==> told == Ok::<Turn, DzFault>(
                Turn::More(next, out.push(symbol as u8)),
            )
            &&& 256 <= symbol <= 512 ==> (get_match(
                data,
                taker,
                next.tables,
                desk.recent,
                settings.offset_table_size,
                symbol - 254,
            ) matches Ok((distance, after, tables, recent)) ==> (1 <= distance <= out.len()
                && out.len() + symbol - 254 <= expected ==> (told matches Ok(
                Turn::More(more, longer),
            ) && more.recent == recent && more.tables == tables && more.taker == after && longer
                == crate::codecs::zlib::inflate::copy_match(
                out,
                distance as int,
                (symbol - 254) as nat,
            ))))
            &&& symbol == 513 && out.len() == expected ==> told == Ok::<Turn, DzFault>(Turn::End)
            &&& symbol >= 514 ==> (get_reference(
                data,
                next,
                settings,
                common,
                update,
                symbol - 514,
                out.len() as int,
                expected,
            ) matches Ok((bytes, after)) ==> told == Ok::<Turn, DzFault>(
                Turn::More(after, out + bytes),
            ))
        }),
{
}

/// A match of two bytes takes the first models of distances, one more byte the next, and the
/// last ones serve all longer matches.
pub proof fn lemma_match_context(length: int, contexts: nat)
    requires
        2 <= length,
        1 <= contexts,
    ensures
        length - 2 < contexts ==> match_context(length, contexts) == length - 2,
        length - 2 >= contexts ==> match_context(length, contexts) == contexts - 1,
{
}

/// The models that a chunk begins with: all frequencies are one. Literals, lengths and the end
/// are 514 symbols with increment 16, and with a common buffer as many more as a reference length
/// has groups; the tables of a distance have increments 32, 36, 40 and so on; references have
/// increments of 32, a sign and eight recent ends, all zero.
pub proof fn lemma_first_models(settings: RangeSettings, context: int, table: int)
    requires
        0 <= context < settings.offset_contexts,
        0 <= table < settings.offset_tables,
    ensures
        ({
            let alone = chunk_tables(settings, false);
            let linked = chunk_tables(settings, true);
            let links = chunk_links(settings);
            let offset = alone.offsets[context][table];
            &&& alone.top == uniform(514, 16)
            &&& uniform_tables(settings) == alone
            &&& linked.top == uniform(514 + pow2(settings.ref_length_table_size as nat), 16)
            &&& linked.offsets == alone.offsets
            &&& alone.offsets.len() == settings.offset_contexts
            &&& alone.offsets[context].len() == settings.offset_tables
            &&& offset.increment == 32 + 4 * table
            &&& offset.frequencies.len() == pow2(settings.offset_table_size as nat)
            &&& links.lengths.len() == settings.ref_length_tables
            &&& links.spots.len() == settings.ref_offset_tables
            &&& links.sign == uniform(2, 16)
            &&& links.base == uniform(8, 16)
            &&& links.bases == seq![0i64, 0, 0, 0, 0, 0, 0, 0]
        }),
        forall|i: int|
            0 <= i < settings.ref_length_tables ==> #[trigger] chunk_links(settings).lengths[i]
                == uniform(pow2(settings.ref_length_table_size as nat), 32),
        forall|i: int|
            0 <= i < settings.ref_offset_tables ==> #[trigger] chunk_links(settings).spots[i]
                == uniform(pow2(settings.ref_offset_table_size as nat), 32),
        forall|n: nat, increment: u16, i: int|
            0 <= i < n ==> #[trigger] uniform(n, increment).frequencies[i] == 1,
{
    let a = uniform_tables(settings);
    let b = chunk_tables(settings, false);
    assert(a.offsets =~= b.offsets);
    assert(chunk_links(settings).bases =~= seq![0i64, 0, 0, 0, 0, 0, 0, 0]);
}

/// A group of a number holds its lowest bits and, on top of them, whether more follow: a last
/// group adds its value, another one adds what is left without that bit, and the next group
/// counts `2^(bits - 1)` times as much. The last model serves all groups behind it.
pub proof fn lemma_groups(
    data: Seq<u8>,
    taker: Taker,
    models: Seq<Model>,
    bits: u8,
    table: int,
    value: int,
    shift: nat,
    group: int,
    next: Taker,
    model: Model,
)
    requires
        2 <= bits <= 15,
        0 <= table < models.len(),
        shift + 2 * bits < 64,
        get_symbol(data, taker, models[table]) == Ok::<(int, Taker, Model), DzFault>(
            (group, next, model),
        ),
        0 <= group < 2 * pow2((bits - 1) as nat),
    ensures
        group < pow2((bits - 1) as nat) ==> get_digits(
            data,
            taker,
            models,
            bits,
            table,
            value,
            shift,
        ) == Ok::<(int, Taker, Seq<Model>), DzFault>(
            (value + group * pow2(shift), next, models.update(table, model)),
        ),
        group >= pow2((bits - 1) as nat) ==> get_digits(
            data,
            taker,
            models,
            bits,
            table,
            value,
            shift,
        ) == get_digits(
            data,
            next,
            models.update(table, model),
            bits,
            if table + 1 == models.len() {
                table
            } else {
                table + 1
            },
            value + (group - pow2((bits - 1) as nat)) * pow2(shift),
            (shift + bits - 1) as nat,
        ),
{
    let limit = pow2((bits - 1) as nat) as int;
    let low = if group < limit {
        group
    } else {
        group - limit
    };
    lemma_pow2_pos((bits - 1) as nat);
    lemma_pow2_pos(shift);
    assert(group % limit == low) by {
        if group < limit {
            vstd::arithmetic::div_mod::lemma_small_mod(group as nat, limit as nat);
        } else {
            vstd::arithmetic::div_mod::lemma_small_mod(low as nat, limit as nat);
            vstd::arithmetic::div_mod::lemma_mod_add_multiples_vanish(low, limit);
        }
    }
    assert((low * pow2(shift)) % 0x1_0000_0000_0000_0000 == low * pow2(shift)) by {
        vstd::arithmetic::power2::lemma_pow2_adds((bits - 1) as nat, shift);
        vstd::arithmetic::power2::lemma_pow2_strictly_increases((bits - 1 + shift) as nat, 64);
        vstd::arithmetic::power2::lemma2_to64();
        assert(0 <= low * pow2(shift) < limit * pow2(shift)) by (nonlinear_arith)
            requires
                0 <= low < limit,
                0 < pow2(shift),
        ;
        vstd::arithmetic::power2::lemma2_to64_rest();
    }
}

/// A number whose first group is known: without the top bit it is that group.
pub proof fn lemma_first_group(
    data: Seq<u8>,
    taker: Taker,
    models: Seq<Model>,
    bits: u8,
    first: int,
)
    requires
        1 <= bits,
        0 <= first < pow2((bits - 1) as nat),
    ensures
        get_grouped_from_first(data, taker, models, bits, first) == Ok::<
            (int, Taker, Seq<Model>),
            DzFault,
        >((first, taker, models)),
{
    vstd::arithmetic::div_mod::lemma_small_mod(first as nat, pow2((bits - 1) as nat));
}

/// A coded symbol's frequency grows by the increment and the others stay; where the total would
/// pass 65536 all of them are then halved, rounding up.
pub proof fn lemma_model_grows(model: Model, symbol: int, i: int)
    requires
        0 <= symbol < model.frequencies.len(),
        0 <= i < model.frequencies.len(),
        model.frequencies[symbol] + model.increment <= 0xffff,
    ensures
        ({
            let grown = model.frequencies[i] + (if i == symbol {
                model.increment as int
            } else {
                0
            });
            let after = model.updated(symbol);
            &&& after.frequencies.len() == model.frequencies.len()
            &&& after.increment == model.increment
            &&& model.total() + model.increment <= 65536 ==> after.frequencies[i] == grown
            &&& model.total() + model.increment > 65536 ==> after.frequencies[i] == (grown + 1) / 2
        }),
{
}

/// The interval starts with 32 bits of ones. A symbol gets the part of it that its frequency asks
/// for: parts follow one another without gaps from the lower end on.
pub proof fn lemma_intervals(span: Span, model: Model, symbol: int)
    requires
        0 <= symbol,
        symbol + 1 < model.frequencies.len(),
        0 < model.total(),
    ensures
        first_sender().span.low == 0,
        first_sender().span.range == 0xffff_ffff,
        first_sender().sent.len() == 0,
        first_taker().span == first_sender().span,
        first_taker().shifts == 0,
        narrowed(span, model, 0).low == span.low,
        narrowed(span, model, symbol).low + narrowed(span, model, symbol).range == narrowed(
            span,
            model,
            symbol + 1,
        ).low,
        narrowed(span, model, symbol).range == span.range / model.total()
            * model.frequencies[symbol],
{
    let unit = span.range / model.total();
    assert(sum_to(model.frequencies, 0) == 0);
    assert(unit * 0 == 0);
    let before = model.before(symbol);
    let f = model.frequencies[symbol] as int;
    assert(model.before(symbol + 1) == before + f);
    assert(unit * (before + f) == unit * before + unit * f) by (nonlinear_arith);
}

/// The symbol of a count is the one in whose part of the frequencies it lies.
pub proof fn lemma_symbol_of_count(frequencies: Seq<u16>, count: int, i: int)
    requires
        0 <= i <= frequencies.len(),
        sum_to(frequencies, i as nat) <= count < sum_to(frequencies, frequencies.len()),
    ensures
        ({
            let symbol = symbol_of(frequencies, count, i);
            &&& i <= symbol < frequencies.len()
            &&& sum_to(frequencies, symbol as nat) <= count < sum_to(
                frequencies,
                (symbol + 1) as nat,
            )
        }),
    decreases frequencies.len() - i,
{
    if i < frequencies.len() && sum_to(frequencies, (i + 1) as nat) <= count {
        lemma_symbol_of_count(frequencies, count, i + 1);
    }
}

/// A byte leaves at the top of the interval's lower end, and the interval grows by 256; where its
/// ends still differ there, it is first cut at the next multiple of 65536. The decoder looks at
/// four bytes, the first one on top, and reads ones behind the input.
pub proof fn lemma_bytes(sender: Sender, data: Seq<u8>, k: int)
    requires
        sender.span.sound(),
        !sender.span.settled(),
        0 <= k,
    ensures
        ({
            let span = sender.span;
            let after = pushed(sender);
            &&& after.sent.len() == sender.sent.len() + 1
            &&& after.sent.last() == span.low / 0x100_0000
            &&& after.span.low == 0x100 * (span.low - 0x100_0000 * (span.low / 0x100_0000))
            &&& span.low / 0x100_0000 == (span.low + span.range) / 0x100_0000 ==> after.span.range
                == 0x100 * span.range
            &&& span.low / 0x100_0000 != ((span.low + span.range) % 0x1_0000_0000) / 0x100_0000 ==> {
                &&& span.range < 0x1_0000
                &&& 0 < after.span.range <= 0x100 * span.range
                &&& (span.low + after.span.range / 0x100) % 0x1_0000 == 0
            }
        }),
        k + 4 <= data.len() ==> window(data, k) == 0x100_0000 * data[k] + 0x1_0000 * data[k + 1]
            + 0x100 * data[k + 2] + data[k + 3],
        k >= data.len() ==> byte_at(data, k) == 255 && window(data, k) == 0xffff_ffff,
{
    crate::codecs::dz::coder::lemma_shifted(sender.span);
}

/// A reference counts from a recent end: a magnitude forward, or one more than it backward, and
/// three back from there.
pub proof fn lemma_target(base: int, magnitude: int)
    requires
        -0x1000_0000 <= base <= 0x1000_0000,
        0 <= magnitude <= 0x1000_0000,
    ensures
        base + magnitude >= 3 ==> target_of(base, false, magnitude) == Ok::<int, DzFault>(
            base + magnitude - 3,
        ),
        base - magnitude >= 4 ==> target_of(base, true, magnitude) == Ok::<int, DzFault>(
            base - magnitude - 4,
        ),
        base + magnitude < 3 ==> target_of(base, false, magnitude) is Err,
        base - magnitude < 4 ==> target_of(base, true, magnitude) is Err,
{
}

/// A reference leaves the place behind what was read of the common buffer, or zero.
pub proof fn lemma_base(target: int, consumed: int)
    requires
        0 <= target <= 0x1000_0000,
        0 <= consumed <= 0x1000_0000,
    ensures
        base_after(ReferenceBaseUpdate::Zero, target, consumed) == Ok::<i64, DzFault>(0),
        base_after(ReferenceBaseUpdate::CompressedEndpoint, target, consumed) matches Ok(base)
            && base == target + consumed,
{
}

/// The recorded frequencies take a byte for each of the 514 symbols and for each group of each
/// table of each context, where bit zero of the flags asks for them; the usual settings have
/// these values.
pub proof fn lemma_prefix(settings: RangeSettings)
    ensures
        settings.flags % 2 == 1 ==> settings.prefix_size() == 514 + settings.offset_contexts
            * settings.offset_tables * pow2(settings.offset_table_size as nat),
        settings.flags % 2 == 0 ==> settings.prefix_size() == 0,
        RangeSettings::usual().win_size == 17,
        RangeSettings::usual().flags == 1,
        RangeSettings::usual().offset_table_size == 8,
        RangeSettings::usual().offset_tables == 3,
        RangeSettings::usual().offset_contexts == 4,
        RangeSettings::usual().ref_length_table_size == 5,
        RangeSettings::usual().ref_length_tables == 3,
        RangeSettings::usual().ref_offset_table_size == 8,
        RangeSettings::usual().ref_offset_tables == 3,
        RangeSettings::usual().big_min_match == 32,
        RangeSettings::usual().prefix_size() == 514 + 4 * 3 * 256,
{
    vstd::arithmetic::power2::lemma2_to64();
}

/// Recorded frequencies run from one to 255: a symbol seen most often gets 255, one seen as often
/// or more often than another gets no less than it.
pub proof fn lemma_normalized(counts: Seq<u64>, i: int, j: int)
    requires
        0 <= i < counts.len(),
        0 <= j < counts.len(),
        counts[i] <= counts[j] < u64::MAX,
        forall|k: int| 0 <= k < counts.len() ==> #[trigger] counts[k] < u64::MAX,
    ensures
        1 <= normalized(counts)[i] <= normalized(counts)[j] <= 255,
        (forall|k: int| 0 <= k < counts.len() ==> #[trigger] counts[k] <= counts[j])
            ==> normalized(counts)[j] == 255 && (normalized(counts)[i] > 1 ==> normalized(counts)[i]
            == 255 * (counts[i] + 1) / (counts[j] + 1)),
{
    let n = counts.len();
    lemma_largest(counts, n);
    let most = largest(counts, n);
    let a = more(counts[i]) * 255;
    let b = more(counts[j]) * 255;
    vstd::arithmetic::div_mod::lemma_div_is_ordered(a, b, most);
    vstd::arithmetic::div_mod::lemma_div_is_ordered(b, 255 * most, most);
    vstd::arithmetic::div_mod::lemma_div_multiples_vanish(255, most);
    assert(most * 255 == 255 * most);
    vstd::arithmetic::div_mod::lemma_div_pos_is_pos(a, most);
}

proof fn lemma_largest(counts: Seq<u64>, n: nat)
    requires
        n <= counts.len(),
    ensures
        1 <= largest(counts, n),
        forall|k: int| 0 <= k < n ==> more(#[trigger] counts[k]) <= largest(counts, n),
        n > 0 ==> exists|k: int| 0 <= k < n && more(#[trigger] counts[k]) == largest(counts, n),
    decreases n,
{
    if n > 0 {
        lemma_largest(counts, (n - 1) as nat);
        if more(counts[n - 1]) > largest(counts, (n - 1) as nat) {
            assert(more(counts[n - 1]) == largest(counts, n));
        } else if n == 1 {
            assert(more(counts[0]) == largest(counts, n));
        }
    }
}

/// Compression is taken to need 256 KiB for each input and twice their size.
pub proof fn lemma_memory_estimate(inputs: Seq<Seq<u8>>, input: Seq<u8>)
    ensures
        memory_estimate(Seq::empty()) == 0,
        memory_estimate(inputs.push(input)) == memory_estimate(inputs) + 262144 + 2 * input.len(),
{
    lemma_total_prefix(inputs, input, inputs.len());
}

proof fn lemma_total_prefix(inputs: Seq<Seq<u8>>, input: Seq<u8>, n: nat)
    requires
        n <= inputs.len(),
    ensures
        crate::codecs::dz::archive::total_size(inputs.push(input), n)
            == crate::codecs::dz::archive::total_size(inputs, n),
    decreases n,
{
    if n > 0 {
        lemma_total_prefix(inputs, input, (n - 1) as nat);
    }
}

/// A finished stream ends with the shortest beginning of the middle of the interval that sets it
/// apart from both ends, one to four bytes, the highest first.
pub proof fn lemma_stream_end(span: Span)
    requires
        span.sound(),
    ensures
        ({
            let middle = span.low + span.range / 2;
            let last = span.low + span.range - 1;
            let end = tail(span);
            &&& 1 <= end.len() <= 4
            &&& end.len() == 1 ==> end[0] == middle / 0x100_0000
            &&& end.len() == 2 ==> 0x100 * end[0] + end[1] == middle / 0x1_0000
            &&& end.len() == 3 ==> 0x1_0000 * end[0] + 0x100 * end[1] + end[2] == middle / 0x100
            &&& end.len() == 4 ==> 0x100_0000 * end[0] + 0x1_0000 * end[1] + 0x100 * end[2] + end[3]
                == middle
            &&& end.len() == 1 <==> middle / 0x100_0000 != span.low / 0x100_0000 && middle
                / 0x100_0000 != last / 0x100_0000
            &&& end.len() <= 2 <==> (middle / 0x1_0000 != span.low / 0x1_0000 && middle / 0x1_0000
                != last / 0x1_0000)
            &&& end.len() <= 3 <==> (middle / 0x100 != span.low / 0x100 && middle / 0x100 != last
                / 0x100)
        }),
{
}

/// A reader that has seen the end of a stream knows where it ends.
pub proof fn lemma_end_position(sender: Sender)
    requires
        sender.sent.len() + 4 <= usize::MAX,
    ensures
        end_position(taker_of(sender)) == finished(sender).len(),
        finished(sender) == sender.sent + tail(sender.span),
{
}

/// The recent end that a reference counts from is the nearest one, and of equally near ones the
/// first.
pub proof fn lemma_nearest_base(bases: Seq<i64>, target: int, n: nat)
    requires
        1 <= n <= bases.len(),
    ensures
        ({
            let best = nearest(bases, target, n);
            &&& 0 <= best < n
            &&& forall|i: int|
                0 <= i < n ==> gap(target, bases[best] as int) <= gap(
                    target,
                    #[trigger] bases[i] as int,
                )
            &&& forall|i: int|
                0 <= i < best ==> gap(target, bases[best] as int) < gap(
                    target,
                    #[trigger] bases[i] as int,
                )
        }),
        gap(target, bases[0] as int) == (if target >= bases[0] {
            target - bases[0]
        } else {
            bases[0] - target
        }),
    decreases n,
{
    if n > 1 {
        lemma_nearest_base(bases, target, (n - 1) as nat);
    }
}

/// The bits that a number takes.
pub proof fn lemma_bit_length(value: nat)
    ensures
        value == 0 ==> bit_length(value) == 0,
        value > 0 ==> bit_length(value) >= 1 && pow2((bit_length(value) - 1) as nat) <= value
            < pow2(bit_length(value)),
    decreases value,
{
    vstd::arithmetic::power2::lemma2_to64();
    if value > 1 {
        lemma_bit_length(value / 2);
        let k = bit_length(value / 2);
        vstd::arithmetic::power2::lemma_pow2_unfold(k);
        vstd::arithmetic::power2::lemma_pow2_unfold(k + 1);
    } else if value == 1 {
        assert(bit_length(0) == 0);
        assert(bit_length(1) == 1);
    }
}

/// A symbol costs the logarithm of its share of the occurrences: a share of about one in `2^k`
/// costs `k`.
pub proof fn lemma_symbol_cost(counts: Seq<u64>, i: int, all: nat, own: nat)
    requires
        0 <= i < counts.len(),
        pow2(own) <= counts[i] / 2 < pow2(own + 1),
        pow2(all) <= capped_sum(counts, counts.len()) / 2 < pow2(all + 1),
    ensures
        symbol_cost(counts, i) == all - own,
{
    lemma_bit_length_is((counts[i] / 2) as nat, own);
    lemma_bit_length_is((capped_sum(counts, counts.len()) / 2) as nat, all);
}

proof fn lemma_bit_length_is(value: nat, k: nat)
    requires
        pow2(k) <= value < pow2(k + 1),
    ensures
        bit_length(value) == k + 1,
    decreases k,
{
    vstd::arithmetic::power2::lemma2_to64();
    vstd::arithmetic::power2::lemma_pow2_unfold(k + 1);
    if k == 0 {
        assert(bit_length(0) == 0);
    } else {
        vstd::arithmetic::power2::lemma_pow2_unfold(k);
        lemma_bit_length_is(value / 2, (k - 1) as nat);
    }
}

/// The memory that the models take: six bytes for each symbol, and 64 for each distance model and
/// for sixteen more.
pub proof fn lemma_model_memory(settings: RangeSettings)
    ensures
        model_workspace(settings, false) == 6 * (514 + settings.offset_contexts
            * settings.offset_tables * pow2(settings.offset_table_size as nat)) + 64 * (
        settings.offset_contexts * settings.offset_tables + 16),
        model_workspace(settings, true) - model_workspace(settings, false) == 6 * (pow2(
            settings.ref_length_table_size as nat,
        ) + settings.ref_length_tables * pow2(settings.ref_length_table_size as nat)
            + settings.ref_offset_tables * pow2(settings.ref_offset_table_size as nat) + 10),
        forall|n: int|
            #[trigger] encode_workspace(n, settings) == 2 * model_workspace(settings, false) + 32
                * n + 262144,
{
}

/// A common buffer begins with the frequencies of all its parts and a filler byte of 127, so that
/// its first part begins at one.
pub proof fn lemma_common_start(pieces: Seq<Piece>, settings: RangeSettings)
    requires
        pieces.len() > 0,
        normalized_counts(segments_counted(pieces, settings, pieces.len())).len()
            == settings.prefix_size(),
    ensures
        common_written(pieces, settings) matches Ok(done) ==> {
            &&& done.targets.len() == pieces.len()
            &&& done.targets[0] == 1
            &&& done.bytes.len() > settings.prefix_size()
            &&& done.bytes[settings.prefix_size()] == 127
            &&& done.bytes.take(settings.prefix_size()) == normalized_counts(
                segments_counted(pieces, settings, pieces.len()),
            )
        },
{
    let counts = segments_counted(pieces, settings, pieces.len());
    let prefix = normalized_counts(counts);
    let start = Written { bytes: prefix.push(0x7f), targets: Seq::empty() };
    let costs = costs_by(counts);
    let tables = recorded_tables(prefix, settings);
    lemma_written_grows(pieces, settings, costs, tables, 0, start);
    if let Ok(done) = common_written(pieces, settings) {
        let head = done.bytes.subrange(0, start.bytes.len() as int);
        assert(start.bytes == head);
        assert(head[settings.prefix_size()] == 0x7f);
        assert(done.bytes.take(settings.prefix_size()) =~= head.take(settings.prefix_size()));
        assert(head.take(settings.prefix_size()) =~= prefix);
        assert(done.targets[0] == (start.bytes.len() - settings.prefix_size()) as usize);
    }
}

proof fn lemma_written_grows(
    pieces: Seq<Piece>,
    settings: RangeSettings,
    costs: Costs,
    tables: Tables,
    i: int,
    done: Written,
)
    requires
        0 <= i <= pieces.len(),
        done.targets.len() == i,
        settings.prefix_size() < done.bytes.len(),
    ensures
        written(pieces, settings, costs, tables, i, done) matches Ok(all) ==> {
            &&& all.targets.len() == pieces.len()
            &&& done.bytes.is_prefix_of(all.bytes)
            &&& done.targets.is_prefix_of(all.targets)
            &&& i < pieces.len() ==> all.targets[i] == (done.bytes.len()
                - settings.prefix_size()) as usize
        },
    decreases pieces.len() - i,
{
    if i < pieces.len() {
        if let Ok(stream) = segment_stream(
            pieces[i],
            stale_before(pieces, i as nat),
            settings,
            costs,
            tables,
        ) {
            let next = Written {
                bytes: done.bytes + stream,
                targets: done.targets.push((done.bytes.len() - settings.prefix_size()) as usize),
            };
            lemma_written_grows(pieces, settings, costs, tables, i + 1, next);
            if let Ok(all) = written(pieces, settings, costs, tables, i + 1, next) {
                assert(all.targets[i] == next.targets[i]);
                assert(done.bytes.is_prefix_of(next.bytes));
                assert(done.targets.is_prefix_of(next.targets));
                assert forall|k: int| 0 <= k < done.bytes.len() implies #[trigger] all.bytes[k]
                    == done.bytes[k] by {
                    assert(next.bytes[k] == done.bytes[k]);
                }
                assert(done.bytes =~= all.bytes.take(done.bytes.len() as int));
                assert forall|k: int| 0 <= k < done.targets.len() implies #[trigger] all.targets[k]
                    == done.targets[k] by {
                    assert(next.targets[k] == done.targets[k]);
                }
                assert(done.targets =~= all.targets.take(done.targets.len() as int));
            }
        }
    }
}

/// Without known costs a match saves eight bits for each of its bytes, less twelve and the binary
/// digits of its distance code.
pub proof fn lemma_gain(
    input: Seq<u8>,
    position: int,
    length: int,
    distance: usize,
    judge: Judge,
    digits: nat,
)
    requires
        judge.known is None,
        judge.recent.len() == 4,
        pow2(digits) <= distance_code(distance, judge.recent) < pow2(digits + 1),
    ensures
        gain_of(input, position, length, distance, judge) == 8 * length - 13 - digits,
{
    lemma_bit_length_is(distance_code(distance, judge.recent) as nat, digits);
}

/// The last distance is the cheapest one.
pub proof fn lemma_gain_again(
    input: Seq<u8>,
    position: int,
    length: int,
    distance: usize,
    judge: Judge,
)
    requires
        judge.known is None,
        judge.recent.len() == 4,
        judge.recent[0] == distance,
    ensures
        gain_of(input, position, length, distance, judge) == 8 * length - 12,
{
}

/// A match is put off for a byte where one more byte ahead a match saves over eight bits more.
pub proof fn lemma_lazy(input: Seq<u8>, position: int, reach: Reach, judge: Judge)
    requires
        0 <= position,
        position + 1 < reach.bound,
        !stale_at(input, position + 1, reach.stale),
    ensures
        best_offer(input, position, reach, judge) is None ==> decided(
            input,
            position,
            reach,
            judge,
        ) == Some(LzDecision::Literal { position: position as usize }),
        best_offer(input, position, reach, judge) matches Some(now) ==> (best_offer(
            input,
            position + 1,
            reach,
            judge,
        ) matches Some(later) ==> decided(input, position, reach, judge) == Some(
            if later.gain > now.gain + 8 {
                LzDecision::Literal { position: position as usize }
            } else {
                LzDecision::Match { length: now.length as usize, distance: now.distance }
            },
        )),
        best_offer(input, position, reach, judge) matches Some(now) ==> now.gain > 0,
{
}

/// An offer is a repetition of two to 258 bytes within reach, and saves more than the one before.
pub proof fn lemma_offer(
    input: Seq<u8>,
    position: int,
    reach: Reach,
    distance: usize,
    judge: Judge,
)
    requires
        0 <= position <= reach.bound <= input.len(),
    ensures
        better_offer(input, position, reach, distance, None, judge) matches Some(offer) ==> {
            &&& 2 <= offer.length <= 258
            &&& position + offer.length <= reach.bound
            &&& 1 <= offer.distance <= position
            &&& offer.distance <= reach.distance
            &&& offer.distance == position ==> reach.first
            &&& forall|i: int|
                0 <= i < offer.length ==> #[trigger] input[position + i] == input[position
                    - offer.distance + i]
            &&& offer.length < 258 && position + offer.length < reach.bound ==> input[position
                + offer.length] != input[position - offer.distance + offer.length]
        },
{
    if 1 <= distance <= position {
        let max = if reach.bound - position < 258 {
            reach.bound - position
        } else {
            258
        };
        lemma_agreement(input, position - distance, position, 0, max);
    }
}

proof fn lemma_agreement(input: Seq<u8>, a: int, b: int, n: int, max: int)
    requires
        0 <= a < b,
        0 <= n <= max,
        b + max <= input.len(),
        forall|i: int| 0 <= i < n ==> #[trigger] input[b + i] == input[a + i],
    ensures
        ({
            let length = common_length(input, a, b, n, max);
            &&& n <= length <= max
            &&& forall|i: int| 0 <= i < length ==> #[trigger] input[b + i] == input[a + i]
            &&& length < max ==> input[b + length] != input[a + length]
        }),
    decreases max - n,
{
    if n < max && input[a + n] == input[b + n] {
        lemma_agreement(input, a, b, n + 1, max);
    }
}

/// Matches reach back less than a window, which is a power of two.
pub proof fn lemma_window(win_size: u8)
    requires
        win_size < 31,
    ensures
        window_of(win_size) == pow2(win_size as nat),
        reach_of(window_of(win_size)) == pow2(win_size as nat) - 1,
{
    vstd::arithmetic::power2::lemma2_to64();
    vstd::arithmetic::power2::lemma_pow2_pos(win_size as nat);
    vstd::arithmetic::power2::lemma_pow2_strictly_increases(win_size as nat, 31);
}

/// What is refused before any work, and nothing else is: an input or output beyond its limit, and
/// work in more memory than allowed.
pub proof fn lemma_refusals(encoder: EncoderOptions, input: Seq<u8>)
    requires
        encoder.limits.max_workspace_size < usize::MAX,
        model_workspace(encoder.settings, false) >= 0,
    ensures
        encode_refusal(encoder, input.len() as int) is Some <==> input.len()
            > encoder.limits.max_input_size || encode_workspace(
            input.len() as int,
            encoder.settings,
        ) > encoder.limits.max_workspace_size,
        encoded(encoder, input) matches Ok(stream) ==> stream.len()
            <= encoder.limits.max_output_size,
{
}

/// The chunk that holds an offset into the common buffer is the one between whose start and end it
/// lies, where each begins behind the one before, without the frequencies.
pub proof fn lemma_chunk_holding(common: Common, offset: int, n: nat)
    requires
        n <= common.chunks.len(),
    ensures
        payload_start(common, 0) == 0,
        n < common.chunks.len() ==> payload_start(common, n + 1) == payload_start(common, n) + (
        if common.chunks[n as int].len() == 0 {
            0
        } else {
            common.chunks[n as int].len() - common.settings.prefix_size()
        }),
        chunk_holding(common, offset, n) matches Some(k) ==> n <= k < common.chunks.len()
            && payload_start(common, k) <= offset < payload_start(common, k + 1),
        chunk_holding(common, offset, n) is None ==> forall|k: nat|
            n <= k < common.chunks.len() ==> !(#[trigger] payload_start(common, k) <= offset
                < payload_start(common, k + 1)),
    decreases common.chunks.len() - n,
{
    if n < common.chunks.len() {
        lemma_chunk_holding(common, offset, n + 1);
    }
}

/// A chunk is read with the ends that references leave; where that fails and there is a common
/// buffer, with zeros in their place. A failure of both is that of the first.
pub proof fn lemma_two_readings(
    data: Seq<u8>,
    expected: int,
    settings: RangeSettings,
    common: Option<Common>,
)
    requires
        settings.valid(),
    ensures
        ({
            let first = unchunk(
                data,
                expected,
                settings,
                common,
                ReferenceBaseUpdate::CompressedEndpoint,
            );
            let second = unchunk(data, expected, settings, common, ReferenceBaseUpdate::Zero);
            &&& first is Ok ==> undz(data, expected, settings, common) == first
            &&& first is Err && common is None ==> undz(data, expected, settings, common) == first
            &&& first is Err && common is Some && second is Ok ==> undz(
                data,
                expected,
                settings,
                common,
            ) == second
            &&& first is Err && common is Some && second is Err ==> undz(
                data,
                expected,
                settings,
                common,
            ) == first
        }),
{
}

/// The common buffer is read by the same symbols: bytes, matches of 2 to 258 bytes, which are cut
/// where enough was read, and an end, behind which a new stream begins with the first models and
/// the same distances; references do not occur in it.
pub proof fn lemma_common_tokens(
    payload: Seq<u8>,
    start: int,
    taker: Taker,
    tables: Tables,
    recent: Seq<usize>,
    out: Seq<u8>,
    expected: int,
    bits: u8,
    initial: Tables,
    symbol: int,
    next: Taker,
    top: Model,
)
    requires
        out.len() < expected,
        0 <= start <= payload.len(),
        taker.span.sound(),
        taker.span.settled(),
        get_symbol(payload.skip(start), taker, tables.top) == Ok::<(int, Taker, Model), DzFault>(
            (symbol, next, top),
        ),
        0 <= symbol,
    ensures
        ({
            let told = payload_at(
                payload,
                start,
                taker,
                tables,
                recent,
                out,
                expected,
                bits,
                initial,
            );
            let after = Tables { top, offsets: tables.offsets };
            &&& symbol < 256 ==> told == payload_at(
                payload,
                start,
                next,
                after,
                recent,
                out.push(symbol as u8),
                expected,
                bits,
                initial,
            )
            &&& symbol == 513 && start + end_position(next) <= payload.len() && start
                + end_position(next) <= usize::MAX ==> told == payload_at(
                payload,
                start + end_position(next),
                first_taker(),
                initial,
                recent,
                out,
                expected,
                bits,
                initial,
            )
            &&& symbol >= 514 ==> told == Err::<(Seq<u8>, int), DzFault>(
                DzFault::CommonToken { symbol: symbol as usize },
            )
        }),
{
}

/// Recorded frequencies: the first 514 bytes are those of literals, lengths and the end; then
/// follow the distance models, context by context and table by table. Zero counts as one.
pub proof fn lemma_recorded(
    prefix: Seq<u8>,
    settings: RangeSettings,
    context: int,
    table: int,
    i: int,
)
    requires
        settings.flags % 2 == 1,
        prefix.len() == settings.prefix_size(),
        0 <= context < settings.offset_contexts,
        0 <= table < settings.offset_tables,
        0 <= i < pow2(settings.offset_table_size as nat),
    ensures
        ({
            let tables = recorded_tables(prefix, settings);
            let size = pow2(settings.offset_table_size as nat);
            let place = 514 + (context * settings.offset_tables + table) * size + i;
            let model = tables.offsets[context][table];
            &&& tables.top.increment == 16
            &&& tables.top.frequencies.len() == 514
            &&& model.increment == 32 + 4 * table
            &&& model.frequencies.len() == size
            &&& 514 <= place < prefix.len()
            &&& model.frequencies[i] == (if prefix[place] == 0 {
                1
            } else {
                prefix[place] as int
            })
        }),
        forall|k: int|
            0 <= k < 514 ==> #[trigger] recorded_tables(prefix, settings).top.frequencies[k] == (
            if prefix[k] == 0 {
                1
            } else {
                prefix[k] as int
            }),
{
    let size = pow2(settings.offset_table_size as nat) as int;
    let rows = settings.offset_tables as int;
    let all = settings.offset_contexts as int;
    let row = context * rows + table;
    vstd::arithmetic::power2::lemma_pow2_pos(settings.offset_table_size as nat);
    assert(0 <= row && row + 1 <= all * rows) by (nonlinear_arith)
        requires
            0 <= context < all,
            0 <= table < rows,
            row == context * rows + table,
    ;
    assert(0 <= row * size && row * size + size <= all * rows * size) by (nonlinear_arith)
        requires
            0 <= row,
            row + 1 <= all * rows,
            0 < size,
    ;
    assert((context * rows + (table + 1)) * size == row * size + size) by (nonlinear_arith)
        requires
            row == context * rows + table,
    ;
}

/// A reference is as long as its number and the shortest one together; its place is told by which
/// recent end it counts from, the direction and the distance, in this order.
pub proof fn lemma_reference_fields(
    data: Seq<u8>,
    desk: Desk,
    settings: RangeSettings,
    first: int,
    base: int,
    negative: int,
    magnitude: int,
    t1: Taker,
    t2: Taker,
    t3: Taker,
    m1: Model,
    m2: Model,
    m3: Seq<Model>,
)
    requires
        get_symbol(data, desk.taker, desk.links.base) == Ok::<(int, Taker, Model), DzFault>(
            (base, t1, m1),
        ),
        get_symbol(data, t1, desk.links.sign) == Ok::<(int, Taker, Model), DzFault>(
            (negative, t2, m2),
        ),
        get_grouped(data, t2, desk.links.spots, settings.ref_offset_table_size) == Ok::<
            (int, Taker, Seq<Model>),
            DzFault,
        >((magnitude, t3, m3)),
    ensures
        target_of(desk.links.bases[base] as int, negative != 0, magnitude) matches Ok(target)
            ==> (get_target(data, desk, settings) matches Ok((place, index, after)) && place
            == target && index == base && after.taker == t3 && after.links.bases
            == desk.links.bases),
        get_grouped_from_first(
            data,
            desk.taker,
            desk.links.lengths,
            settings.ref_length_table_size,
            first,
        ) matches Ok((value, taker, lengths)) ==> (value + settings.big_min_match <= usize::MAX
            ==> (get_reference_length(data, desk, settings, first) matches Ok((length, after))
            && length == value + settings.big_min_match && after.taker == taker)),
{
}

/// What stands in the way of compressing: settings, more than 32768 inputs, and a limit on memory
/// that is not negative and too low; with a common buffer also what references need.
pub proof fn lemma_requests(inputs: Seq<Seq<u8>>, options: DzEncoderOptions)
    requires
        options.settings.valid(),
    ensures
        inputs.len() > 32768 ==> request_fault(inputs, options) == Some(DzFault::TooManyChunks),
        inputs.len() <= 32768 && options.max_mem_usage < 0 && !options.use_combuf
            ==> request_fault(inputs, options) is None,
        inputs.len() <= 32768 && options.max_mem_usage < 0 && options.use_combuf ==> request_fault(
            inputs,
            options,
        ) == options.settings.reference_fault(),
        inputs.len() <= 32768 && 0 <= options.max_mem_usage < memory_estimate(inputs)
            ==> request_fault(inputs, options) is Some,
        options.settings.reference_fault() is None <==> options.settings.flags % 2 == 1
            && options.settings.ref_length_table_size > 0 && options.settings.ref_offset_table_size
            > 0 && options.settings.ref_length_tables > 0 && options.settings.ref_offset_tables > 0
            && options.settings.big_min_match > 0,
{
}

/// A reference begins with symbol 514 and the lowest group of its length behind the shortest one.
pub proof fn lemma_reference_symbol(settings: RangeSettings, length: int)
    requires
        1 <= settings.ref_length_table_size,
        settings.big_min_match <= length,
    ensures
        ({
            let limit = pow2((settings.ref_length_table_size - 1) as nat) as int;
            let value = length - settings.big_min_match;
            &&& value < limit ==> reference_symbol(settings, length) == 514 + value
            &&& value >= limit ==> reference_symbol(settings, length) == 514 + limit + value % limit
        }),
{
    let limit = pow2((settings.ref_length_table_size - 1) as nat) as int;
    let value = length - settings.big_min_match;
    lemma_pow2_pos((settings.ref_length_table_size - 1) as nat);
    if value < limit {
        vstd::arithmetic::div_mod::lemma_small_mod(value as nat, limit as nat);
    }
}

} // verus!
