//! Decoding of chunks and of the common buffer.

use vstd::arithmetic::power2::pow2;
use vstd::prelude::*;

use crate::codecs::dz::coder::first_taker;
use crate::codecs::dz::common::DzCommonBuffer;
use crate::codecs::dz::fault::DzFault;
use crate::codecs::dz::model::{models_of, offsets_of, CommonModels, DzModels};
use crate::codecs::dz::range::{AdaptiveModel, RangeDecoder};
use crate::codecs::dz::settings::{validate_common_settings, RangeSettings, TOP_SYMBOLS};
use crate::codecs::dz::stream::{
    chunk_at, distance_code, first_desk, get_digits, get_distance, get_grouped,
    get_grouped_from_first, get_match, get_reference, get_reference_length, get_target,
    lemma_distance_round_trip, lemma_turn, matched, no_recent, payload_at, recent_after, target_of,
    unchunk, undz, used_again, used_new, worded, Common, Desk, Links, ReferenceBaseUpdate, Tables,
    END_SYMBOL, MIN_MATCH,
};
use crate::codecs::dz::tokens::{links_fit, of_size, sized, tables_fit};
use crate::codecs::zlib::inflate::append_match;
use crate::math::{lemma_pow2_monotonic, power_of_two};

verus! {

/// Changing one model of a list.
pub proof fn lemma_models_update(
    before: Seq<AdaptiveModel>,
    after: Seq<AdaptiveModel>,
    table: int,
)
    requires
        0 <= table < before.len(),
        after == before.update(table, after[table]),
        after.len() == before.len(),
    ensures
        models_of(after) == models_of(before).update(table, after[table]@),
{
    assert(models_of(after) =~= models_of(before).update(table, after[table]@));
}

/// Decodes the digits of a number behind the given part of it.
fn decode_digits(
    decoder: &mut RangeDecoder<'_>,
    models: &mut Vec<AdaptiveModel>,
    bits: u8,
    part: u64,
    first_shift: u32,
) -> (result: Result<usize, DzFault>)
    requires
        old(decoder).sound(),
        old(decoder)@.span.settled(),
        1 <= bits <= 15,
        sized(models_of(old(models)@), pow2(bits as nat)),
        first_shift < 64,
    ensures
        final(decoder).data() == old(decoder).data(),
        match worded(
            get_digits(
                old(decoder).data(),
                old(decoder)@,
                models_of(old(models)@),
                bits,
                0,
                part as int,
                first_shift as nat,
            ),
        ) {
            Ok((number, taker, after)) => {
                &&& result matches Ok(got) && got == number
                &&& final(decoder)@ == taker
                &&& final(decoder).sound()
                &&& taker.span.settled()
                &&& models_of(final(models)@) == after
                &&& sized(after, pow2(bits as nat))
                &&& after.len() == old(models)@.len()
            },
            Err(fault) => result == Err::<usize, DzFault>(fault),
        },
{
    let mut value: u128 = part as u128;
    let mut shift: u32 = first_shift;
    let mut table: usize = 0;
    let ghost data = decoder.data();
    let ghost whole = get_digits(
        data,
        decoder@,
        models_of(models@),
        bits,
        0,
        part as int,
        first_shift as nat,
    );
    proof {
        vstd::arithmetic::power2::lemma2_to64();
        lemma_pow2_monotonic((bits - 1) as nat, 14);
        crate::math::lemma_pow2_step((bits - 1) as nat);
        assert(models_of(models@).len() == models@.len());
    }
    let limit: usize = power_of_two(bits as usize - 1) as usize;
    loop
        invariant
            decoder.sound(),
            decoder@.span.settled(),
            decoder.data() == data,
            data == old(decoder).data(),
            1 <= bits <= 15,
            limit == pow2((bits - 1) as nat),
            1 <= limit <= 0x4000,
            pow2(bits as nat) == 2 * limit,
            sized(models_of(models@), pow2(bits as nat)),
            models_of(models@).len() == models@.len(),
            models@.len() == old(models)@.len(),
            table < models@.len(),
            shift < 64,
            value < (shift + 1) * 0x1_0000_0000_0000_0000,
            whole == get_digits(
                data,
                decoder@,
                models_of(models@),
                bits,
                table as int,
                value as int,
                shift as nat,
            ),
            whole == get_digits(
                data,
                old(decoder)@,
                models_of(old(models)@),
                bits,
                0,
                part as int,
                first_shift as nat,
            ),
        decreases 64 - shift,
    {
        let ghost before = models@;
        assert(models_of(before)[table as int] == before[table as int]@);
        let group: usize = match decoder.decode(&mut models[table]) {
            Ok(group) => group,
            Err(fault) => return Err(fault),
        };
        proof {
            lemma_models_update(before, models@, table as int);
        }
        let power: u64 = power_of_two(shift as usize);
        let digit: u64 = (group % limit) as u64;
        proof {
            assert(digit * power <= 0x4000 * 0xffff_ffff_ffff_ffff) by (nonlinear_arith)
                requires
                    digit <= 0x4000,
                    power <= 0xffff_ffff_ffff_ffff,
            ;
        }
        value = value + (digit as u128 * power as u128) % 0x1_0000_0000_0000_0000;
        if group < limit {
            if value > usize::MAX as u128 {
                return Err(DzFault::GroupedTooLarge);
            }
            return Ok(value as usize);
        }
        if bits <= 1 || shift + (bits as u32 - 1) >= 64 {
            return Err(DzFault::GroupedTooLarge);
        }
        shift = shift + (bits as u32 - 1);
        if models.len() - table > 1 {
            table = table + 1;
        } else {
            table = models.len() - 1;
        }
    }
}

/// Decodes a number.
fn decode_grouped(
    decoder: &mut RangeDecoder<'_>,
    models: &mut Vec<AdaptiveModel>,
    bits: u8,
) -> (result: Result<usize, DzFault>)
    requires
        old(decoder).sound(),
        old(decoder)@.span.settled(),
        1 <= bits <= 15,
        sized(models_of(old(models)@), pow2(bits as nat)),
    ensures
        final(decoder).data() == old(decoder).data(),
        match get_grouped(old(decoder).data(), old(decoder)@, models_of(old(models)@), bits) {
            Ok((number, taker, after)) => {
                &&& result matches Ok(got) && got == number
                &&& final(decoder)@ == taker
                &&& final(decoder).sound()
                &&& taker.span.settled()
                &&& models_of(final(models)@) == after
                &&& sized(after, pow2(bits as nat))
                &&& after.len() == old(models)@.len()
            },
            Err(fault) => result == Err::<usize, DzFault>(fault),
        },
{
    decode_digits(decoder, models, bits, 0, 0)
}

/// Decodes a number of which the first group is known.
fn decode_grouped_from_first(
    decoder: &mut RangeDecoder<'_>,
    models: &mut Vec<AdaptiveModel>,
    bits: u8,
    first_group: usize,
) -> (result: Result<usize, DzFault>)
    requires
        old(decoder).sound(),
        old(decoder)@.span.settled(),
        1 <= bits <= 15,
        of_size(models_of(old(models)@), pow2(bits as nat)),
    ensures
        final(decoder).data() == old(decoder).data(),
        match get_grouped_from_first(
            old(decoder).data(),
            old(decoder)@,
            models_of(old(models)@),
            bits,
            first_group as int,
        ) {
            Ok((number, taker, after)) => {
                &&& result matches Ok(got) && got == number
                &&& final(decoder)@ == taker
                &&& final(decoder).sound()
                &&& taker.span.settled()
                &&& models_of(final(models)@) == after
                &&& of_size(after, pow2(bits as nat))
                &&& after.len() == old(models)@.len()
            },
            Err(fault) => result == Err::<usize, DzFault>(fault),
        },
{
    proof {
        vstd::arithmetic::power2::lemma2_to64();
        lemma_pow2_monotonic((bits - 1) as nat, 14);
        assert(models_of(models@).len() == models@.len());
    }
    let limit: usize = power_of_two(bits as usize - 1) as usize;
    if first_group < limit {
        return Ok(first_group % limit);
    }
    if models.len() == 0 {
        return Err(DzFault::NoContinuation);
    }
    decode_digits(decoder, models, bits, (first_group % limit) as u64, bits as u32 - 1)
}

/// Decodes the length of a reference.
fn decode_reference_length(
    first_group: usize,
    decoder: &mut RangeDecoder<'_>,
    models: &mut Vec<AdaptiveModel>,
    settings: RangeSettings,
    Ghost(desk): Ghost<Desk>,
) -> (result: Result<usize, DzFault>)
    requires
        old(decoder).sound(),
        old(decoder)@.span.settled(),
        1 <= settings.ref_length_table_size <= 15,
        of_size(models_of(old(models)@), pow2(settings.ref_length_table_size as nat)),
        desk.taker == old(decoder)@,
        desk.links.lengths == models_of(old(models)@),
    ensures
        final(decoder).data() == old(decoder).data(),
        match get_reference_length(old(decoder).data(), desk, settings, first_group as int) {
            Ok((length, next)) => {
                &&& result matches Ok(got) && got == length
                &&& final(decoder)@ == next.taker
                &&& final(decoder).sound()
                &&& next.taker.span.settled()
                &&& models_of(final(models)@) == next.links.lengths
                &&& of_size(next.links.lengths, pow2(settings.ref_length_table_size as nat))
                &&& next.links.lengths.len() == old(models)@.len()
            },
            Err(fault) => result == Err::<usize, DzFault>(fault),
        },
{
    let grouped: usize = match decode_grouped_from_first(
        decoder,
        models,
        settings.ref_length_table_size,
        first_group,
    ) {
        Ok(grouped) => grouped,
        Err(fault) => return Err(fault),
    };
    match grouped.checked_add(settings.big_min_match as usize) {
        Some(length) => Ok(length),
        None => Err(DzFault::ReferenceLengthOverflow),
    }
}

/// The distance behind a code, which becomes the most recent one. The code of a distance gives
/// that distance and the recent distances that coding it left.
pub fn decode_recent_distance(code: usize, recent: &mut [usize; 4]) -> (result: Result<
    usize,
    DzFault,
>)
    ensures
        match get_distance(code as int, old(recent)@) {
            Ok((distance, after)) => {
                &&& result == Ok::<usize, DzFault>(distance)
                &&& final(recent)@ == after
            },
            Err(fault) => {
                &&& result == Err::<usize, DzFault>(fault)
                &&& final(recent)@ == used_again(old(recent)@, code as int)
            },
        },
        forall|distance: usize|
            distance >= 1 && code == #[trigger] distance_code(distance, old(recent)@) ==> {
                &&& result == Ok::<usize, DzFault>(distance)
                &&& final(recent)@ == recent_after(distance, old(recent)@)
                &&& final(recent)@[0] == distance
            },
        code < 4 ==> {
            &&& result == (if old(recent)@[code as int] == 0 {
                Err::<usize, DzFault>(DzFault::UnsetDistance)
            } else {
                Ok(old(recent)@[code as int])
            })
            &&& final(recent)@[0] == old(recent)@[code as int]
            &&& final(recent)@[code as int] == old(recent)@[0]
            &&& forall|i: int|
                0 < i < 4 && i != code ==> #[trigger] final(recent)@[i] == old(recent)@[i]
        },
        code >= 4 ==> {
            &&& result == Ok::<usize, DzFault>((code - 3) as usize)
            &&& final(recent)@ == seq![(code - 3) as usize] + old(recent)@.take(3)
        },
{
    proof {
        assert forall|distance: usize|
            distance >= 1 && code == #[trigger] distance_code(distance, recent@) implies get_distance(
            code as int,
            recent@,
        ) == Ok::<(usize, Seq<usize>), DzFault>((distance, recent_after(distance, recent@))) by {
            lemma_distance_round_trip(distance, recent@);
        }
    }
    if code < 4 {
        let distance: usize = recent[code];
        let first: usize = recent[0];
        recent[0] = distance;
        recent[code] = first;
        assert(recent@ =~= used_again(old(recent)@, code as int));
        if distance == 0 {
            return Err(DzFault::UnsetDistance);
        }
        Ok(distance)
    } else {
        let distance: usize = code - 3;
        let first: usize = recent[0];
        let second: usize = recent[1];
        let third: usize = recent[2];
        recent[3] = third;
        recent[2] = second;
        recent[1] = first;
        recent[0] = distance;
        assert(recent@ =~= used_new(old(recent)@, distance));
        Ok(distance)
    }
}

/// Decodes the distance of a match.
fn decode_match(
    decoder: &mut RangeDecoder<'_>,
    models: &mut CommonModels,
    recent: &mut [usize; 4],
    settings: RangeSettings,
    length: usize,
) -> (result: Result<usize, DzFault>)
    requires
        old(decoder).sound(),
        old(decoder)@.span.settled(),
        settings.valid(),
        tables_fit(old(models)@, settings),
        length >= MIN_MATCH,
    ensures
        final(decoder).data() == old(decoder).data(),
        match get_match(
            old(decoder).data(),
            old(decoder)@,
            old(models)@,
            old(recent)@,
            settings.offset_table_size,
            length as int,
        ) {
            Ok((distance, taker, tables, after)) => {
                &&& result == Ok::<usize, DzFault>(distance)
                &&& final(decoder)@ == taker
                &&& final(decoder).sound()
                &&& taker.span.settled()
                &&& final(models)@ == tables
                &&& tables_fit(tables, settings)
                &&& final(recent)@ == after
            },
            Err(fault) => result == Err::<usize, DzFault>(fault),
        },
{
    let count: usize = models.offsets.len();
    let context: usize = if length - MIN_MATCH < count - 1 {
        length - MIN_MATCH
    } else {
        count - 1
    };
    let ghost before = models@;
    let ghost offsets = models.offsets@;
    assert(sized(before.offsets[context as int], pow2(settings.offset_table_size as nat)));
    assert(before.offsets[context as int] == models_of(offsets[context as int]@));
    let code: usize = match decode_grouped(
        decoder,
        &mut models.offsets[context],
        settings.offset_table_size,
    ) {
        Ok(code) => code,
        Err(fault) => return Err(fault),
    };
    proof {
        lemma_offsets_update(offsets, models.offsets@, context as int);
    }
    decode_recent_distance(code, recent)
}

/// Changing one list of models.
pub proof fn lemma_offsets_update(
    before: Seq<Vec<AdaptiveModel>>,
    after: Seq<Vec<AdaptiveModel>>,
    context: int,
)
    requires
        0 <= context < before.len(),
        after.len() == before.len(),
        after == before.update(context, after[context]),
    ensures
        offsets_of(after) == offsets_of(before).update(context, models_of(after[context]@)),
{
    assert(offsets_of(after) =~= offsets_of(before).update(context, models_of(after[context]@)));
}

/// Repeats earlier output.
fn copy_local(
    output: &mut Vec<u8>,
    distance: usize,
    length: usize,
    expected_size: usize,
) -> (result: Result<(), DzFault>)
    requires
        old(output)@.len() <= expected_size,
    ensures
        match matched(old(output)@, distance, length as int, expected_size as int) {
            Ok(longer) => result is Ok && final(output)@ == longer && longer.len() == old(
                output,
            )@.len() + length,
            Err(fault) => result == Err::<(), DzFault>(fault),
        },
{
    if distance == 0 || distance > output.len() {
        return Err(DzFault::Distance { distance, position: output.len() });
    }
    if length > expected_size - output.len() {
        return Err(DzFault::MatchExceeds { expected: expected_size });
    }
    append_match(output, distance, length);
    Ok(())
}

/// Decodes bytes of the common buffer from the start of a payload.
pub fn decode_common_payload(
    payload: &[u8],
    expected_size: usize,
    settings: RangeSettings,
    initial_models: &CommonModels,
) -> (result: Result<(Vec<u8>, usize), DzFault>)
    requires
        settings.valid(),
        tables_fit(initial_models@, settings),
    ensures
        match payload_at(
            payload@,
            0,
            first_taker(),
            initial_models@,
            no_recent(),
            seq![],
            expected_size as int,
            settings.offset_table_size,
            initial_models@,
        ) {
            Ok((bytes, consumed)) => result matches Ok((output, count)) && output@ == bytes
                && count == consumed,
            Err(fault) => result == Err::<(Vec<u8>, usize), DzFault>(fault),
        },
{
    let size: usize = payload.len();
    let mut stream_offset: usize = 0;
    let mut decoder = RangeDecoder::new(payload);
    let mut models = initial_models.duplicate();
    let mut recent: [usize; 4] = [0;4];
    let mut output: Vec<u8> = Vec::new();
    let ghost initial = initial_models@;
    let ghost bits = settings.offset_table_size;
    let ghost expected = expected_size as int;
    assert(recent@ =~= no_recent());
    assert(output@ =~= seq![]);
    assert(payload@.skip(0) =~= payload@);
    let ghost whole = payload_at(
        payload@,
        0,
        first_taker(),
        initial,
        no_recent(),
        seq![],
        expected,
        bits,
        initial,
    );
    while output.len() < expected_size
        invariant
            settings.valid(),
            size == payload@.len(),
            initial == initial_models@,
            bits == settings.offset_table_size,
            expected == expected_size,
            tables_fit(initial, settings),
            decoder.sound(),
            decoder@.span.settled(),
            decoder.data() == payload@.skip(stream_offset as int),
            stream_offset <= size,
            tables_fit(models@, settings),
            output@.len() <= expected,
            whole == payload_at(
                payload@,
                0,
                first_taker(),
                initial,
                no_recent(),
                seq![],
                expected,
                bits,
                initial,
            ),
            whole == payload_at(
                payload@,
                stream_offset as int,
                decoder@,
                models@,
                recent@,
                output@,
                expected,
                bits,
                initial,
            ),
        decreases size - stream_offset, expected_size - output@.len(),
    {
        let ghost before = models@;
        let ghost out = output@;
        let symbol: usize = match decoder.decode(&mut models.top) {
            Ok(symbol) => symbol,
            Err(fault) => return Err(fault),
        };
        assert(models@ == (Tables { top: models.top@, offsets: before.offsets }));
        assert(tables_fit(models@, settings));
        if symbol < 256 {
            output.push(symbol as u8);
        } else if symbol < END_SYMBOL {
            let full_length: usize = symbol - 254;
            let distance: usize = match decode_match(
                &mut decoder,
                &mut models,
                &mut recent,
                settings,
                full_length,
            ) {
                Ok(distance) => distance,
                Err(fault) => return Err(fault),
            };
            let room: usize = expected_size - output.len();
            let length: usize = if full_length < room {
                full_length
            } else {
                room
            };
            match copy_local(&mut output, distance, length, expected_size) {
                Ok(()) => {},
                Err(fault) => return Err(fault),
            }
        } else if symbol == END_SYMBOL {
            let end: usize = decoder.finished_position();
            if end > usize::MAX - stream_offset {
                return Err(DzFault::OffsetOverflow);
            }
            stream_offset = stream_offset + end;
            if stream_offset > size {
                return Err(DzFault::SegmentOutsideChunk);
            }
            let rest = vstd::slice::slice_subrange(payload, stream_offset, size);
            assert(rest@ =~= payload@.skip(stream_offset as int));
            decoder = RangeDecoder::new(rest);
            models = initial_models.duplicate();
        } else {
            return Err(DzFault::CommonToken { symbol });
        }
    }
    let consumed: usize = decoder.consumed();
    if consumed > usize::MAX - stream_offset {
        return Err(DzFault::OffsetOverflow);
    }
    Ok((output, stream_offset + consumed))
}

/// The place a reference points to.
fn target_place(base: i64, negative: bool, magnitude: usize) -> (result: Result<usize, DzFault>)
    requires
        base >= 0,
    ensures
        match target_of(base as int, negative, magnitude as int) {
            Ok(target) => result matches Ok(place) && place == target,
            Err(fault) => result == Err::<usize, DzFault>(fault),
        },
{
    if magnitude as u64 > i64::MAX as u64 {
        return Err(DzFault::DeltaOverflow);
    }
    let signed: i64 = magnitude as i64;
    let sum: i64 = if negative {
        base + (-1 - signed)
    } else {
        if signed > i64::MAX - base {
            return Err(DzFault::OffsetOverflow);
        }
        base + signed
    };
    if sum < i64::MIN + 3 {
        return Err(DzFault::OffsetOverflow);
    }
    let target: i64 = sum - 3;
    if target < 0 {
        let magnitude: u64 = (-(target + 1)) as u64 + 1;
        return Err(DzFault::NegativeOffset { magnitude });
    }
    if target as u64 > usize::MAX as u64 {
        return Err(DzFault::OffsetOverflow);
    }
    Ok(target as usize)
}

/// The state of a decoder between two tokens.
pub open spec fn desk_at(decoder: &RangeDecoder<'_>, models: &DzModels, recent: [usize; 4]) -> Desk {
    Desk { taker: decoder@, tables: models.common@, links: models.links(), recent: recent@ }
}

/// The models of a chunk have the shape that the settings ask for.
pub open spec fn models_fit(models: &DzModels, settings: RangeSettings) -> bool {
    tables_fit(models.common@, settings) && links_fit(models.links(), settings)
}

/// Decodes the place a reference points to, and which recent end it is relative to.
fn decode_target(
    decoder: &mut RangeDecoder<'_>,
    models: &mut DzModels,
    settings: RangeSettings,
    Ghost(recent): Ghost<Seq<usize>>,
) -> (result: Result<(usize, usize), DzFault>)
    requires
        old(decoder).sound(),
        old(decoder)@.span.settled(),
        settings.valid(),
        settings.reference_fault() is None,
        models_fit(old(models), settings),
    ensures
        final(decoder).data() == old(decoder).data(),
        match get_target(
            old(decoder).data(),
            Desk {
                taker: old(decoder)@,
                tables: old(models).common@,
                links: old(models).links(),
                recent,
            },
            settings,
        ) {
            Ok((target, index, next)) => {
                &&& result matches Ok((place, number)) && place == target && number == index
                &&& 0 <= index < 8
                &&& final(decoder)@ == next.taker
                &&& final(decoder).sound()
                &&& next.taker.span.settled()
                &&& final(models).links() == next.links
                &&& final(models).common@ == old(models).common@
                &&& next.tables == old(models).common@
                &&& next.recent == recent
                &&& models_fit(final(models), settings)
            },
            Err(fault) => result == Err::<(usize, usize), DzFault>(fault),
        },
{
    let index: usize = match decoder.decode(&mut models.reference_base) {
        Ok(index) => index,
        Err(fault) => return Err(fault),
    };
    let sign: usize = match decoder.decode(&mut models.reference_sign) {
        Ok(sign) => sign,
        Err(fault) => return Err(fault),
    };
    assert(models_of(models.reference_offsets@).len() == models.reference_offsets@.len());
    let magnitude: usize = match decode_grouped(
        decoder,
        &mut models.reference_offsets,
        settings.ref_offset_table_size,
    ) {
        Ok(magnitude) => magnitude,
        Err(fault) => return Err(fault),
    };
    assert(models.links().bases[index as int] >= 0);
    match target_place(models.reference_bases[index], sign != 0, magnitude) {
        Ok(target) => Ok((target, index)),
        Err(fault) => Err(fault),
    }
}

/// Decodes a reference and appends the bytes it stands for.
fn decode_reference(
    decoder: &mut RangeDecoder<'_>,
    models: &mut DzModels,
    settings: RangeSettings,
    common_buffer: Option<&DzCommonBuffer>,
    base_update: ReferenceBaseUpdate,
    first_group: usize,
    expected_size: usize,
    output: &mut Vec<u8>,
    Ghost(recent): Ghost<Seq<usize>>,
) -> (result: Result<(), DzFault>)
    requires
        old(decoder).sound(),
        old(decoder)@.span.settled(),
        settings.valid(),
        models_fit(old(models), settings),
        old(output)@.len() <= expected_size,
    ensures
        final(decoder).data() == old(decoder).data(),
        match get_reference(
            old(decoder).data(),
            Desk {
                taker: old(decoder)@,
                tables: old(models).common@,
                links: old(models).links(),
                recent,
            },
            settings,
            common_view(common_buffer),
            base_update,
            first_group as int,
            old(output)@.len() as int,
            expected_size as int,
        ) {
            Ok((bytes, next)) => {
                &&& result is Ok
                &&& final(output)@ == old(output)@ + bytes
                &&& final(decoder)@ == next.taker
                &&& final(decoder).sound()
                &&& next.taker.span.settled()
                &&& final(models).links() == next.links
                &&& final(models).common@ == next.tables
                &&& next.recent == recent
                &&& models_fit(final(models), settings)
            },
            Err(fault) => result == Err::<(), DzFault>(fault),
        },
{
    match validate_common_settings(settings, true) {
        Ok(()) => {},
        Err(fault) => return Err(fault),
    }
    let buffer = match common_buffer {
        Some(buffer) => buffer,
        None => return Err(DzFault::NoCommonBuffer),
    };
    let ghost start = Desk {
        taker: decoder@,
        tables: models.common@,
        links: models.links(),
        recent,
    };
    let length: usize = match decode_reference_length(
        first_group,
        decoder,
        &mut models.reference_lengths,
        settings,
        Ghost(start),
    ) {
        Ok(length) => length,
        Err(fault) => return Err(fault),
    };
    if length > expected_size - output.len() {
        return Err(DzFault::ReferenceExceeds { length, expected: expected_size });
    }
    let (target, index) = match decode_target(decoder, models, settings, Ghost(recent)) {
        Ok(found) => found,
        Err(fault) => return Err(fault),
    };
    let (bytes, consumed) = match buffer.decode_at(target, length) {
        Ok(decoded) => decoded,
        Err(fault) => return Err(fault),
    };
    let base: i64 = match base_update {
        ReferenceBaseUpdate::Zero => 0,
        ReferenceBaseUpdate::CompressedEndpoint => {
            if consumed > usize::MAX - target {
                return Err(DzFault::EndpointOverflow);
            }
            let endpoint: usize = target + consumed;
            if endpoint as u64 > i64::MAX as u64 {
                return Err(DzFault::EndpointOverflow);
            }
            endpoint as i64
        },
    };
    let mut bytes = bytes;
    output.append(&mut bytes);
    let ghost links = models.links();
    models.reference_bases[index] = base;
    proof {
        assert(models.links() =~= (Links { bases: links.bases.update(index as int, base), ..links }));
    }
    Ok(())
}

/// The common buffer behind a reference to one.
pub open spec fn common_view(buffer: Option<&DzCommonBuffer>) -> Option<Common> {
    match buffer {
        Some(buffer) => Some(buffer@),
        None => None,
    }
}

/// Decodes a chunk under one rule for the recent ends of references.
pub fn decompress_chunk_with_reference_base_update(
    input: &[u8],
    expected_size: usize,
    settings: RangeSettings,
    common_buffer: Option<&DzCommonBuffer>,
    base_update: ReferenceBaseUpdate,
    output: Vec<u8>,
) -> (result: Result<Vec<u8>, DzFault>)
    requires
        settings.valid(),
    ensures
        match unchunk(
            input@,
            expected_size as int,
            settings,
            common_view(common_buffer),
            base_update,
        ) {
            Ok(bytes) => result matches Ok(output) && output@ == bytes,
            Err(fault) => result == Err::<Vec<u8>, DzFault>(fault),
        },
{
    let ghost common = common_view(common_buffer);
    let mut output = output;
    output.clear();
    let mut decoder = RangeDecoder::new(input);
    let mut models = match DzModels::new(settings, common_buffer.is_some()) {
        Ok(models) => models,
        Err(fault) => return Err(fault),
    };
    let mut recent: [usize; 4] = [0;4];
    let ghost whole = unchunk(input@, expected_size as int, settings, common, base_update);
    proof {
        assert(recent@ =~= no_recent());
        assert(output@ =~= seq![]);
        assert(desk_at(&decoder, &models, recent) == first_desk(settings, common is Some));
        crate::codecs::dz::tokens::lemma_first_work(settings, common is Some);
        let work = crate::codecs::dz::tokens::first_work(settings, common is Some);
        assert(work.links == models.links());
        assert(work.tables == models.common@);
    }
    loop
        invariant
            settings.valid(),
            common == common_view(common_buffer),
            decoder.data() == input@,
            decoder.sound(),
            decoder@.span.settled(),
            models_fit(&models, settings),
            output@.len() <= expected_size,
            whole == chunk_at(
                input@,
                desk_at(&decoder, &models, recent),
                output@,
                expected_size as int,
                settings,
                common,
                base_update,
            ),
            whole == unchunk(input@, expected_size as int, settings, common, base_update),
        decreases expected_size - output@.len(),
    {
        let ghost out = output@;
        let ghost desk = desk_at(&decoder, &models, recent);
        proof {
            lemma_turn(
                input@,
                desk,
                out,
                expected_size as int,
                settings,
                common,
                base_update,
            );
        }
        let symbol: usize = match decoder.decode(&mut models.common.top) {
            Ok(symbol) => symbol,
            Err(fault) => return Err(fault),
        };
        if symbol < 256 {
            if output.len() >= expected_size {
                return Err(DzFault::LiteralBehindEnd);
            }
            output.push(symbol as u8);
        } else if symbol < END_SYMBOL {
            let length: usize = symbol - 254;
            let distance: usize = match decode_match(
                &mut decoder,
                &mut models.common,
                &mut recent,
                settings,
                length,
            ) {
                Ok(distance) => distance,
                Err(fault) => return Err(fault),
            };
            match copy_local(&mut output, distance, length, expected_size) {
                Ok(()) => {},
                Err(fault) => return Err(fault),
            }
        } else if symbol == END_SYMBOL {
            if output.len() != expected_size {
                return Err(DzFault::EarlyEnd { actual: output.len(), expected: expected_size });
            }
            return Ok(output);
        } else {
            match decode_reference(
                &mut decoder,
                &mut models,
                settings,
                common_buffer,
                base_update,
                symbol - TOP_SYMBOLS,
                expected_size,
                &mut output,
                Ghost(recent@),
            ) {
                Ok(()) => {},
                Err(fault) => return Err(fault),
            }
        }
    }
}

/// Decodes a chunk into the storage of an earlier output.
pub fn decompress_chunk_with_output(
    input: &[u8],
    expected_size: usize,
    settings: RangeSettings,
    common_buffer: Option<&DzCommonBuffer>,
    output: Vec<u8>,
) -> (result: Result<Vec<u8>, DzFault>)
    ensures
        match undz(input@, expected_size as int, settings, common_view(common_buffer)) {
            Ok(bytes) => result matches Ok(output) && output@ == bytes,
            Err(fault) => result == Err::<Vec<u8>, DzFault>(fault),
        },
{
    if !settings.is_valid() {
        return Err(DzFault::InvalidSettings);
    }
    let first = decompress_chunk_with_reference_base_update(
        input,
        expected_size,
        settings,
        common_buffer,
        ReferenceBaseUpdate::CompressedEndpoint,
        output,
    );
    if common_buffer.is_none() {
        return first;
    }
    match first {
        Ok(output) => Ok(output),
        Err(fault) => match decompress_chunk_with_reference_base_update(
            input,
            expected_size,
            settings,
            common_buffer,
            ReferenceBaseUpdate::Zero,
            Vec::new(),
        ) {
            Ok(output) => Ok(output),
            Err(_) => Err(fault),
        },
    }
}

} // verus!
