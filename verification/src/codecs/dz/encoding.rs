//! Encoding of tokens.

use vstd::arithmetic::power2::pow2;
use vstd::prelude::*;

use crate::codecs::dz::decoding::{lemma_models_update, lemma_offsets_update};
use crate::codecs::dz::fault::DzFault;
use crate::codecs::dz::matchfinder::code_of_distance;
use crate::codecs::dz::model::{models_of, CommonModels, DzModels};
use crate::codecs::dz::range::{AdaptiveModel, RangeEncoder};
use crate::codecs::dz::settings::{RangeSettings, TOP_SYMBOLS};
use crate::codecs::dz::stream::{
    distance_code, recent_after, used_again, used_new, Links, MAX_MATCH, MIN_MATCH,
};
use crate::codecs::dz::tokens::{
    lemma_limit, lemma_put_match, lemma_put_reference_length, lemma_put_target, lemma_smaller,
    nearest, put_digits, put_match, put_reference_length, put_token, sized, work_fits, Token, Work,
};
use crate::math::{lemma_pow2_monotonic, power_of_two};

verus! {

/// The state of an encoder of local tokens.
pub open spec fn work_at(
    encoder: &RangeEncoder,
    models: &CommonModels,
    links: Links,
    recent: [usize; 4],
) -> Work {
    Work { sender: encoder@, tables: models@, links, recent: recent@ }
}

/// Encodes the digits of a number.
pub fn encode_grouped(
    encoder: &mut RangeEncoder,
    models: &mut Vec<AdaptiveModel>,
    bits: u8,
    value: usize,
) -> (result: Result<(), DzFault>)
    requires
        old(encoder)@.span.sound(),
        old(encoder)@.span.settled(),
        1 <= bits <= 15,
        sized(models_of(old(models)@), pow2(bits as nat)),
    ensures
        match put_digits(old(encoder)@, models_of(old(models)@), bits, 0, value as int) {
            Ok((sender, after)) => {
                &&& result is Ok
                &&& final(encoder)@ == sender
                &&& sender.span.sound()
                &&& sender.span.settled()
                &&& models_of(final(models)@) == after
            },
            Err(fault) => result == Err::<(), DzFault>(fault),
        },
{
    proof {
        vstd::arithmetic::power2::lemma2_to64();
        lemma_pow2_monotonic((bits - 1) as nat, 14);
        lemma_limit(bits);
        assert(models_of(models@).len() == models@.len());
    }
    let limit: usize = power_of_two(bits as usize - 1) as usize;
    let mut rest: usize = value;
    let mut table: usize = 0;
    let ghost whole = put_digits(encoder@, models_of(models@), bits, 0, value as int);
    loop
        invariant
            encoder@.span.sound(),
            encoder@.span.settled(),
            1 <= bits <= 15,
            limit == pow2((bits - 1) as nat),
            1 <= limit <= 0x4000,
            bits >= 2 ==> limit >= 2,
            pow2(bits as nat) == 2 * limit,
            sized(models_of(models@), pow2(bits as nat)),
            models_of(models@).len() == models@.len(),
            table < models@.len(),
            whole == put_digits(
                old(encoder)@,
                models_of(old(models)@),
                bits,
                0,
                value as int,
            ),
            whole == put_digits(
                encoder@,
                models_of(models@),
                bits,
                table as int,
                rest as int,
            ),
        decreases rest,
    {
        proof {
            lemma_smaller(rest as int, limit as int);
        }
        if bits <= 1 && rest > 0 {
            return Err(DzFault::GroupedTooLarge);
        }
        let group: usize = rest % limit + (if rest >= limit {
            limit
        } else {
            0
        });
        let ghost before = models@;
        assert(models_of(before)[table as int] == before[table as int]@);
        match encoder.encode(&mut models[table], group) {
            Ok(()) => {},
            Err(fault) => return Err(fault),
        }
        proof {
            lemma_models_update(before, models@, table as int);
        }
        if rest < limit {
            return Ok(());
        }
        rest = rest / limit;
        if models.len() - table > 1 {
            table = table + 1;
        } else {
            table = models.len() - 1;
        }
    }
}

/// The code of a distance, which becomes the most recent one.
pub fn encode_recent_distance(distance: usize, recent: &mut [usize; 4]) -> (code: usize)
    requires
        distance + 3 <= usize::MAX,
    ensures
        code == distance_code(distance, old(recent)@),
        final(recent)@ == recent_after(distance, old(recent)@),
        old(recent)@.contains(distance) ==> {
            &&& code < 4
            &&& old(recent)@[code as int] == distance
            &&& forall|i: int| 0 <= i < code ==> #[trigger] old(recent)@[i] != distance
            &&& final(recent)@[0] == distance
            &&& final(recent)@[code as int] == old(recent)@[0]
            &&& forall|i: int|
                0 < i < 4 && i != code ==> #[trigger] final(recent)@[i] == old(recent)@[i]
        },
        !old(recent)@.contains(distance) ==> {
            &&& code == distance + 3
            &&& final(recent)@ == seq![distance] + old(recent)@.take(3)
        },
{
    proof {
        if !recent@.contains(distance) {
            assert(recent@[0] != distance && recent@[1] != distance && recent@[2] != distance
                && recent@[3] != distance);
        }
    }
    let code: usize = code_of_distance(distance, recent);
    if code < 4 && recent[code] == distance {
        let first: usize = recent[0];
        let used: usize = recent[code];
        recent[0] = used;
        recent[code] = first;
        assert(recent@ =~= used_again(old(recent)@, code as int));
    } else {
        let first: usize = recent[0];
        let second: usize = recent[1];
        let third: usize = recent[2];
        recent[3] = third;
        recent[2] = second;
        recent[1] = first;
        recent[0] = distance;
        assert(recent@ =~= used_new(old(recent)@, distance));
    }
    code
}

/// Encodes a local match.
pub fn encode_match(
    encoder: &mut RangeEncoder,
    models: &mut CommonModels,
    recent: &mut [usize; 4],
    settings: RangeSettings,
    length: usize,
    distance: usize,
    Ghost(links): Ghost<Links>,
) -> (result: Result<(), DzFault>)
    requires
        work_fits(work_at(old(encoder), old(models), links, *old(recent)), settings),
        MIN_MATCH <= length <= MAX_MATCH,
        1 <= distance,
        distance + 3 <= usize::MAX,
    ensures
        match put_match(
            work_at(old(encoder), old(models), links, *old(recent)),
            settings,
            length as int,
            distance,
        ) {
            Ok(work) => {
                &&& result is Ok
                &&& work_at(final(encoder), final(models), links, *final(recent)) == work
                &&& work_fits(work, settings)
            },
            Err(fault) => result == Err::<(), DzFault>(fault),
        },
{
    let ghost work = work_at(encoder, models, links, *recent);
    proof {
        lemma_put_match(work, settings, length as int, distance);
    }
    match encoder.encode(&mut models.top, length + 254) {
        Ok(()) => {},
        Err(fault) => return Err(fault),
    }
    let code: usize = encode_recent_distance(distance, recent);
    let count: usize = models.offsets.len();
    let context: usize = if length - MIN_MATCH < count - 1 {
        length - MIN_MATCH
    } else {
        count - 1
    };
    let ghost offsets = models.offsets@;
    assert(work.tables.offsets[context as int] == models_of(offsets[context as int]@));
    assert(sized(work.tables.offsets[context as int], pow2(settings.offset_table_size as nat)));
    match encode_grouped(
        encoder,
        &mut models.offsets[context],
        settings.offset_table_size,
        code,
    ) {
        Ok(()) => {},
        Err(fault) => return Err(fault),
    }
    proof {
        lemma_offsets_update(offsets, models.offsets@, context as int);
    }
    Ok(())
}

/// A part of a chunk that the common buffer holds.
#[derive(Debug, Clone, Copy, PartialEq, Eq, Structural)]
pub struct ResolvedReference {
    pub position: usize,
    pub length: usize,
    pub target: usize,
    pub next_base: usize,
}

/// The number of the recent end that is nearest to a place.
fn nearest_base(bases: &[i64; 8], target: i64) -> (index: usize)
    requires
        target >= 0,
        forall|i: int| 0 <= i < 8 ==> #[trigger] bases@[i] >= 0,
    ensures
        index == nearest(bases@, target as int, 8),
        index < 8,
{
    let mut best: usize = 0;
    let mut n: usize = 1;
    assert(nearest(bases@, target as int, 1) == 0);
    while n < 8
        invariant
            1 <= n <= 8,
            target >= 0,
            forall|i: int| 0 <= i < 8 ==> #[trigger] bases@[i] >= 0,
            best == nearest(bases@, target as int, n as nat),
            best < 8,
        decreases 8 - n,
    {
        assert(bases@[n as int] >= 0 && bases@[best as int] >= 0);
        let here: i64 = if target >= bases[n] {
            target - bases[n]
        } else {
            bases[n] - target
        };
        let there: i64 = if target >= bases[best] {
            target - bases[best]
        } else {
            bases[best] - target
        };
        if here < there {
            best = n;
        }
        n += 1;
    }
    best
}

/// Encodes the length of a reference, the first group in the top alphabet.
fn encode_grouped_with_first_in_top(
    encoder: &mut RangeEncoder,
    models: &mut DzModels,
    settings: RangeSettings,
    length: usize,
    Ghost(recent): Ghost<[usize; 4]>,
) -> (result: Result<(), DzFault>)
    requires
        work_fits(
            work_at(old(encoder), &old(models).common, old(models).links(), recent),
            settings,
        ),
        settings.reference_fault() is None,
        old(models).common@.top.frequencies.len() >= TOP_SYMBOLS + pow2(
            settings.ref_length_table_size as nat,
        ),
    ensures
        match put_reference_length(
            work_at(old(encoder), &old(models).common, old(models).links(), recent),
            settings,
            length as int,
        ) {
            Ok(work) => {
                &&& result is Ok
                &&& work_at(
                    final(encoder),
                    &final(models).common,
                    final(models).links(),
                    recent,
                ) == work
                &&& work_fits(work, settings)
            },
            Err(fault) => result == Err::<(), DzFault>(fault),
        },
{
    let bits: u8 = settings.ref_length_table_size;
    let ghost work = work_at(encoder, &models.common, models.links(), recent);
    proof {
        vstd::arithmetic::power2::lemma2_to64();
        lemma_pow2_monotonic((bits - 1) as nat, 14);
        lemma_limit(bits);
        lemma_put_reference_length(work, settings, length as int);
    }
    let minimum: usize = settings.big_min_match as usize;
    if length < minimum {
        return Err(DzFault::ShortReference { length, minimum });
    }
    let limit: usize = power_of_two(bits as usize - 1) as usize;
    let value: usize = length - minimum;
    proof {
        lemma_smaller(value as int, limit as int);
    }
    let group: usize = value % limit + (if value >= limit {
        limit
    } else {
        0
    });
    match encoder.encode(&mut models.common.top, TOP_SYMBOLS + group) {
        Ok(()) => {},
        Err(fault) => return Err(fault),
    }
    if value < limit {
        return Ok(());
    }
    assert(models_of(models.reference_lengths@).len() == models.reference_lengths@.len());
    encode_grouped(encoder, &mut models.reference_lengths, bits, value / limit)
}

/// Encodes a reference into the common buffer.
pub fn encode_common_reference(
    encoder: &mut RangeEncoder,
    models: &mut DzModels,
    settings: RangeSettings,
    reference: ResolvedReference,
    Ghost(recent): Ghost<[usize; 4]>,
) -> (result: Result<(), DzFault>)
    requires
        work_fits(
            work_at(old(encoder), &old(models).common, old(models).links(), recent),
            settings,
        ),
        settings.reference_fault() is None,
        old(models).common@.top.frequencies.len() >= TOP_SYMBOLS + pow2(
            settings.ref_length_table_size as nat,
        ),
        reference.next_base <= i64::MAX,
    ensures
        match put_token(
            work_at(old(encoder), &old(models).common, old(models).links(), recent),
            settings,
            Token::Reference {
                length: reference.length as int,
                target: reference.target as int,
                next: reference.next_base as i64,
            },
        ) {
            Ok(work) => {
                &&& result is Ok
                &&& work_at(
                    final(encoder),
                    &final(models).common,
                    final(models).links(),
                    recent,
                ) == work
                &&& work_fits(work, settings)
            },
            Err(fault) => result == Err::<(), DzFault>(fault),
        },
{
    match encode_grouped_with_first_in_top(
        encoder,
        models,
        settings,
        reference.length,
        Ghost(recent),
    ) {
        Ok(()) => {},
        Err(fault) => return Err(fault),
    }
    let ghost work = work_at(encoder, &models.common, models.links(), recent);
    proof {
        lemma_put_target(
            work,
            settings,
            reference.target as int,
            reference.next_base as i64,
        );
    }
    if reference.target as u64 > i64::MAX as u64 - 3 {
        return Err(DzFault::TargetOverflow);
    }
    let target: i64 = reference.target as i64;
    proof {
        assert forall|i: int| 0 <= i < 8 implies #[trigger] models.reference_bases@[i] >= 0 by {
            assert(models.links().bases[i] >= 0);
        }
    }
    let index: usize = nearest_base(&models.reference_bases, target);
    assert(models.links().bases[index as int] >= 0);
    let delta: i64 = target - models.reference_bases[index] + 3;
    let (negative, magnitude): (usize, i64) = if delta < 0 {
        (1, -1 - delta)
    } else {
        (0, delta)
    };
    if magnitude as u64 > usize::MAX as u64 {
        return Err(DzFault::CostDeltaOverflow);
    }
    match encoder.encode(&mut models.reference_base, index) {
        Ok(()) => {},
        Err(fault) => return Err(fault),
    }
    match encoder.encode(&mut models.reference_sign, negative) {
        Ok(()) => {},
        Err(fault) => return Err(fault),
    }
    assert(models_of(models.reference_offsets@).len() == models.reference_offsets@.len());
    match encode_grouped(
        encoder,
        &mut models.reference_offsets,
        settings.ref_offset_table_size,
        magnitude as usize,
    ) {
        Ok(()) => {},
        Err(fault) => return Err(fault),
    }
    models.reference_bases[index] = reference.next_base as i64;
    proof {
        assert(models.links().bases =~= work.links.bases.update(
            index as int,
            reference.next_base as i64,
        ));
    }
    Ok(())
}

} // verus!
