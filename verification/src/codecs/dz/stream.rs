//! What a DZ stream says.
//!
//! A chunk is a sequence of symbols of one top alphabet: literals, lengths of local matches,
//! lengths of references into the common buffer, and the end. Distances and further digits of
//! large numbers come from alphabets of their own.

use vstd::arithmetic::power2::pow2;
use vstd::prelude::*;

use crate::codecs::dz::coder::{
    end_position, first_taker, get_symbol, lemma_get_symbol, looked_at, recorded, uniform, Model,
    Taker,
};
use crate::codecs::dz::fault::DzFault;
use crate::codecs::dz::range::MODEL_INCREMENT;
use crate::codecs::dz::settings::{RangeSettings, TOP_SYMBOLS};
use crate::codecs::zlib::inflate::{copy_match, lemma_copy_match_len};

verus! {

/// The symbol that ends a stream.
pub const END_SYMBOL: usize = 513;

/// The shortest local match.
pub const MIN_MATCH: usize = 2;

/// The longest local match.
pub const MAX_MATCH: usize = 258;

/// The alphabets of literals and local matches.
#[verifier::ext_equal]
pub struct Tables {
    pub top: Model,
    pub offsets: Seq<Seq<Model>>,
}

/// The alphabets of references into the common buffer, and the recent ends of references.
#[verifier::ext_equal]
pub struct Links {
    pub lengths: Seq<Model>,
    pub spots: Seq<Model>,
    pub sign: Model,
    pub base: Model,
    pub bases: Seq<i64>,
}

/// All that a decoder carries from token to token.
#[verifier::ext_equal]
pub struct Desk {
    pub taker: Taker,
    pub tables: Tables,
    pub links: Links,
    pub recent: Seq<usize>,
}

/// The increment of the models with the given number within a context.
pub open spec fn table_increment(table: int) -> u16 {
    (32 + 4 * table) as u16
}

/// The initial distance models.
pub open spec fn uniform_offsets(settings: RangeSettings) -> Seq<Seq<Model>> {
    Seq::new(
        settings.offset_contexts as nat,
        |context: int| uniform_context(settings),
    )
}

pub open spec fn uniform_context(settings: RangeSettings) -> Seq<Model> {
    Seq::new(
        settings.offset_tables as nat,
        |table: int| uniform(pow2(settings.offset_table_size as nat), table_increment(table)),
    )
}

/// The initial models without recorded frequencies.
pub open spec fn uniform_tables(settings: RangeSettings) -> Tables {
    Tables {
        top: uniform(TOP_SYMBOLS as nat, MODEL_INCREMENT),
        offsets: uniform_offsets(settings),
    }
}

/// Where the recorded frequencies of a distance model begin.
pub open spec fn table_start(settings: RangeSettings, context: int, table: int) -> int {
    TOP_SYMBOLS + (context * settings.offset_tables + table) * pow2(
        settings.offset_table_size as nat,
    )
}

/// The initial models of recorded frequencies.
pub open spec fn recorded_tables(prefix: Seq<u8>, settings: RangeSettings) -> Tables {
    Tables {
        top: recorded(prefix.take(TOP_SYMBOLS as int), MODEL_INCREMENT),
        offsets: Seq::new(
            settings.offset_contexts as nat,
            |context: int| recorded_context(prefix, settings, context),
        ),
    }
}

pub open spec fn recorded_context(prefix: Seq<u8>, settings: RangeSettings, context: int) -> Seq<
    Model,
> {
    Seq::new(
        settings.offset_tables as nat,
        |table: int|
            recorded(
                prefix.subrange(
                    table_start(settings, context, table),
                    table_start(settings, context, table + 1),
                ),
                table_increment(table),
            ),
    )
}

/// The initial models of a chunk.
pub open spec fn chunk_tables(settings: RangeSettings, has_combuf: bool) -> Tables {
    Tables {
        top: uniform(
            if has_combuf {
                (TOP_SYMBOLS + pow2(settings.ref_length_table_size as nat)) as nat
            } else {
                TOP_SYMBOLS as nat
            },
            MODEL_INCREMENT,
        ),
        offsets: uniform_offsets(settings),
    }
}

pub open spec fn chunk_links(settings: RangeSettings) -> Links {
    Links {
        lengths: Seq::new(
            settings.ref_length_tables as nat,
            |table: int| uniform(pow2(settings.ref_length_table_size as nat), 32),
        ),
        spots: Seq::new(
            settings.ref_offset_tables as nat,
            |table: int| uniform(pow2(settings.ref_offset_table_size as nat), 32),
        ),
        sign: uniform(2, MODEL_INCREMENT),
        base: uniform(8, MODEL_INCREMENT),
        bases: Seq::new(8, |i: int| 0i64),
    }
}

/// No distance has been used yet.
pub open spec fn no_recent() -> Seq<usize> {
    Seq::new(4, |i: int| 0usize)
}

/// The model for the digit behind the one of model `table`.
pub open spec fn next_table(table: int, count: nat) -> int {
    if table + 1 < count {
        table + 1
    } else {
        count - 1
    }
}

/// A number in digits of `bits - 1` bits, the lowest first, each in a group whose top bit says
/// that more follow.
pub open spec fn get_digits(
    data: Seq<u8>,
    taker: Taker,
    models: Seq<Model>,
    bits: u8,
    table: int,
    value: int,
    shift: nat,
) -> Result<(int, Taker, Seq<Model>), DzFault>
    decreases 64 - shift,
{
    let limit = pow2((bits - 1) as nat) as int;
    match get_symbol(data, taker, models[table]) {
        Err(fault) => Err(fault),
        Ok((group, next, model)) => {
            let models = models.update(table, model);
            let value = value + ((group % limit) * pow2(shift)) % 0x1_0000_0000_0000_0000;
            if group < limit {
                Ok((value, next, models))
            } else if bits <= 1 || shift + bits - 1 >= 64 {
                Err(DzFault::GroupedTooLarge)
            } else {
                get_digits(
                    data,
                    next,
                    models,
                    bits,
                    next_table(table, models.len()),
                    value,
                    (shift + bits - 1) as nat,
                )
            }
        },
    }
}

pub proof fn lemma_digits(
    data: Seq<u8>,
    taker: Taker,
    models: Seq<Model>,
    bits: u8,
    table: int,
    value: int,
    shift: nat,
)
    ensures
        get_digits(data, taker, models, bits, table, value, shift) matches Ok((number, _, _))
            ==> number >= value,
    decreases 64 - shift,
{
    let limit = pow2((bits - 1) as nat) as int;
    if let Ok((group, next, model)) = get_symbol(data, taker, models[table]) {
        let models = models.update(table, model);
        let value = value + ((group % limit) * pow2(shift)) % 0x1_0000_0000_0000_0000;
        if group >= limit && bits > 1 && shift + bits - 1 < 64 {
            lemma_digits(
                data,
                next,
                models,
                bits,
                next_table(table, models.len()),
                value,
                (shift + bits - 1) as nat,
            );
        }
    }
}

/// A number that must fit the machine word.
pub open spec fn worded(result: Result<(int, Taker, Seq<Model>), DzFault>) -> Result<
    (int, Taker, Seq<Model>),
    DzFault,
> {
    match result {
        Ok((value, _, _)) if value > usize::MAX => Err(DzFault::GroupedTooLarge),
        _ => result,
    }
}

/// A number of which every digit comes from its own models.
pub open spec fn get_grouped(data: Seq<u8>, taker: Taker, models: Seq<Model>, bits: u8) -> Result<
    (int, Taker, Seq<Model>),
    DzFault,
> {
    worded(get_digits(data, taker, models, bits, 0, 0, 0))
}

/// A number of which the first group is known.
pub open spec fn get_grouped_from_first(
    data: Seq<u8>,
    taker: Taker,
    models: Seq<Model>,
    bits: u8,
    first: int,
) -> Result<(int, Taker, Seq<Model>), DzFault> {
    let limit = pow2((bits - 1) as nat) as int;
    if first < limit {
        Ok((first % limit, taker, models))
    } else if models.len() == 0 {
        Err(DzFault::NoContinuation)
    } else {
        worded(get_digits(data, taker, models, bits, 0, first % limit, (bits - 1) as nat))
    }
}

/// The recent distances after number `code` was used.
pub open spec fn used_again(recent: Seq<usize>, code: int) -> Seq<usize> {
    recent.update(0, recent[code]).update(code, recent[0])
}

/// The recent distances after a new one was used.
pub open spec fn used_new(recent: Seq<usize>, distance: usize) -> Seq<usize> {
    seq![distance, recent[0], recent[1], recent[2]]
}

/// The distance behind a code: one of the recent distances, or a new one.
pub open spec fn get_distance(code: int, recent: Seq<usize>) -> Result<
    (usize, Seq<usize>),
    DzFault,
> {
    if code < 4 {
        if recent[code] == 0 {
            Err(DzFault::UnsetDistance)
        } else {
            Ok((recent[code], used_again(recent, code)))
        }
    } else {
        Ok(((code - 3) as usize, used_new(recent, (code - 3) as usize)))
    }
}

/// The code of a distance.
pub open spec fn distance_code(distance: usize, recent: Seq<usize>) -> int {
    if recent[0] == distance {
        0
    } else if recent[1] == distance {
        1
    } else if recent[2] == distance {
        2
    } else if recent[3] == distance {
        3
    } else {
        distance + 3
    }
}

/// The recent distances after a distance was coded.
pub open spec fn recent_after(distance: usize, recent: Seq<usize>) -> Seq<usize> {
    let code = distance_code(distance, recent);
    if code < 4 && recent[code] == distance {
        used_again(recent, code)
    } else {
        used_new(recent, distance)
    }
}

/// A coded distance is found again, with the same recent distances.
pub proof fn lemma_distance_round_trip(distance: usize, recent: Seq<usize>)
    requires
        distance >= 1,
        recent.len() == 4,
    ensures
        get_distance(distance_code(distance, recent), recent) == Ok::<
            (usize, Seq<usize>),
            DzFault,
        >((distance, recent_after(distance, recent))),
{
}

/// The context of a match of the given length.
pub open spec fn match_context(length: int, contexts: nat) -> int {
    if length - MIN_MATCH < contexts - 1 {
        length - MIN_MATCH
    } else {
        contexts - 1
    }
}

/// The distance of a match of the given length.
pub open spec fn get_match(
    data: Seq<u8>,
    taker: Taker,
    tables: Tables,
    recent: Seq<usize>,
    bits: u8,
    length: int,
) -> Result<(usize, Taker, Tables, Seq<usize>), DzFault> {
    let context = match_context(length, tables.offsets.len());
    match get_grouped(data, taker, tables.offsets[context], bits) {
        Err(fault) => Err(fault),
        Ok((code, next, models)) => match get_distance(code, recent) {
            Err(fault) => Err(fault),
            Ok((distance, after)) => Ok(
                (
                    distance,
                    next,
                    Tables { top: tables.top, offsets: tables.offsets.update(context, models) },
                    after,
                ),
            ),
        },
    }
}

/// The output after a local match.
pub open spec fn matched(out: Seq<u8>, distance: usize, length: int, expected: int) -> Result<
    Seq<u8>,
    DzFault,
> {
    if distance == 0 || distance > out.len() {
        Err(DzFault::Distance { distance, position: out.len() as usize })
    } else if out.len() + length > expected {
        Err(DzFault::MatchExceeds { expected: expected as usize })
    } else {
        Ok(copy_match(out, distance as int, length as nat))
    }
}

/// Decodes `expected` bytes of the common buffer.
///
/// The payload from `start` on is a sequence of streams. Each begins with the initial models;
/// the recent distances stay.
pub open spec fn payload_at(
    payload: Seq<u8>,
    start: int,
    taker: Taker,
    tables: Tables,
    recent: Seq<usize>,
    out: Seq<u8>,
    expected: int,
    bits: u8,
    initial: Tables,
) -> Result<(Seq<u8>, int), DzFault>
    decreases payload.len() - start, expected - out.len(),
    via payload_ends
{
    if out.len() >= expected {
        if start + looked_at(taker) > usize::MAX {
            Err(DzFault::OffsetOverflow)
        } else {
            Ok((out, start + looked_at(taker)))
        }
    } else {
        match get_symbol(payload.skip(start), taker, tables.top) {
            Err(fault) => Err(fault),
            Ok((symbol, next, top)) => {
                let tables = Tables { top, offsets: tables.offsets };
                if symbol < 256 {
                    payload_at(
                        payload,
                        start,
                        next,
                        tables,
                        recent,
                        out.push(symbol as u8),
                        expected,
                        bits,
                        initial,
                    )
                } else if symbol < END_SYMBOL {
                    match get_match(payload.skip(start), next, tables, recent, bits, symbol - 254) {
                        Err(fault) => Err(fault),
                        Ok((distance, next, tables, recent)) => {
                            let length = if symbol - 254 < expected - out.len() {
                                symbol - 254
                            } else {
                                expected - out.len()
                            };
                            match matched(out, distance, length, expected) {
                                Err(fault) => Err(fault),
                                Ok(out) => payload_at(
                                    payload,
                                    start,
                                    next,
                                    tables,
                                    recent,
                                    out,
                                    expected,
                                    bits,
                                    initial,
                                ),
                            }
                        },
                    }
                } else if symbol == END_SYMBOL {
                    let end = start + end_position(next);
                    if end > usize::MAX {
                        Err(DzFault::OffsetOverflow)
                    } else if end > payload.len() {
                        Err(DzFault::SegmentOutsideChunk)
                    } else {
                        payload_at(
                            payload,
                            end,
                            first_taker(),
                            initial,
                            recent,
                            out,
                            expected,
                            bits,
                            initial,
                        )
                    }
                } else {
                    Err(DzFault::CommonToken { symbol: symbol as usize })
                }
            },
        }
    }
}

#[via_fn]
proof fn payload_ends(
    payload: Seq<u8>,
    start: int,
    taker: Taker,
    tables: Tables,
    recent: Seq<usize>,
    out: Seq<u8>,
    expected: int,
    bits: u8,
    initial: Tables,
) {
    assert forall|distance: int, length: nat|
        #[trigger] copy_match(out, distance, length).len() == out.len() + length by {
        lemma_copy_match_len(out, distance, length);
    }
}

/// The common buffer of an archive.
#[verifier::ext_equal]
pub struct Common {
    pub settings: RangeSettings,
    pub chunks: Seq<Seq<u8>>,
}

/// The size of the payload of a chunk of the common buffer.
pub open spec fn payload_size(settings: RangeSettings, chunk: Seq<u8>) -> int {
    if chunk.len() == 0 {
        0
    } else {
        chunk.len() - settings.prefix_size()
    }
}

/// Where the payload of chunk `n` begins.
pub open spec fn payload_start(common: Common, n: nat) -> int
    decreases n,
{
    if n == 0 {
        0
    } else {
        payload_start(common, (n - 1) as nat) + payload_size(common.settings, common.chunks[n - 1])
    }
}

/// The first chunk from `n` on whose payload holds the offset.
pub open spec fn chunk_holding(common: Common, offset: int, n: nat) -> Option<nat>
    decreases common.chunks.len() - n,
{
    if n >= common.chunks.len() {
        None
    } else if payload_start(common, n) <= offset < payload_start(common, n + 1) {
        Some(n)
    } else {
        chunk_holding(common, offset, n + 1)
    }
}

/// The models that every stream of a chunk of the common buffer begins with.
pub open spec fn common_tables(settings: RangeSettings, chunk: Seq<u8>) -> Tables {
    if settings.prefix_size() == 0 {
        uniform_tables(settings)
    } else {
        recorded_tables(chunk.take(settings.prefix_size()), settings)
    }
}

/// `length` bytes of the common buffer, decoded from `offset` on, and how far that reached.
pub open spec fn common_at(common: Common, offset: int, length: int) -> Result<
    (Seq<u8>, int),
    DzFault,
> {
    match chunk_holding(common, offset, 0) {
        None => Err(
            DzFault::OffsetBeyondBuffer {
                offset: offset as usize,
                size: payload_start(common, common.chunks.len()) as usize,
            },
        ),
        Some(n) => {
            let chunk = common.chunks[n as int];
            let initial = common_tables(common.settings, chunk);
            payload_at(
                chunk.skip(common.settings.prefix_size() + offset - payload_start(common, n)),
                0,
                first_taker(),
                initial,
                no_recent(),
                seq![],
                length,
                common.settings.offset_table_size,
                initial,
            )
        },
    }
}

/// The decoded part has the length that was asked for.
pub proof fn lemma_payload_length(
    payload: Seq<u8>,
    start: int,
    taker: Taker,
    tables: Tables,
    recent: Seq<usize>,
    out: Seq<u8>,
    expected: int,
    bits: u8,
    initial: Tables,
)
    requires
        out.len() <= expected,
    ensures
        payload_at(payload, start, taker, tables, recent, out, expected, bits, initial) matches Ok(
            (bytes, _),
        ) ==> bytes.len() == expected,
    decreases payload.len() - start, expected - out.len(),
{
    if out.len() < expected {
        if let Ok((symbol, next, top)) = get_symbol(payload.skip(start), taker, tables.top) {
            let tables = Tables { top, offsets: tables.offsets };
            if symbol < 256 {
                lemma_payload_length(
                    payload,
                    start,
                    next,
                    tables,
                    recent,
                    out.push(symbol as u8),
                    expected,
                    bits,
                    initial,
                );
            } else if symbol < END_SYMBOL {
                if let Ok((distance, next, tables, recent)) = get_match(
                    payload.skip(start),
                    next,
                    tables,
                    recent,
                    bits,
                    symbol - 254,
                ) {
                    let length = if symbol - 254 < expected - out.len() {
                        symbol - 254
                    } else {
                        expected - out.len()
                    };
                    if let Ok(longer) = matched(out, distance, length, expected) {
                        lemma_copy_match_len(out, distance as int, length as nat);
                        lemma_payload_length(
                            payload,
                            start,
                            next,
                            tables,
                            recent,
                            longer,
                            expected,
                            bits,
                            initial,
                        );
                    }
                }
            } else if symbol == END_SYMBOL {
                let end = start + end_position(next);
                if end <= usize::MAX && end <= payload.len() {
                    lemma_payload_length(
                        payload,
                        end,
                        first_taker(),
                        initial,
                        recent,
                        out,
                        expected,
                        bits,
                        initial,
                    );
                }
            }
        }
    }
}

pub proof fn lemma_common_length(common: Common, offset: int, length: int)
    requires
        length >= 0,
    ensures
        common_at(common, offset, length) matches Ok((bytes, _)) ==> bytes.len() == length,
{
    if let Some(n) = chunk_holding(common, offset, 0) {
        let chunk = common.chunks[n as int];
        let initial = common_tables(common.settings, chunk);
        lemma_payload_length(
            chunk.skip(common.settings.prefix_size() + offset - payload_start(common, n)),
            0,
            first_taker(),
            initial,
            no_recent(),
            seq![],
            length,
            common.settings.offset_table_size,
            initial,
        );
    }
}

/// How a recent end of a reference is replaced.
#[derive(Debug, Clone, Copy, PartialEq, Eq, Structural)]
pub enum ReferenceBaseUpdate {
    /// By the place up to which the common buffer was read.
    CompressedEndpoint,
    /// By zero.
    Zero,
}

/// The place a reference points to, relative to a recent end.
pub open spec fn target_of(base: int, negative: bool, magnitude: int) -> Result<int, DzFault> {
    if magnitude > i64::MAX {
        Err(DzFault::DeltaOverflow)
    } else {
        let sum = base + (if negative {
            -1 - magnitude
        } else {
            magnitude
        });
        if sum > i64::MAX || sum - 3 < i64::MIN {
            Err(DzFault::OffsetOverflow)
        } else if sum - 3 < 0 {
            Err(DzFault::NegativeOffset { magnitude: (3 - sum) as u64 })
        } else if sum - 3 > usize::MAX {
            Err(DzFault::OffsetOverflow)
        } else {
            Ok(sum - 3)
        }
    }
}

/// The length of a reference that begins with the given group.
pub open spec fn get_reference_length(
    data: Seq<u8>,
    desk: Desk,
    settings: RangeSettings,
    first: int,
) -> Result<(int, Desk), DzFault> {
    match get_grouped_from_first(
        data,
        desk.taker,
        desk.links.lengths,
        settings.ref_length_table_size,
        first,
    ) {
        Err(fault) => Err(fault),
        Ok((value, taker, lengths)) => if value + settings.big_min_match > usize::MAX {
            Err(DzFault::ReferenceLengthOverflow)
        } else {
            Ok(
                (
                    value + settings.big_min_match,
                    Desk { taker, links: Links { lengths, ..desk.links }, ..desk },
                ),
            )
        },
    }
}

/// The place a reference points to and the recent end that it is relative to.
pub open spec fn get_target(data: Seq<u8>, desk: Desk, settings: RangeSettings) -> Result<
    (int, int, Desk),
    DzFault,
> {
    match get_symbol(data, desk.taker, desk.links.base) {
        Err(fault) => Err(fault),
        Ok((index, taker, base)) => match get_symbol(data, taker, desk.links.sign) {
            Err(fault) => Err(fault),
            Ok((negative, taker, sign)) => match get_grouped(
                data,
                taker,
                desk.links.spots,
                settings.ref_offset_table_size,
            ) {
                Err(fault) => Err(fault),
                Ok((magnitude, taker, spots)) => match target_of(
                    desk.links.bases[index] as int,
                    negative != 0,
                    magnitude,
                ) {
                    Err(fault) => Err(fault),
                    Ok(target) => Ok(
                        (
                            target,
                            index,
                            Desk { taker, links: Links { base, sign, spots, ..desk.links }, ..desk },
                        ),
                    ),
                },
            },
        },
    }
}

/// The recent end that a reference leaves.
pub open spec fn base_after(update: ReferenceBaseUpdate, target: int, consumed: int) -> Result<
    i64,
    DzFault,
> {
    match update {
        ReferenceBaseUpdate::Zero => Ok(0),
        ReferenceBaseUpdate::CompressedEndpoint => if target + consumed > usize::MAX || target
            + consumed > i64::MAX {
            Err(DzFault::EndpointOverflow)
        } else {
            Ok((target + consumed) as i64)
        },
    }
}

/// The bytes of a reference that begins with the given group.
pub open spec fn get_reference(
    data: Seq<u8>,
    desk: Desk,
    settings: RangeSettings,
    common: Option<Common>,
    update: ReferenceBaseUpdate,
    first: int,
    position: int,
    expected: int,
) -> Result<(Seq<u8>, Desk), DzFault> {
    if settings.reference_fault() is Some {
        Err(settings.reference_fault()->Some_0)
    } else if common is None {
        Err(DzFault::NoCommonBuffer)
    } else {
        match get_reference_length(data, desk, settings, first) {
            Err(fault) => Err(fault),
            Ok((length, desk)) => if position + length > expected {
                Err(
                    DzFault::ReferenceExceeds {
                        length: length as usize,
                        expected: expected as usize,
                    },
                )
            } else {
                match get_target(data, desk, settings) {
                    Err(fault) => Err(fault),
                    Ok((target, index, desk)) => match common_at(common->Some_0, target, length) {
                        Err(fault) => Err(fault),
                        Ok((bytes, consumed)) => match base_after(update, target, consumed) {
                            Err(fault) => Err(fault),
                            Ok(base) => Ok(
                                (
                                    bytes,
                                    Desk {
                                        links: Links {
                                            bases: desk.links.bases.update(index, base),
                                            ..desk.links
                                        },
                                        ..desk
                                    },
                                ),
                            ),
                        },
                    },
                }
            },
        }
    }
}

/// A token read: the end, or more output.
pub enum Turn {
    End,
    More(Desk, Seq<u8>),
}

/// Reads one token.
pub open spec fn turn(
    data: Seq<u8>,
    desk: Desk,
    out: Seq<u8>,
    expected: int,
    settings: RangeSettings,
    common: Option<Common>,
    update: ReferenceBaseUpdate,
) -> Result<Turn, DzFault> {
    match get_symbol(data, desk.taker, desk.tables.top) {
        Err(fault) => Err(fault),
        Ok((symbol, taker, top)) => {
            let desk = Desk { taker, tables: Tables { top, ..desk.tables }, ..desk };
            if symbol < 256 {
                if out.len() >= expected {
                    Err(DzFault::LiteralBehindEnd)
                } else {
                    Ok(Turn::More(desk, out.push(symbol as u8)))
                }
            } else if symbol < END_SYMBOL {
                let length = symbol - 254;
                match get_match(
                    data,
                    taker,
                    desk.tables,
                    desk.recent,
                    settings.offset_table_size,
                    length,
                ) {
                    Err(fault) => Err(fault),
                    Ok((distance, taker, tables, recent)) => match matched(
                        out,
                        distance,
                        length,
                        expected,
                    ) {
                        Err(fault) => Err(fault),
                        Ok(out) => Ok(Turn::More(Desk { taker, tables, recent, ..desk }, out)),
                    },
                }
            } else if symbol == END_SYMBOL {
                if out.len() != expected {
                    Err(
                        DzFault::EarlyEnd {
                            actual: out.len() as usize,
                            expected: expected as usize,
                        },
                    )
                } else {
                    Ok(Turn::End)
                }
            } else {
                match get_reference(
                    data,
                    desk,
                    settings,
                    common,
                    update,
                    symbol - TOP_SYMBOLS,
                    out.len() as int,
                    expected,
                ) {
                    Err(fault) => Err(fault),
                    Ok((bytes, desk)) => Ok(Turn::More(desk, out + bytes)),
                }
            }
        },
    }
}

/// Every token but the end lengthens the output, up to the expected size.
pub proof fn lemma_turn(
    data: Seq<u8>,
    desk: Desk,
    out: Seq<u8>,
    expected: int,
    settings: RangeSettings,
    common: Option<Common>,
    update: ReferenceBaseUpdate,
)
    requires
        desk.taker.span.sound(),
        desk.taker.span.settled(),
    ensures
        turn(data, desk, out, expected, settings, common, update) matches Ok(Turn::More(next, longer))
            ==> out.len() < longer.len() <= expected,
{
    lemma_get_symbol(data, desk.taker, desk.tables.top);
    if let Ok((symbol, taker, top)) = get_symbol(data, desk.taker, desk.tables.top) {
        assert forall|distance: int, length: nat|
            #[trigger] copy_match(out, distance, length).len() == out.len() + length by {
            lemma_copy_match_len(out, distance, length);
        }
        if symbol > END_SYMBOL && common is Some {
            let desk = Desk { taker, tables: Tables { top, ..desk.tables }, ..desk };
            let first = symbol - TOP_SYMBOLS;
            assert forall|target: int, length: int| length >= 0 implies (#[trigger] common_at(
                common->Some_0,
                target,
                length,
            ) matches Ok((bytes, _)) ==> bytes.len() == length) by {
                lemma_common_length(common->Some_0, target, length);
            }
            vstd::arithmetic::power2::lemma_pow2_pos((settings.ref_length_table_size - 1) as nat);
            lemma_digits(
                data,
                desk.taker,
                desk.links.lengths,
                settings.ref_length_table_size,
                0,
                first % (pow2((settings.ref_length_table_size - 1) as nat) as int),
                (settings.ref_length_table_size - 1) as nat,
            );
        }
    }
}

/// Reads tokens up to the end.
pub open spec fn chunk_at(
    data: Seq<u8>,
    desk: Desk,
    out: Seq<u8>,
    expected: int,
    settings: RangeSettings,
    common: Option<Common>,
    update: ReferenceBaseUpdate,
) -> Result<Seq<u8>, DzFault>
    decreases expected - out.len(),
{
    match turn(data, desk, out, expected, settings, common, update) {
        Err(fault) => Err(fault),
        Ok(Turn::End) => Ok(out),
        Ok(Turn::More(next, longer)) => if out.len() < longer.len() <= expected {
            chunk_at(data, next, longer, expected, settings, common, update)
        } else {
            Err(DzFault::Collapsed)
        },
    }
}

/// Where a chunk begins.
pub open spec fn first_desk(settings: RangeSettings, has_combuf: bool) -> Desk {
    Desk {
        taker: first_taker(),
        tables: chunk_tables(settings, has_combuf),
        links: chunk_links(settings),
        recent: no_recent(),
    }
}

/// Decodes a chunk under one rule for the recent ends of references.
pub open spec fn unchunk(
    data: Seq<u8>,
    expected: int,
    settings: RangeSettings,
    common: Option<Common>,
    update: ReferenceBaseUpdate,
) -> Result<Seq<u8>, DzFault> {
    chunk_at(
        data,
        first_desk(settings, common is Some),
        seq![],
        expected,
        settings,
        common,
        update,
    )
}

/// Decodes a chunk. Where a common buffer is there, a chunk that makes no sense with the places
/// up to which references were read as recent ends is read with zeros instead.
pub open spec fn undz(
    data: Seq<u8>,
    expected: int,
    settings: RangeSettings,
    common: Option<Common>,
) -> Result<Seq<u8>, DzFault> {
    if !settings.valid() {
        Err(DzFault::InvalidSettings)
    } else {
        let first = unchunk(
            data,
            expected,
            settings,
            common,
            ReferenceBaseUpdate::CompressedEndpoint,
        );
        if first is Ok || common is None {
            first
        } else {
            let second = unchunk(data, expected, settings, common, ReferenceBaseUpdate::Zero);
            if second is Ok {
                second
            } else {
                first
            }
        }
    }
}

/// Where two expected sizes both lead to a result, they are the same.
proof fn lemma_chunk_size(
    data: Seq<u8>,
    desk: Desk,
    out: Seq<u8>,
    expected: int,
    other: int,
    settings: RangeSettings,
    common: Option<Common>,
    update: ReferenceBaseUpdate,
)
    requires
        chunk_at(data, desk, out, expected, settings, common, update) is Ok,
        chunk_at(data, desk, out, other, settings, common, update) is Ok,
    ensures
        expected == other,
    decreases expected - out.len(),
{
    if let Ok(Turn::More(next, longer)) = turn(
        data,
        desk,
        out,
        expected,
        settings,
        common,
        update,
    ) {
        assert(turn(data, desk, out, other, settings, common, update) == Ok::<Turn, DzFault>(
            Turn::More(next, longer),
        ));
        lemma_chunk_size(data, next, longer, expected, other, settings, common, update);
    }
}

/// A chunk that decodes to one size is refused where another size is expected.
pub proof fn lemma_other_size(
    data: Seq<u8>,
    expected: int,
    other: int,
    settings: RangeSettings,
    common: Option<Common>,
    update: ReferenceBaseUpdate,
)
    requires
        unchunk(data, expected, settings, common, update) is Ok,
        other != expected,
    ensures
        unchunk(data, other, settings, common, update) is Err,
{
    if unchunk(data, other, settings, common, update) is Ok {
        lemma_chunk_size(
            data,
            first_desk(settings, common is Some),
            seq![],
            expected,
            other,
            settings,
            common,
            update,
        );
    }
}

/// A chunk without a common buffer that decodes to one size is refused where another size is
/// expected.
pub proof fn lemma_plain_other_size(
    data: Seq<u8>,
    expected: int,
    other: int,
    settings: RangeSettings,
)
    requires
        undz(data, expected, settings, None) is Ok,
        other != expected,
    ensures
        undz(data, other, settings, None) is Err,
{
    lemma_other_size(
        data,
        expected,
        other,
        settings,
        None,
        ReferenceBaseUpdate::CompressedEndpoint,
    );
}

} // verus!
