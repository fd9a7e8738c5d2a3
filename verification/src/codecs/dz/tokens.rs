//! How tokens are written, and that they are read back.

use vstd::arithmetic::power2::{lemma_pow2_adds, lemma_pow2_pos, pow2};
use vstd::prelude::*;

use crate::codecs::dz::coder::{
    finished, first_sender, first_taker, fits, get_symbol, lemma_finished_fits, lemma_put_symbol,
    lemma_symbol_read_back, lemma_uniform_lively, put_symbol, taker_of, Model, Sender, Taker,
};
use crate::codecs::dz::fault::DzFault;
use crate::codecs::dz::range::MODEL_INCREMENT;
use crate::codecs::dz::settings::{RangeSettings, TOP_SYMBOLS};
use crate::codecs::dz::stream::{
    base_after, chunk_at, chunk_links, payload_at, chunk_tables, common_at, distance_code,
    get_digits, get_grouped, get_match, get_reference_length, get_target, lemma_common_length,
    lemma_distance_round_trip, match_context, next_table, no_recent, recent_after, table_increment,
    target_of, turn, unchunk, uniform_context, Common, Desk, Links, ReferenceBaseUpdate, Tables,
    Turn, END_SYMBOL, MAX_MATCH, MIN_MATCH,
};
use crate::codecs::zlib::inflate::{copy_match, lemma_copy_match_len};

verus! {

/// One token of a chunk.
pub enum Token {
    Literal { byte: u8 },
    /// A repetition of the output.
    Match { length: int, distance: usize },
    /// A part of the common buffer, and the recent end that it leaves.
    Reference { length: int, target: int, next: i64 },
}

/// All that an encoder carries from token to token.
#[verifier::ext_equal]
pub struct Work {
    pub sender: Sender,
    pub tables: Tables,
    pub links: Links,
    pub recent: Seq<usize>,
}

pub open spec fn desk_of(work: Work) -> Desk {
    Desk {
        taker: taker_of(work.sender),
        tables: work.tables,
        links: work.links,
        recent: work.recent,
    }
}

/// The group of a number's lowest digit.
pub open spec fn group_of(value: int, limit: int) -> int {
    value % limit + (if value >= limit {
        limit
    } else {
        0
    })
}

/// Writes a number digit by digit.
pub open spec fn put_digits(
    sender: Sender,
    models: Seq<Model>,
    bits: u8,
    table: int,
    value: int,
) -> Result<(Sender, Seq<Model>), DzFault>
    decreases value,
    when bits >= 1 && value >= 0
    via put_digits_ends
{
    let limit = pow2((bits - 1) as nat) as int;
    if bits <= 1 && value > 0 {
        Err(DzFault::GroupedTooLarge)
    } else {
        match put_symbol(sender, models[table], group_of(value, limit)) {
            Err(fault) => Err(fault),
            Ok((next, model)) => {
                let models = models.update(table, model);
                if value < limit {
                    Ok((next, models))
                } else {
                    put_digits(next, models, bits, next_table(table, models.len()), value / limit)
                }
            },
        }
    }
}

#[via_fn]
proof fn put_digits_ends(
    sender: Sender,
    models: Seq<Model>,
    bits: u8,
    table: int,
    value: int,
) {
    lemma_limit(bits);
    lemma_smaller(value, pow2((bits - 1) as nat) as int);
}

pub proof fn lemma_smaller(value: int, limit: int)
    requires
        limit >= 1,
        value >= 0,
    ensures
        0 <= value / limit,
        0 <= value % limit <= value,
        value % limit < limit,
        limit >= 2 && value > 0 ==> value / limit < value,
        value < limit ==> value % limit == value,
{
    vstd::arithmetic::div_mod::lemma_mod_bound(value, limit);
    vstd::arithmetic::div_mod::lemma_mod_decreases(value as nat, limit as nat);
    vstd::arithmetic::div_mod::lemma_div_pos_is_pos(value, limit);
    if limit >= 2 && value > 0 {
        vstd::arithmetic::div_mod::lemma_div_decreases(value, limit);
    }
    if value < limit {
        vstd::arithmetic::div_mod::lemma_small_mod(value as nat, limit as nat);
    }
}

/// The models are there and have the given number of symbols.
pub open spec fn sized(models: Seq<Model>, symbols: nat) -> bool {
    &&& models.len() > 0
    &&& of_size(models, symbols)
}

pub open spec fn of_size(models: Seq<Model>, symbols: nat) -> bool {
    forall|i: int| 0 <= i < models.len() ==> (#[trigger] models[i]).frequencies.len() == symbols
}

/// All models are lively.
pub open spec fn all_lively(models: Seq<Model>) -> bool {
    forall|i: int| 0 <= i < models.len() ==> (#[trigger] models[i]).lively()
}

pub proof fn lemma_limit(bits: u8)
    requires
        1 <= bits,
    ensures
        pow2(bits as nat) == 2 * pow2((bits - 1) as nat),
        pow2((bits - 1) as nat) > 0,
        bits == 1 ==> pow2((bits - 1) as nat) == 1,
        bits >= 2 ==> pow2((bits - 1) as nat) >= 2,
{
    crate::math::lemma_pow2_step((bits - 1) as nat);
    vstd::arithmetic::power2::lemma2_to64();
    if bits >= 2 {
        crate::math::lemma_pow2_monotonic(1, (bits - 1) as nat);
    }
}

/// A written number keeps the models in shape; with lively models it can be written.
pub proof fn lemma_put_digits(
    sender: Sender,
    models: Seq<Model>,
    bits: u8,
    table: int,
    value: int,
)
    requires
        sender.span.sound(),
        sender.span.settled(),
        1 <= bits,
        sized(models, pow2(bits as nat)),
        0 <= table < models.len(),
        0 <= value,
    ensures
        put_digits(sender, models, bits, table, value) matches Ok((next, after)) ==> {
            &&& next.span.sound()
            &&& next.span.settled()
            &&& after.len() == models.len()
            &&& sized(after, pow2(bits as nat))
            &&& all_lively(models) ==> all_lively(after)
        },
        put_digits(sender, models, bits, table, value) matches Err(fault) ==> fault
            == DzFault::Collapsed || bits == 1 && fault == DzFault::GroupedTooLarge,
        bits >= 2 && all_lively(models) ==> put_digits(sender, models, bits, table, value) is Ok,
    decreases value,
{
    lemma_limit(bits);
    let limit = pow2((bits - 1) as nat) as int;
    if bits > 1 || value == 0 {
        assert(0 <= group_of(value, limit) < 2 * limit);
        assert(models[table].frequencies.len() == pow2(bits as nat));
        lemma_put_symbol(sender, models[table], group_of(value, limit));
        if all_lively(models) {
            assert(models[table].lively());
        }
        if let Ok((next, model)) = put_symbol(sender, models[table], group_of(value, limit)) {
            let after = models.update(table, model);
            assert(sized(after, pow2(bits as nat)));
            if all_lively(models) {
                assert(all_lively(after));
            }
            if value >= limit {
                assert(value / limit < value) by (nonlinear_arith)
                    requires
                        limit >= 2,
                        value >= limit,
                ;
                assert(value / limit >= 0) by (nonlinear_arith)
                    requires
                        limit >= 2,
                        value >= limit,
                ;
                lemma_put_digits(
                    next,
                    after,
                    bits,
                    next_table(table, after.len()),
                    value / limit,
                );
            }
        }
    }
}

/// What a number in digits reads as.
pub proof fn lemma_digits_read_back(
    data: Seq<u8>,
    sender: Sender,
    models: Seq<Model>,
    bits: u8,
    table: int,
    value: int,
    sum: int,
    shift: nat,
)
    requires
        sender.span.sound(),
        sender.span.settled(),
        1 <= bits,
        sized(models, pow2(bits as nat)),
        0 <= table < models.len(),
        0 <= value,
        0 <= sum < pow2(shift),
        sum + value * pow2(shift) < 0x1_0000_0000_0000_0000,
        put_digits(sender, models, bits, table, value) is Ok,
        fits(data, put_digits(sender, models, bits, table, value)->Ok_0.0),
    ensures
        fits(data, sender),
        get_digits(data, taker_of(sender), models, bits, table, sum, shift) == Ok::<
            (int, Taker, Seq<Model>),
            DzFault,
        >(
            (
                sum + value * pow2(shift),
                taker_of(put_digits(sender, models, bits, table, value)->Ok_0.0),
                put_digits(sender, models, bits, table, value)->Ok_0.1,
            ),
        ),
    decreases value,
{
    lemma_limit(bits);
    let limit = pow2((bits - 1) as nat) as int;
    let group = group_of(value, limit);
    let power = pow2(shift) as int;
    lemma_smaller(value, limit);
    lemma_pow2_pos(shift);
    assert(0 <= group < 2 * limit);
    assert(models[table].frequencies.len() == pow2(bits as nat));
    lemma_put_symbol(sender, models[table], group);
    let (next, model) = put_symbol(sender, models[table], group)->Ok_0;
    let after = models.update(table, model);
    assert(sized(after, pow2(bits as nat)));
    assert(group % limit == value % limit) by {
        if value >= limit {
            crate::math::lemma_split_at(value % limit, 1, limit);
        } else {
            vstd::arithmetic::div_mod::lemma_small_mod((value % limit) as nat, limit as nat);
        }
    }
    let term = (value % limit) * power;
    assert(0 <= term <= value * power) by (nonlinear_arith)
        requires
            0 <= value % limit <= value,
            power > 0,
            term == (value % limit) * power,
    ;
    assert(term % 0x1_0000_0000_0000_0000 == term);
    if value < limit {
        assert(value % limit == value);
        lemma_symbol_read_back(data, sender, models[table], group);
    } else {
        let rest = value / limit;
        let up = (shift + bits - 1) as nat;
        lemma_pow2_adds(shift, (bits - 1) as nat);
        assert(pow2(up) == power * limit);
        vstd::arithmetic::div_mod::lemma_fundamental_div_mod(value, limit);
        assert(rest >= 1 && rest < value) by (nonlinear_arith)
            requires
                limit >= 2,
                value >= limit,
                rest == value / limit,
        ;
        assert(power * limit <= value * power) by (nonlinear_arith)
            requires
                limit <= value,
                power > 0,
        ;
        assert(up < 64) by {
            if up >= 64 {
                crate::math::lemma_pow2_monotonic(64, up);
                vstd::arithmetic::power2::lemma2_to64();
            }
        }
        assert(sum + term < power * limit) by (nonlinear_arith)
            requires
                sum < power,
                term == (value % limit) * power,
                value % limit <= limit - 1,
                power > 0,
        ;
        assert(term + rest * (power * limit) == value * power) by (nonlinear_arith)
            requires
                value == limit * rest + value % limit,
                term == (value % limit) * power,
        ;
        assert(group >= limit);
        lemma_put_digits(next, after, bits, next_table(table, after.len()), rest);
        lemma_digits_read_back(
            data,
            next,
            after,
            bits,
            next_table(table, after.len()),
            rest,
            sum + term,
            up,
        );
        lemma_symbol_read_back(data, sender, models[table], group);
    }
}

/// A number that was written is read back.
pub proof fn lemma_grouped_read_back(
    data: Seq<u8>,
    sender: Sender,
    models: Seq<Model>,
    bits: u8,
    value: int,
)
    requires
        sender.span.sound(),
        sender.span.settled(),
        1 <= bits,
        sized(models, pow2(bits as nat)),
        0 <= value <= usize::MAX,
        put_digits(sender, models, bits, 0, value) is Ok,
        fits(data, put_digits(sender, models, bits, 0, value)->Ok_0.0),
    ensures
        fits(data, sender),
        get_grouped(data, taker_of(sender), models, bits) == Ok::<
            (int, Taker, Seq<Model>),
            DzFault,
        >(
            (
                value,
                taker_of(put_digits(sender, models, bits, 0, value)->Ok_0.0),
                put_digits(sender, models, bits, 0, value)->Ok_0.1,
            ),
        ),
{
    vstd::arithmetic::power2::lemma2_to64();
    lemma_digits_read_back(data, sender, models, bits, 0, value, 0, 0);
}

/// The models of local matches have the shape that the settings ask for.
pub open spec fn tables_fit(tables: Tables, settings: RangeSettings) -> bool {
    &&& tables.top.frequencies.len() >= TOP_SYMBOLS
    &&& tables.offsets.len() > 0
    &&& forall|i: int|
        0 <= i < tables.offsets.len() ==> sized(
            #[trigger] tables.offsets[i],
            pow2(settings.offset_table_size as nat),
        )
}

/// The models of references have the shape that the settings ask for.
pub open spec fn links_fit(links: Links, settings: RangeSettings) -> bool {
    &&& of_size(links.lengths, pow2(settings.ref_length_table_size as nat))
    &&& of_size(links.spots, pow2(settings.ref_offset_table_size as nat))
    &&& links.lengths.len() == settings.ref_length_tables
    &&& links.spots.len() == settings.ref_offset_tables
    &&& links.sign.frequencies.len() == 2
    &&& links.base.frequencies.len() == 8
    &&& links.bases.len() == 8
    &&& forall|i: int| 0 <= i < 8 ==> #[trigger] links.bases[i] >= 0
}

pub open spec fn work_fits(work: Work, settings: RangeSettings) -> bool {
    &&& settings.valid()
    &&& work.sender.span.sound()
    &&& work.sender.span.settled()
    &&& tables_fit(work.tables, settings)
    &&& links_fit(work.links, settings)
    &&& work.recent.len() == 4
}

/// Local matches can always be written.
pub open spec fn tables_lively(tables: Tables) -> bool {
    &&& tables.top.lively()
    &&& forall|i: int| 0 <= i < tables.offsets.len() ==> all_lively(#[trigger] tables.offsets[i])
}

pub open spec fn put_literal(work: Work, byte: u8) -> Result<Work, DzFault> {
    match put_symbol(work.sender, work.tables.top, byte as int) {
        Err(fault) => Err(fault),
        Ok((sender, top)) => Ok(
            Work { sender, tables: Tables { top, offsets: work.tables.offsets }, ..work },
        ),
    }
}

pub open spec fn put_end(work: Work) -> Result<Work, DzFault> {
    match put_symbol(work.sender, work.tables.top, END_SYMBOL as int) {
        Err(fault) => Err(fault),
        Ok((sender, top)) => Ok(
            Work { sender, tables: Tables { top, offsets: work.tables.offsets }, ..work },
        ),
    }
}

pub open spec fn put_match(work: Work, settings: RangeSettings, length: int, distance: usize) -> Result<
    Work,
    DzFault,
> {
    match put_symbol(work.sender, work.tables.top, length + 254) {
        Err(fault) => Err(fault),
        Ok((sender, top)) => {
            let context = match_context(length, work.tables.offsets.len());
            match put_digits(
                sender,
                work.tables.offsets[context],
                settings.offset_table_size,
                0,
                distance_code(distance, work.recent),
            ) {
                Err(fault) => Err(fault),
                Ok((sender, models)) => Ok(
                    Work {
                        sender,
                        tables: Tables {
                            top,
                            offsets: work.tables.offsets.update(context, models),
                        },
                        recent: recent_after(distance, work.recent),
                        ..work
                    },
                ),
            }
        },
    }
}

/// The distance of two places.
pub open spec fn gap(target: int, base: int) -> int {
    if target >= base {
        target - base
    } else {
        base - target
    }
}

/// The first of the recent ends before number `n` that is nearest to the target.
pub open spec fn nearest(bases: Seq<i64>, target: int, n: nat) -> int
    decreases n,
{
    if n <= 1 {
        0
    } else {
        let best = nearest(bases, target, (n - 1) as nat);
        if gap(target, bases[n - 1] as int) < gap(target, bases[best] as int) {
            n - 1
        } else {
            best
        }
    }
}

pub open spec fn put_reference_length(work: Work, settings: RangeSettings, length: int) -> Result<
    Work,
    DzFault,
> {
    let limit = pow2((settings.ref_length_table_size - 1) as nat) as int;
    let value = length - settings.big_min_match;
    if value < 0 {
        Err(
            DzFault::ShortReference {
                length: length as usize,
                minimum: settings.big_min_match as usize,
            },
        )
    } else {
        match put_symbol(work.sender, work.tables.top, TOP_SYMBOLS + group_of(value, limit)) {
            Err(fault) => Err(fault),
            Ok((sender, top)) => {
                let work = Work {
                    sender,
                    tables: Tables { top, offsets: work.tables.offsets },
                    ..work
                };
                if value < limit {
                    Ok(work)
                } else {
                    match put_digits(
                        sender,
                        work.links.lengths,
                        settings.ref_length_table_size,
                        0,
                        value / limit,
                    ) {
                        Err(fault) => Err(fault),
                        Ok((sender, lengths)) => Ok(
                            Work { sender, links: Links { lengths, ..work.links }, ..work },
                        ),
                    }
                }
            },
        }
    }
}

pub open spec fn put_target(work: Work, settings: RangeSettings, target: int, next: i64) -> Result<
    Work,
    DzFault,
> {
    if target + 3 > i64::MAX {
        Err(DzFault::TargetOverflow)
    } else {
        let index = nearest(work.links.bases, target, 8);
        let delta = target - work.links.bases[index] + 3;
        let negative: int = if delta < 0 {
            1
        } else {
            0
        };
        let magnitude = if delta < 0 {
            -1 - delta
        } else {
            delta
        };
        if magnitude > usize::MAX {
            Err(DzFault::CostDeltaOverflow)
        } else {
            match put_symbol(work.sender, work.links.base, index) {
                Err(fault) => Err(fault),
                Ok((sender, base)) => match put_symbol(sender, work.links.sign, negative) {
                    Err(fault) => Err(fault),
                    Ok((sender, sign)) => match put_digits(
                        sender,
                        work.links.spots,
                        settings.ref_offset_table_size,
                        0,
                        magnitude,
                    ) {
                        Err(fault) => Err(fault),
                        Ok((sender, spots)) => Ok(
                            Work {
                                sender,
                                links: Links {
                                    base,
                                    sign,
                                    spots,
                                    bases: work.links.bases.update(index, next),
                                    ..work.links
                                },
                                ..work
                            },
                        ),
                    },
                },
            }
        }
    }
}

/// Writes one token.
pub open spec fn put_token(work: Work, settings: RangeSettings, token: Token) -> Result<
    Work,
    DzFault,
> {
    match token {
        Token::Literal { byte } => put_literal(work, byte),
        Token::Match { length, distance } => put_match(work, settings, length, distance),
        Token::Reference { length, target, next } => match put_reference_length(
            work,
            settings,
            length,
        ) {
            Err(fault) => Err(fault),
            Ok(work) => put_target(work, settings, target, next),
        },
    }
}

/// Writes tokens.
pub open spec fn put_tokens(work: Work, settings: RangeSettings, tokens: Seq<Token>) -> Result<
    Work,
    DzFault,
>
    decreases tokens.len(),
{
    if tokens.len() == 0 {
        Ok(work)
    } else {
        match put_tokens(work, settings, tokens.drop_last()) {
            Err(fault) => Err(fault),
            Ok(work) => put_token(work, settings, tokens.last()),
        }
    }
}

/// The output after a token.
pub open spec fn told(out: Seq<u8>, token: Token, common: Option<Common>) -> Seq<u8> {
    match token {
        Token::Literal { byte } => out.push(byte),
        Token::Match { length, distance } => copy_match(out, distance as int, length as nat),
        Token::Reference { length, target, .. } => out + common_at(
            common->Some_0,
            target,
            length,
        )->Ok_0.0,
    }
}

/// A token that may follow the given output.
pub open spec fn sensible(
    out: Seq<u8>,
    token: Token,
    settings: RangeSettings,
    common: Option<Common>,
    update: ReferenceBaseUpdate,
) -> bool {
    match token {
        Token::Literal { .. } => true,
        Token::Match { length, distance } => {
            &&& MIN_MATCH <= length <= MAX_MATCH
            &&& 1 <= distance <= out.len()
            &&& distance + 3 <= usize::MAX
        },
        Token::Reference { length, target, next } => {
            &&& settings.reference_fault() is None
            &&& common is Some
            &&& settings.big_min_match <= length <= usize::MAX
            &&& 0 <= target <= usize::MAX
            &&& common_at(common->Some_0, target, length) is Ok
            &&& base_after(
                update,
                target,
                common_at(common->Some_0, target, length)->Ok_0.1,
            ) == Ok::<i64, DzFault>(next)
            &&& next >= 0
        },
    }
}

/// The output after all tokens.
pub open spec fn all_told(tokens: Seq<Token>, common: Option<Common>) -> Seq<u8>
    decreases tokens.len(),
{
    if tokens.len() == 0 {
        seq![]
    } else {
        told(all_told(tokens.drop_last(), common), tokens.last(), common)
    }
}

pub open spec fn all_sensible(
    tokens: Seq<Token>,
    settings: RangeSettings,
    common: Option<Common>,
    update: ReferenceBaseUpdate,
) -> bool {
    forall|i: int|
        0 <= i < tokens.len() ==> sensible(
            all_told(tokens.take(i), common),
            #[trigger] tokens[i],
            settings,
            common,
            update,
        )
}

pub proof fn lemma_nearest(bases: Seq<i64>, target: int, n: nat)
    ensures
        n > 0 ==> 0 <= nearest(bases, target, n) < n,
    decreases n,
{
    if n > 1 {
        lemma_nearest(bases, target, (n - 1) as nat);
    }
}

/// Writing a local match keeps the shape of the models; with lively models it succeeds.
pub proof fn lemma_put_match(work: Work, settings: RangeSettings, length: int, distance: usize)
    requires
        work_fits(work, settings),
        MIN_MATCH <= length <= MAX_MATCH,
        1 <= distance,
        distance + 3 <= usize::MAX,
    ensures
        put_match(work, settings, length, distance) matches Ok(next) ==> work_fits(next, settings)
            && (tables_lively(work.tables) ==> tables_lively(next.tables)),
        tables_lively(work.tables) && settings.offset_table_size >= 2 ==> put_match(
            work,
            settings,
            length,
            distance,
        ) is Ok,
        put_match(work, settings, length, distance) matches Err(fault) ==> fault
            == DzFault::Collapsed || settings.offset_table_size == 1,
{
    lemma_put_symbol(work.sender, work.tables.top, length + 254);
    if let Ok((sender, top)) = put_symbol(work.sender, work.tables.top, length + 254) {
        let context = match_context(length, work.tables.offsets.len());
        assert(sized(work.tables.offsets[context], pow2(settings.offset_table_size as nat)));
        lemma_put_digits(
            sender,
            work.tables.offsets[context],
            settings.offset_table_size,
            0,
            distance_code(distance, work.recent),
        );
    }
}

proof fn lemma_put_top(work: Work, settings: RangeSettings, symbol: int)
    requires
        work_fits(work, settings),
        0 <= symbol < work.tables.top.frequencies.len(),
    ensures
        put_symbol(work.sender, work.tables.top, symbol) matches Ok((sender, top)) ==> {
            let next = Work {
                sender,
                tables: Tables { top, offsets: work.tables.offsets },
                ..work
            };
            work_fits(next, settings) && (tables_lively(work.tables) ==> tables_lively(next.tables))
        },
        put_symbol(work.sender, work.tables.top, symbol) matches Err(fault) ==> fault
            == DzFault::Collapsed,
        work.tables.top.lively() ==> {
            &&& put_symbol(work.sender, work.tables.top, symbol) is Ok
            &&& put_symbol(work.sender, work.tables.top, symbol)->Ok_0.1.lively()
        },
{
    lemma_put_symbol(work.sender, work.tables.top, symbol);
}

pub proof fn lemma_put_literal(work: Work, settings: RangeSettings, byte: u8)
    requires
        work_fits(work, settings),
    ensures
        put_literal(work, byte) matches Ok(next) ==> work_fits(next, settings) && (tables_lively(
            work.tables,
        ) ==> tables_lively(next.tables)),
        put_literal(work, byte) matches Err(fault) ==> fault == DzFault::Collapsed,
        work.tables.top.lively() ==> {
            &&& put_literal(work, byte) is Ok
            &&& put_literal(work, byte)->Ok_0.tables.top.lively()
        },
{
    lemma_put_top(work, settings, byte as int);
}

pub proof fn lemma_put_end(work: Work, settings: RangeSettings)
    requires
        work_fits(work, settings),
    ensures
        put_end(work) matches Ok(next) ==> work_fits(next, settings),
        put_end(work) matches Err(fault) ==> fault == DzFault::Collapsed,
        work.tables.top.lively() ==> put_end(work) is Ok,
{
    lemma_put_top(work, settings, END_SYMBOL as int);
}

pub proof fn lemma_put_reference_length(work: Work, settings: RangeSettings, length: int)
    requires
        work_fits(work, settings),
        settings.reference_fault() is None,
        work.tables.top.frequencies.len() >= TOP_SYMBOLS + pow2(
            settings.ref_length_table_size as nat,
        ),
        length <= usize::MAX,
    ensures
        put_reference_length(work, settings, length) matches Ok(next) ==> {
            &&& work_fits(next, settings)
            &&& next.tables.top.frequencies.len() == work.tables.top.frequencies.len()
        },
{
    let bits = settings.ref_length_table_size;
    lemma_limit(bits);
    let limit = pow2((bits - 1) as nat) as int;
    let value = length - settings.big_min_match;
    if value >= 0 {
        let symbol = TOP_SYMBOLS + group_of(value, limit);
        lemma_put_top(work, settings, symbol);
        if let Ok((sender, top)) = put_symbol(work.sender, work.tables.top, symbol) {
            lemma_put_symbol(work.sender, work.tables.top, symbol);
            if value >= limit {
                assert(value / limit >= 0) by (nonlinear_arith)
                    requires
                        limit >= 1,
                        value >= limit,
                ;
                lemma_put_digits(sender, work.links.lengths, bits, 0, value / limit);
            }
        }
    }
}

pub proof fn lemma_put_target(work: Work, settings: RangeSettings, target: int, next: i64)
    requires
        work_fits(work, settings),
        settings.reference_fault() is None,
        target >= 0,
        next >= 0,
    ensures
        put_target(work, settings, target, next) matches Ok(after) ==> {
            &&& work_fits(after, settings)
            &&& after.tables == work.tables
        },
{
    if target + 3 <= i64::MAX {
        let index = nearest(work.links.bases, target, 8);
        lemma_nearest(work.links.bases, target, 8);
        let delta = target - work.links.bases[index] + 3;
        let negative: int = if delta < 0 {
            1
        } else {
            0
        };
        let magnitude = if delta < 0 {
            -1 - delta
        } else {
            delta
        };
        lemma_put_symbol(work.sender, work.links.base, index);
        if let Ok((sender, base)) = put_symbol(work.sender, work.links.base, index) {
            lemma_put_symbol(sender, work.links.sign, negative);
            if let Ok((sender, sign)) = put_symbol(sender, work.links.sign, negative) {
                lemma_put_digits(
                    sender,
                    work.links.spots,
                    settings.ref_offset_table_size,
                    0,
                    magnitude,
                );
            }
        }
    }
}

/// A token keeps everything in shape.
pub proof fn lemma_put_token(
    work: Work,
    settings: RangeSettings,
    out: Seq<u8>,
    token: Token,
    common: Option<Common>,
    update: ReferenceBaseUpdate,
)
    requires
        work_fits(work, settings),
        common is Some ==> work.tables.top.frequencies.len() >= TOP_SYMBOLS + pow2(
            settings.ref_length_table_size as nat,
        ),
        sensible(out, token, settings, common, update),
    ensures
        put_token(work, settings, token) matches Ok(next) ==> {
            &&& work_fits(next, settings)
            &&& next.tables.top.frequencies.len() == work.tables.top.frequencies.len()
        },
{
    match token {
        Token::Literal { byte } => {
            lemma_put_literal(work, settings, byte);
            lemma_put_symbol(work.sender, work.tables.top, byte as int);
        },
        Token::Match { length, distance } => {
            lemma_put_match(work, settings, length, distance);
            lemma_put_symbol(work.sender, work.tables.top, length + 254);
        },
        Token::Reference { length, target, next } => {
            lemma_put_reference_length(work, settings, length);
            if let Ok(middle) = put_reference_length(work, settings, length) {
                lemma_put_target(middle, settings, target, next);
            }
        },
    }
}

proof fn lemma_match_read_back(
    data: Seq<u8>,
    work: Work,
    settings: RangeSettings,
    length: int,
    distance: usize,
)
    requires
        work_fits(work, settings),
        MIN_MATCH <= length <= MAX_MATCH,
        1 <= distance,
        distance + 3 <= usize::MAX,
        put_match(work, settings, length, distance) is Ok,
        fits(data, put_match(work, settings, length, distance)->Ok_0.sender),
    ensures
        fits(data, work.sender),
        ({
            let next = put_match(work, settings, length, distance)->Ok_0;
            &&& get_symbol(data, taker_of(work.sender), work.tables.top) matches Ok((symbol, taker, top))
            &&& symbol == length + 254
            &&& get_match(
                data,
                taker,
                Tables { top, offsets: work.tables.offsets },
                work.recent,
                settings.offset_table_size,
                length,
            ) == Ok::<(usize, Taker, Tables, Seq<usize>), DzFault>(
                (distance, taker_of(next.sender), next.tables, next.recent),
            )
        }),
{
    let symbol = length + 254;
    lemma_put_symbol(work.sender, work.tables.top, symbol);
    let (sender, top) = put_symbol(work.sender, work.tables.top, symbol)->Ok_0;
    let context = match_context(length, work.tables.offsets.len());
    assert(sized(work.tables.offsets[context], pow2(settings.offset_table_size as nat)));
    lemma_grouped_read_back(
        data,
        sender,
        work.tables.offsets[context],
        settings.offset_table_size,
        distance_code(distance, work.recent),
    );
    lemma_symbol_read_back(data, work.sender, work.tables.top, symbol);
    lemma_distance_round_trip(distance, work.recent);
}

proof fn lemma_reference_length_read_back(
    data: Seq<u8>,
    work: Work,
    settings: RangeSettings,
    length: int,
)
    requires
        work_fits(work, settings),
        settings.reference_fault() is None,
        work.tables.top.frequencies.len() >= TOP_SYMBOLS + pow2(
            settings.ref_length_table_size as nat,
        ),
        settings.big_min_match <= length <= usize::MAX,
        put_reference_length(work, settings, length) is Ok,
        fits(data, put_reference_length(work, settings, length)->Ok_0.sender),
    ensures
        fits(data, work.sender),
        ({
            let next = put_reference_length(work, settings, length)->Ok_0;
            &&& get_symbol(data, taker_of(work.sender), work.tables.top) matches Ok((symbol, taker, top))
            &&& symbol >= TOP_SYMBOLS
            &&& get_reference_length(
                data,
                Desk { taker, tables: Tables { top, ..work.tables }, ..desk_of(work) },
                settings,
                symbol - TOP_SYMBOLS,
            ) == Ok::<(int, Desk), DzFault>((length, desk_of(next)))
        }),
{
    let bits = settings.ref_length_table_size;
    lemma_limit(bits);
    let limit = pow2((bits - 1) as nat) as int;
    let value = length - settings.big_min_match;
    lemma_smaller(value, limit);
    let group = group_of(value, limit);
    let symbol = TOP_SYMBOLS + group;
    lemma_put_symbol(work.sender, work.tables.top, symbol);
    let (sender, top) = put_symbol(work.sender, work.tables.top, symbol)->Ok_0;
    if value < limit {
        vstd::arithmetic::div_mod::lemma_small_mod(value as nat, limit as nat);
        lemma_symbol_read_back(data, work.sender, work.tables.top, symbol);
    } else {
        crate::math::lemma_split_at(value % limit, 1, limit);
        assert(group % limit == value % limit);
        vstd::arithmetic::div_mod::lemma_fundamental_div_mod(value, limit);
        assert((value / limit) * limit == limit * (value / limit)) by (nonlinear_arith);
        assert(sized(work.links.lengths, pow2(bits as nat)));
        lemma_digits_read_back(
            data,
            sender,
            work.links.lengths,
            bits,
            0,
            value / limit,
            value % limit,
            (bits - 1) as nat,
        );
        lemma_symbol_read_back(data, work.sender, work.tables.top, symbol);
    }
}

proof fn lemma_target_read_back(
    data: Seq<u8>,
    work: Work,
    settings: RangeSettings,
    target: int,
    next: i64,
)
    requires
        work_fits(work, settings),
        settings.reference_fault() is None,
        0 <= target <= usize::MAX,
        put_target(work, settings, target, next) is Ok,
        fits(data, put_target(work, settings, target, next)->Ok_0.sender),
    ensures
        fits(data, work.sender),
        ({
            let after = put_target(work, settings, target, next)->Ok_0;
            &&& get_target(data, desk_of(work), settings) matches Ok((place, index, desk))
            &&& place == target
            &&& after.links.bases == work.links.bases.update(index, next)
            &&& desk_of(after) == (Desk {
                links: Links { bases: work.links.bases.update(index, next), ..desk.links },
                ..desk
            })
            &&& desk.links.bases == work.links.bases
        }),
{
    let index = nearest(work.links.bases, target, 8);
    lemma_nearest(work.links.bases, target, 8);
    let delta = target - work.links.bases[index] + 3;
    let negative: int = if delta < 0 {
        1
    } else {
        0
    };
    let magnitude = if delta < 0 {
        -1 - delta
    } else {
        delta
    };
    assert(sized(work.links.spots, pow2(settings.ref_offset_table_size as nat)));
    lemma_put_symbol(work.sender, work.links.base, index);
    let (second, base) = put_symbol(work.sender, work.links.base, index)->Ok_0;
    lemma_put_symbol(second, work.links.sign, negative);
    let (third, sign) = put_symbol(second, work.links.sign, negative)->Ok_0;
    lemma_grouped_read_back(
        data,
        third,
        work.links.spots,
        settings.ref_offset_table_size,
        magnitude,
    );
    lemma_symbol_read_back(data, second, work.links.sign, negative);
    lemma_symbol_read_back(data, work.sender, work.links.base, index);
    assert(magnitude <= i64::MAX);
    assert(target_of(work.links.bases[index] as int, negative != 0, magnitude) == Ok::<
        int,
        DzFault,
    >(target));
}

/// A written token is read back.
proof fn lemma_token_read_back(
    data: Seq<u8>,
    work: Work,
    settings: RangeSettings,
    out: Seq<u8>,
    token: Token,
    common: Option<Common>,
    update: ReferenceBaseUpdate,
    expected: int,
)
    requires
        work_fits(work, settings),
        common is Some ==> work.tables.top.frequencies.len() >= TOP_SYMBOLS + pow2(
            settings.ref_length_table_size as nat,
        ),
        sensible(out, token, settings, common, update),
        told(out, token, common).len() <= expected,
        put_token(work, settings, token) is Ok,
        fits(data, put_token(work, settings, token)->Ok_0.sender),
    ensures
        fits(data, work.sender),
        out.len() < told(out, token, common).len(),
        turn(data, desk_of(work), out, expected, settings, common, update) == Ok::<Turn, DzFault>(
            Turn::More(
                desk_of(put_token(work, settings, token)->Ok_0),
                told(out, token, common),
            ),
        ),
{
    match token {
        Token::Literal { byte } => {
            lemma_symbol_read_back(data, work.sender, work.tables.top, byte as int);
        },
        Token::Match { length, distance } => {
            lemma_copy_match_len(out, distance as int, length as nat);
            lemma_match_read_back(data, work, settings, length, distance);
        },
        Token::Reference { length, target, next } => {
            lemma_common_length(common->Some_0, target, length);
            lemma_put_reference_length(work, settings, length);
            let middle = put_reference_length(work, settings, length)->Ok_0;
            lemma_target_read_back(data, middle, settings, target, next);
            lemma_reference_length_read_back(data, work, settings, length);
        },
    }
}

/// The tokens up to number `n` lead the reader to the state behind them.
proof fn lemma_tokens_read_back(
    data: Seq<u8>,
    start: Work,
    settings: RangeSettings,
    tokens: Seq<Token>,
    common: Option<Common>,
    update: ReferenceBaseUpdate,
    expected: int,
)
    requires
        work_fits(start, settings),
        common is Some ==> start.tables.top.frequencies.len() >= TOP_SYMBOLS + pow2(
            settings.ref_length_table_size as nat,
        ),
        all_sensible(tokens, settings, common, update),
        all_told(tokens, common).len() <= expected,
        put_tokens(start, settings, tokens) is Ok,
        fits(data, put_tokens(start, settings, tokens)->Ok_0.sender),
    ensures
        fits(data, start.sender),
        work_fits(put_tokens(start, settings, tokens)->Ok_0, settings),
        put_tokens(start, settings, tokens)->Ok_0.tables.top.frequencies.len()
            == start.tables.top.frequencies.len(),
        chunk_at(data, desk_of(start), seq![], expected, settings, common, update) == chunk_at(
            data,
            desk_of(put_tokens(start, settings, tokens)->Ok_0),
            all_told(tokens, common),
            expected,
            settings,
            common,
            update,
        ),
    decreases tokens.len(),
{
    if tokens.len() > 0 {
        let head = tokens.drop_last();
        let out = all_told(head, common);
        let token = tokens.last();
        assert(tokens.take(tokens.len() - 1) =~= head);
        assert(sensible(out, tokens[tokens.len() - 1], settings, common, update));
        assert forall|i: int| 0 <= i < head.len() implies sensible(
            all_told(head.take(i), common),
            #[trigger] head[i],
            settings,
            common,
            update,
        ) by {
            assert(head.take(i) =~= tokens.take(i));
            assert(head[i] == tokens[i]);
        }
        lemma_told_longer(out, token, settings, common, update);
        lemma_tokens_shape(start, settings, head, common, update);
        let work = put_tokens(start, settings, head)->Ok_0;
        lemma_put_token(work, settings, out, token, common, update);
        lemma_token_read_back(data, work, settings, out, token, common, update, expected);
        lemma_tokens_read_back(data, start, settings, head, common, update, expected);
    }
}

proof fn lemma_told_longer(
    out: Seq<u8>,
    token: Token,
    settings: RangeSettings,
    common: Option<Common>,
    update: ReferenceBaseUpdate,
)
    requires
        sensible(out, token, settings, common, update),
    ensures
        out.len() <= told(out, token, common).len(),
{
    match token {
        Token::Literal { byte } => {},
        Token::Match { length, distance } => {
            lemma_copy_match_len(out, distance as int, length as nat);
        },
        Token::Reference { length, target, next } => {},
    }
}

/// Tokens keep everything in shape.
pub proof fn lemma_tokens_shape(
    start: Work,
    settings: RangeSettings,
    tokens: Seq<Token>,
    common: Option<Common>,
    update: ReferenceBaseUpdate,
)
    requires
        work_fits(start, settings),
        common is Some ==> start.tables.top.frequencies.len() >= TOP_SYMBOLS + pow2(
            settings.ref_length_table_size as nat,
        ),
        all_sensible(tokens, settings, common, update),
    ensures
        put_tokens(start, settings, tokens) matches Ok(work) ==> {
            &&& work_fits(work, settings)
            &&& work.tables.top.frequencies.len() == start.tables.top.frequencies.len()
        },
    decreases tokens.len(),
{
    if tokens.len() > 0 {
        let head = tokens.drop_last();
        assert forall|i: int| 0 <= i < head.len() implies sensible(
            all_told(head.take(i), common),
            #[trigger] head[i],
            settings,
            common,
            update,
        ) by {
            assert(head.take(i) =~= tokens.take(i));
            assert(head[i] == tokens[i]);
        }
        assert(tokens.take(tokens.len() - 1) =~= head);
        assert(sensible(
            all_told(head, common),
            tokens[tokens.len() - 1],
            settings,
            common,
            update,
        ));
        lemma_tokens_shape(start, settings, head, common, update);
        if let Ok(work) = put_tokens(start, settings, head) {
            lemma_put_token(work, settings, all_told(head, common), tokens.last(), common, update);
        }
    }
}

/// Where the encoder of a chunk begins.
pub open spec fn first_work(settings: RangeSettings, has_combuf: bool) -> Work {
    Work {
        sender: first_sender(),
        tables: chunk_tables(settings, has_combuf),
        links: chunk_links(settings),
        recent: no_recent(),
    }
}

pub proof fn lemma_first_work(settings: RangeSettings, has_combuf: bool)
    requires
        settings.valid(),
    ensures
        work_fits(first_work(settings, has_combuf), settings),
        settings.offset_table_size >= 2 && settings.lively() ==> tables_lively(
            first_work(settings, has_combuf).tables,
        ),
        first_work(settings, has_combuf).tables.top.lively(),
{
    let work = first_work(settings, has_combuf);
    let symbols = pow2(settings.offset_table_size as nat);
    vstd::arithmetic::power2::lemma2_to64();
    crate::math::lemma_pow2_monotonic(settings.ref_length_table_size as nat, 15);
    crate::math::lemma_pow2_monotonic(settings.offset_table_size as nat, 15);
    lemma_uniform_lively(work.tables.top.frequencies.len(), MODEL_INCREMENT);
    assert forall|i: int| 0 <= i < work.tables.offsets.len() implies sized(
        #[trigger] work.tables.offsets[i],
        symbols,
    ) by {
        assert(work.tables.offsets[i] == uniform_context(settings));
    }
    if settings.offset_table_size >= 2 && settings.lively() {
        assert forall|i: int| 0 <= i < work.tables.offsets.len() implies all_lively(
            #[trigger] work.tables.offsets[i],
        ) by {
            assert forall|j: int| 0 <= j < work.tables.offsets[i].len() implies (
            #[trigger] work.tables.offsets[i][j]).lively() by {
                lemma_uniform_lively(symbols, table_increment(j));
            }
        }
    }
}

/// The stream of the tokens.
pub open spec fn chunk_stream(settings: RangeSettings, has_combuf: bool, tokens: Seq<Token>) -> Result<
    Seq<u8>,
    DzFault,
> {
    ended(first_work(settings, has_combuf), settings, tokens, true)
}

/// A stream of sensible tokens is read back, whatever follows it.
pub proof fn lemma_chunk_round_trip(
    settings: RangeSettings,
    tokens: Seq<Token>,
    common: Option<Common>,
    update: ReferenceBaseUpdate,
    rest: Seq<u8>,
)
    requires
        settings.valid(),
        all_sensible(tokens, settings, common, update),
        chunk_stream(settings, common is Some, tokens) is Ok,
    ensures
        unchunk(
            chunk_stream(settings, common is Some, tokens)->Ok_0 + rest,
            all_told(tokens, common).len() as int,
            settings,
            common,
            update,
        ) == Ok::<Seq<u8>, DzFault>(all_told(tokens, common)),
{
    let start = first_work(settings, common is Some);
    lemma_first_work(settings, common is Some);
    lemma_tokens_shape(start, settings, tokens, common, update);
    let work = put_tokens(start, settings, tokens)->Ok_0;
    lemma_put_end(work, settings);
    let last = put_end(work)->Ok_0;
    let data = finished(last.sender) + rest;
    lemma_finished_fits(last.sender, rest);
    lemma_symbol_read_back(data, work.sender, work.tables.top, END_SYMBOL as int);
    lemma_tokens_read_back(
        data,
        start,
        settings,
        tokens,
        common,
        update,
        all_told(tokens, common).len() as int,
    );
}

pub proof fn lemma_reference_length_faults(work: Work, settings: RangeSettings, length: int)
    requires
        work_fits(work, settings),
        settings.reference_fault() is None,
        work.tables.top.frequencies.len() >= TOP_SYMBOLS + pow2(
            settings.ref_length_table_size as nat,
        ),
        length <= usize::MAX,
    ensures
        put_reference_length(work, settings, length) matches Err(fault) ==> fault
            != DzFault::InvalidSettings,
{
    let bits = settings.ref_length_table_size;
    lemma_limit(bits);
    let limit = pow2((bits - 1) as nat) as int;
    let value = length - settings.big_min_match;
    if value >= 0 {
        lemma_smaller(value, limit);
        let symbol = TOP_SYMBOLS + group_of(value, limit);
        lemma_put_symbol(work.sender, work.tables.top, symbol);
        if let Ok((sender, top)) = put_symbol(work.sender, work.tables.top, symbol) {
            if value >= limit {
                lemma_put_digits(sender, work.links.lengths, bits, 0, value / limit);
            }
        }
    }
}

pub proof fn lemma_target_faults(work: Work, settings: RangeSettings, target: int, next: i64)
    requires
        work_fits(work, settings),
        settings.reference_fault() is None,
        target >= 0,
    ensures
        put_target(work, settings, target, next) matches Err(fault) ==> fault
            != DzFault::InvalidSettings,
{
    if target + 3 <= i64::MAX {
        let index = nearest(work.links.bases, target, 8);
        lemma_nearest(work.links.bases, target, 8);
        let delta = target - work.links.bases[index] + 3;
        let negative: int = if delta < 0 {
            1
        } else {
            0
        };
        let magnitude = if delta < 0 {
            -1 - delta
        } else {
            delta
        };
        lemma_put_symbol(work.sender, work.links.base, index);
        if let Ok((sender, base)) = put_symbol(work.sender, work.links.base, index) {
            lemma_put_symbol(sender, work.links.sign, negative);
            if let Ok((sender, sign)) = put_symbol(sender, work.links.sign, negative) {
                lemma_put_digits(
                    sender,
                    work.links.spots,
                    settings.ref_offset_table_size,
                    0,
                    magnitude,
                );
            }
        }
    }
}

/// Where the encoder of a part of the common buffer begins.
pub open spec fn common_work(settings: RangeSettings, tables: Tables) -> Work {
    Work { sender: first_sender(), tables, links: chunk_links(settings), recent: no_recent() }
}

/// The stream of tokens that are written from `first` on, with an end where there is to be one.
pub open spec fn ended(
    first: Work,
    settings: RangeSettings,
    tokens: Seq<Token>,
    end: bool,
) -> Result<Seq<u8>, DzFault> {
    match put_tokens(first, settings, tokens) {
        Err(fault) => Err(fault),
        Ok(work) => if end {
            match put_end(work) {
                Err(fault) => Err(fault),
                Ok(work) => Ok(finished(work.sender)),
            }
        } else {
            Ok(finished(work.sender))
        },
    }
}

/// The stream of a part of the common buffer.
pub open spec fn common_stream(
    settings: RangeSettings,
    tables: Tables,
    tokens: Seq<Token>,
    end: bool,
) -> Result<Seq<u8>, DzFault> {
    ended(common_work(settings, tables), settings, tokens, end)
}

/// No token refers to the common buffer.
pub open spec fn local_tokens(tokens: Seq<Token>) -> bool {
    forall|i: int| 0 <= i < tokens.len() ==> !((#[trigger] tokens[i]) is Reference)
}

/// The local tokens lead the reader of the common buffer to the state behind them.
proof fn lemma_payload_read_back(
    data: Seq<u8>,
    start: Work,
    settings: RangeSettings,
    tokens: Seq<Token>,
    expected: int,
    initial: Tables,
)
    requires
        work_fits(start, settings),
        local_tokens(tokens),
        all_sensible(tokens, settings, None, ReferenceBaseUpdate::Zero),
        all_told(tokens, None).len() <= expected,
        put_tokens(start, settings, tokens) is Ok,
        fits(data, put_tokens(start, settings, tokens)->Ok_0.sender),
    ensures
        payload_at(
            data,
            0,
            taker_of(start.sender),
            start.tables,
            start.recent,
            seq![],
            expected,
            settings.offset_table_size,
            initial,
        ) == payload_at(
            data,
            0,
            taker_of(put_tokens(start, settings, tokens)->Ok_0.sender),
            put_tokens(start, settings, tokens)->Ok_0.tables,
            put_tokens(start, settings, tokens)->Ok_0.recent,
            all_told(tokens, None),
            expected,
            settings.offset_table_size,
            initial,
        ),
    decreases tokens.len(),
{
    if tokens.len() > 0 {
        let update = ReferenceBaseUpdate::Zero;
        let head = tokens.drop_last();
        let out = all_told(head, None);
        let token = tokens.last();
        assert(tokens.take(tokens.len() - 1) =~= head);
        assert(sensible(out, tokens[tokens.len() - 1], settings, None, update));
        assert forall|i: int| 0 <= i < head.len() implies sensible(
            all_told(head.take(i), None),
            #[trigger] head[i],
            settings,
            None,
            update,
        ) by {
            assert(head.take(i) =~= tokens.take(i));
            assert(head[i] == tokens[i]);
        }
        assert forall|i: int| 0 <= i < head.len() implies !((#[trigger] head[i]) is Reference) by {
            assert(head[i] == tokens[i]);
        }
        lemma_told_longer(out, token, settings, None, update);
        lemma_tokens_shape(start, settings, head, None, update);
        let work = put_tokens(start, settings, head)->Ok_0;
        assert(data.skip(0) =~= data);
        lemma_token_read_back(
            data,
            work,
            settings,
            out,
            token,
            None,
            update,
            told(out, token, None).len() as int,
        );
        match token {
            Token::Literal { byte } => {
                lemma_symbol_read_back(data, work.sender, work.tables.top, byte as int);
            },
            Token::Match { length, distance } => {
                lemma_copy_match_len(out, distance as int, length as nat);
                lemma_match_read_back(data, work, settings, length, distance);
            },
            Token::Reference { length, target, next } => {
                assert(tokens[tokens.len() - 1] is Reference);
            },
        }
        lemma_payload_read_back(data, start, settings, head, expected, initial);
    }
}

/// A part of the common buffer is read back, whatever follows it.
pub proof fn lemma_common_round_trip(
    settings: RangeSettings,
    tables: Tables,
    tokens: Seq<Token>,
    end: bool,
    rest: Seq<u8>,
)
    requires
        settings.valid(),
        tables_fit(tables, settings),
        local_tokens(tokens),
        all_sensible(tokens, settings, None, ReferenceBaseUpdate::Zero),
        common_stream(settings, tables, tokens, end) is Ok,
    ensures
        ({
            let data = common_stream(settings, tables, tokens, end)->Ok_0 + rest;
            let told = all_told(tokens, None);
            payload_at(
                data,
                0,
                first_taker(),
                tables,
                no_recent(),
                seq![],
                told.len() as int,
                settings.offset_table_size,
                tables,
            ) matches Ok((bytes, _)) && bytes == told
        }),
{
    let start = common_work(settings, tables);
    lemma_first_work(settings, false);
    assert(start.links == first_work(settings, false).links);
    let update = ReferenceBaseUpdate::Zero;
    lemma_tokens_shape(start, settings, tokens, None, update);
    let work = put_tokens(start, settings, tokens)->Ok_0;
    let last = if end {
        lemma_put_end(work, settings);
        put_end(work)->Ok_0
    } else {
        work
    };
    let data = finished(last.sender) + rest;
    lemma_finished_fits(last.sender, rest);
    if end {
        lemma_symbol_read_back(data, work.sender, work.tables.top, END_SYMBOL as int);
    }
    lemma_payload_read_back(
        data,
        start,
        settings,
        tokens,
        all_told(tokens, None).len() as int,
        tables,
    );
    assert(first_taker() == taker_of(start.sender));
}

} // verus!
