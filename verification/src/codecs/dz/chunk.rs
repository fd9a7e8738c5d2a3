//! Compression and decompression of chunks.

use std::collections::BTreeSet;

use vstd::arithmetic::power2::pow2;
use vstd::prelude::*;

use crate::codecs::dz::common::DzCommonBuffer;
use crate::codecs::dz::cutting::{
    all_counted, boundary_from, chunk_tokens, costs_by, counted, cut, event_at, lemma_next_cut,
    local_reach, keys_after, match_counted, offset_costs_of, piece_bytes, reference_from,
    reference_symbol, reference_token, segment_chunk, segment_stream, segment_tokens, start,
    stepped, top_counted, Chunk, Cursor, Event, Piece,
};
use crate::codecs::dz::decoding::{common_view, decompress_chunk_with_output};
use crate::codecs::dz::encoding::{
    encode_common_reference, encode_match, encode_recent_distance, work_at, ResolvedReference,
};
use crate::codecs::dz::error::DzError;
use crate::codecs::dz::fault::DzFault;
use crate::codecs::dz::frequencies::{
    counters, lemma_count_digits, row_costs, symbol_costs, tables_of, DzFixedCosts,
    DzFrequencyCounts,
};
use crate::codecs::dz::matchfinder::{
    contexts_of, costs_in, keys_with, local_match_key, window_size, LazyLzParser, LzDecision,
    MatchCost, MatchScoring,
};
use crate::codecs::dz::model::{CommonModels, DzModels};
use crate::codecs::dz::range::RangeEncoder;
use crate::codecs::dz::settings::{RangeSettings, TOP_SYMBOLS};
use crate::codecs::dz::stream::{
    base_after, common_at, no_recent, recent_after, unchunk, undz, Common, ReferenceBaseUpdate,
    END_SYMBOL, MAX_MATCH, MIN_MATCH,
};
use crate::codecs::dz::tokens::{
    all_sensible, all_told, chunk_stream, common_work, ended, first_work, lemma_chunk_round_trip,
    lemma_first_work, lemma_limit, lemma_put_end, lemma_put_literal, lemma_put_match,
    lemma_put_reference_length, lemma_put_token, lemma_reference_length_faults, local_tokens,
    tables_fit, lemma_smaller, lemma_target_faults, put_reference_length, put_token, put_tokens,
    sensible, tables_lively, told, work_fits, Token, Work,
};
use crate::codecs::matchfinder::repeats;
use crate::codecs::zlib::deflate::lemma_copy_repeats;
use crate::math::{lemma_pow2_monotonic, power_of_two};

verus! {

/// The reference stands for its part of the input.
pub open spec fn resolved(
    input: Seq<u8>,
    reference: ResolvedReference,
    settings: RangeSettings,
    common: Option<Common>,
    update: ReferenceBaseUpdate,
) -> bool {
    &&& common is Some
    &&& settings.reference_fault() is None
    &&& settings.big_min_match <= reference.length
    &&& reference.position + reference.length <= input.len()
    &&& reference.next_base <= i64::MAX
    &&& common_at(common->Some_0, reference.target as int, reference.length as int) matches Ok(
        (bytes, consumed),
    )
    &&& bytes == input.subrange(
        reference.position as int,
        reference.position + reference.length,
    )
    &&& base_after(update, reference.target as int, consumed) == Ok::<i64, DzFault>(
        reference.next_base as i64,
    )
}

pub open spec fn all_resolved(
    input: Seq<u8>,
    references: Seq<ResolvedReference>,
    settings: RangeSettings,
    common: Option<Common>,
    update: ReferenceBaseUpdate,
) -> bool {
    forall|i: int|
        0 <= i < references.len() ==> resolved(
            input,
            #[trigger] references[i],
            settings,
            common,
            update,
        )
}

/// Finds what comes next at `position`, and steps over what lies behind.
fn next_event(
    position: usize,
    size: usize,
    references: &[ResolvedReference],
    boundaries: &[usize],
    reference_index: &mut usize,
    boundary_index: &mut usize,
    Ghost(chunk): Ghost<Chunk>,
) -> (event: Event)
    requires
        position < size,
        size == chunk.end,
        references@ == chunk.references,
        boundaries@ == chunk.boundaries,
    ensures
        event == event_at(
            chunk,
            cursor_at(position, *old(reference_index), *old(boundary_index)),
        ),
        cursor_at(position, *final(reference_index), *final(boundary_index)) == stepped(
            chunk,
            cursor_at(position, *old(reference_index), *old(boundary_index)),
        ),
        match event {
            Event::Boundary => true,
            Event::Reference(i) => i < references@.len() && references@[i as int].position
                == position,
            Event::Local(bound) => position < bound <= size,
        },
{
    while *boundary_index < boundaries.len() && boundaries[*boundary_index] < position
        invariant
            boundary_from(boundaries@, *boundary_index as int, position as int)
                == boundary_from(boundaries@, *old(boundary_index) as int, position as int),
        decreases boundaries@.len() - *boundary_index,
    {
        *boundary_index = *boundary_index + 1;
    }
    while *reference_index < references.len() && references[*reference_index].position < position
        invariant
            reference_from(references@, *reference_index as int, position as int)
                == reference_from(references@, *old(reference_index) as int, position as int),
        decreases references@.len() - *reference_index,
    {
        *reference_index = *reference_index + 1;
    }
    let mut bound: usize = size;
    if *boundary_index < boundaries.len() {
        let boundary: usize = boundaries[*boundary_index];
        if boundary == position {
            return Event::Boundary;
        }
        if position < boundary && boundary < bound {
            bound = boundary;
        }
    }
    if *reference_index < references.len() {
        let start: usize = references[*reference_index].position;
        if start == position {
            return Event::Reference(*reference_index);
        }
        if position < start && start < bound {
            bound = start;
        }
    }
    Event::Local(bound)
}

/// A chunk with its references and boundaries.
pub open spec fn chunk_of(
    input: Seq<u8>,
    references: Seq<ResolvedReference>,
    boundaries: Seq<usize>,
) -> Chunk {
    Chunk {
        input,
        end: input.len() as int,
        references,
        boundaries,
        first: false,
        stale: Set::empty(),
    }
}

spec fn cursor_at(position: usize, reference: usize, boundary: usize) -> Cursor {
    Cursor { position: position as int, reference: reference as int, boundary: boundary as int }
}

/// Counts a local match.
fn count_match(
    frequencies: &mut DzFrequencyCounts,
    recent: &mut [usize; 4],
    settings: RangeSettings,
    length: usize,
    distance: usize,
    Ghost(symbols): Ghost<nat>,
) -> (result: Result<(), DzFault>)
    requires
        old(frequencies).fits(settings, symbols),
        symbols >= TOP_SYMBOLS,
        settings.offset_table_size >= 2,
        MIN_MATCH <= length <= MAX_MATCH,
        distance + 3 <= usize::MAX,
    ensures
        result is Ok,
        final(frequencies).fits(settings, symbols),
        final(frequencies).counts() == match_counted(
            old(frequencies).counts(),
            old(recent)@,
            settings,
            length as int,
            distance,
        ),
        final(recent)@ == recent_after(distance, old(recent)@),
{
    match frequencies.record_top(length + 254) {
        Ok(()) => {},
        Err(fault) => return Err(fault),
    }
    let code: usize = encode_recent_distance(distance, recent);
    let count: usize = frequencies.offsets.len();
    let context: usize = if length - MIN_MATCH < count - 1 {
        length - MIN_MATCH
    } else {
        count - 1
    };
    let ghost before = frequencies.offsets@;
    proof {
        assert(counters(
            tables_of(before[context as int]@),
            pow2(settings.offset_table_size as nat),
        ));
        lemma_count_digits(
            tables_of(before[context as int]@),
            settings.offset_table_size,
            0,
            code as int,
        );
    }
    match frequencies.record_grouped(context, settings.offset_table_size, code) {
        Ok(()) => {},
        Err(fault) => return Err(fault),
    }
    proof {
        assert forall|c: int| 0 <= c < frequencies.offsets@.len() implies {
            &&& (#[trigger] frequencies.offsets@[c])@.len() == settings.offset_tables
            &&& counters(
                tables_of(frequencies.offsets@[c]@),
                pow2(settings.offset_table_size as nat),
            )
        } by {
            assert(before[c]@.len() == settings.offset_tables);
        }
        assert(frequencies.counts() =~= match_counted(
            old(frequencies).counts(),
            old(recent)@,
            settings,
            length as int,
            distance,
        ));
    }
    Ok(())
}

/// Parses a chunk once to learn what its symbols will cost.
///
/// The costs cover every symbol of the chunk's alphabets.
#[verifier::rlimit(40)]
fn analyze_dz_costs(
    input: &[u8],
    settings: RangeSettings,
    has_combuf: bool,
    references: &[ResolvedReference],
    boundaries: &[usize],
    Ghost(common): Ghost<Option<Common>>,
    Ghost(update): Ghost<ReferenceBaseUpdate>,
) -> (result: Result<DzFixedCosts, DzFault>)
    requires
        settings.valid(),
        has_combuf == (common is Some),
        all_resolved(input@, references@, settings, common, update),
    ensures
        result matches Ok(costs) && {
            &&& costs.top@.len() == first_work(settings, has_combuf).tables.top.frequencies.len()
            &&& costs.offsets@.len() == settings.offset_contexts
            &&& costs.top@ == symbol_costs(
                all_counted(chunk_of(input@, references@, boundaries@), settings, has_combuf).top,
            )
            &&& contexts_of(costs.offsets@) == offset_costs_of(
                all_counted(
                    chunk_of(input@, references@, boundaries@),
                    settings,
                    has_combuf,
                ).offsets,
            )
        },
{
    let ghost chunk = chunk_of(input@, references@, boundaries@);
    let ghost whole = all_counted(chunk, settings, has_combuf);
    let mut frequencies = DzFrequencyCounts::new(settings, has_combuf);
    let ghost symbols = frequencies.top@.len();
    let mut recent: [usize; 4] = [0;4];
    let mut parser = LazyLzParser::new(window_size(settings.win_size), input);
    let size: usize = input.len();
    let mut position: usize = 0;
    let mut reference_index: usize = 0;
    let mut boundary_index: usize = 0;
    proof {
        assert(recent@ =~= no_recent());
    }
    while position < size
        invariant
            chunk == chunk_of(input@, references@, boundaries@),
            whole == counted(
                chunk,
                settings,
                frequencies.counts(),
                recent@,
                cursor_at(position, reference_index, boundary_index),
            ),
            forall|b: int| #[trigger]
                parser.reach(b) == local_reach(false, Set::empty(), settings, b),
            size == input@.len(),
            position <= size,
            settings.valid(),
            has_combuf == (common is Some),
            all_resolved(input@, references@, settings, common, update),
            symbols == first_work(settings, has_combuf).tables.top.frequencies.len(),
            symbols >= TOP_SYMBOLS,
            frequencies.fits(settings, symbols),
            parser.follows(input@),
            parser.place() == position,
        decreases size - position,
    {
        let ghost before = frequencies.counts();
        match next_event(
            position,
            size,
            references,
            boundaries,
            &mut reference_index,
            &mut boundary_index,
            Ghost(chunk),
        ) {
            Event::Boundary => {
                match frequencies.record_top(input[position] as usize) {
                    Ok(()) => {},
                    Err(fault) => return Err(fault),
                }
                assert(frequencies.counts() =~= top_counted(before, input@[position as int] as int));
                position = position + 1;
                parser.skip_range(input, position);
            },
            Event::Reference(i) => {
                let reference = references[i];
                assert(resolved(input@, references@[i as int], settings, common, update));
                proof {
                    let bits = settings.ref_length_table_size;
                    vstd::arithmetic::power2::lemma2_to64();
                    lemma_pow2_monotonic((bits - 1) as nat, 14);
                    lemma_limit(bits);
                }
                let limit: usize = power_of_two(
                    settings.ref_length_table_size as usize - 1,
                ) as usize;
                let value: usize = reference.length - settings.big_min_match as usize;
                proof {
                    lemma_smaller(value as int, limit as int);
                }
                let group: usize = value % limit + (if value >= limit {
                    limit
                } else {
                    0
                });
                match frequencies.record_top(TOP_SYMBOLS + group) {
                    Ok(()) => {},
                    Err(fault) => return Err(fault),
                }
                assert(frequencies.counts() =~= top_counted(
                    before,
                    reference_symbol(settings, reference.length as int),
                ));
                position = position + reference.length;
                parser.skip_range(input, position);
            },
            Event::Local(bound) => {
                let cost = MatchCost {
                    scoring: MatchScoring::Heuristic,
                    recent_offsets: &recent,
                    bits: settings.offset_table_size,
                    contexts: settings.offset_contexts as usize,
                };
                match parser.next_bounded(input, bound, cost) {
                    None => {
                        position = bound;
                    },
                    Some(LzDecision::Literal { position: place }) => {
                        match frequencies.record_top(input[place] as usize) {
                            Ok(()) => {},
                            Err(fault) => return Err(fault),
                        }
                        assert(frequencies.counts() =~= top_counted(
                            before,
                            input@[place as int] as int,
                        ));
                        position = place + 1;
                    },
                    Some(LzDecision::Match { length, distance }) => {
                        match count_match(
                            &mut frequencies,
                            &mut recent,
                            settings,
                            length,
                            distance,
                            Ghost(symbols),
                        ) {
                            Ok(()) => {},
                            Err(fault) => return Err(fault),
                        }
                        position = position + length;
                    },
                }
            },
        }
    }
    let costs = frequencies.into_costs();
    proof {
        assert(frequencies.counts() == whole);
        assert forall|c: int| 0 <= c < costs.offsets@.len() implies #[trigger] contexts_of(
            costs.offsets@,
        )[c] =~= offset_costs_of(whole.offsets)[c] by {
            assert(row_costs(costs.offsets@[c]@, frequencies.offsets@[c]@));
        }
        assert(contexts_of(costs.offsets@) =~= offset_costs_of(whole.offsets));
    }
    Ok(costs)
}

/// The tokens spell the input.
pub open spec fn spells(
    tokens: Seq<Token>,
    input: Seq<u8>,
    settings: RangeSettings,
    common: Option<Common>,
    update: ReferenceBaseUpdate,
) -> bool {
    all_sensible(tokens, settings, common, update) && all_told(tokens, common) == input
}

/// One more token.
pub proof fn lemma_one_more(
    tokens: Seq<Token>,
    token: Token,
    settings: RangeSettings,
    common: Option<Common>,
    update: ReferenceBaseUpdate,
    start: Work,
)
    requires
        all_sensible(tokens, settings, common, update),
        sensible(all_told(tokens, common), token, settings, common, update),
    ensures
        all_sensible(tokens.push(token), settings, common, update),
        all_told(tokens.push(token), common) == told(all_told(tokens, common), token, common),
        put_tokens(start, settings, tokens.push(token)) == (match put_tokens(
            start,
            settings,
            tokens,
        ) {
            Err(fault) => Err(fault),
            Ok(work) => put_token(work, settings, token),
        }),
{
    let longer = tokens.push(token);
    assert(longer.drop_last() =~= tokens);
    assert forall|i: int| 0 <= i < longer.len() implies sensible(
        all_told(longer.take(i), common),
        #[trigger] longer[i],
        settings,
        common,
        update,
    ) by {
        if i < tokens.len() {
            assert(longer.take(i) =~= tokens.take(i));
            assert(longer[i] == tokens[i]);
        } else {
            assert(longer.take(i) =~= tokens);
        }
    }
}

/// The encoder of a chunk, between two tokens.
struct ChunkWriter {
    encoder: RangeEncoder,
    models: DzModels,
    recent: [usize; 4],
    first: Ghost<Work>,
    tokens: Ghost<Seq<Token>>,
}

impl ChunkWriter {
    spec fn work(&self) -> Work {
        work_at(&self.encoder, &self.models.common, self.models.links(), self.recent)
    }

    /// The tokens so far spell the input before `position`.
    #[verifier::opaque]
    spec fn at(
        &self,
        input: Seq<u8>,
        position: int,
        settings: RangeSettings,
        common: Option<Common>,
        update: ReferenceBaseUpdate,
    ) -> bool {
        &&& 0 <= position <= input.len()
        &&& spells(self.tokens@, input.take(position), settings, common, update)
        &&& put_tokens(self.first@, settings, self.tokens@) == Ok::<Work, DzFault>(self.work())
        &&& work_fits(self.work(), settings)
        &&& self.models.common@.top.frequencies.len()
            == self.first@.tables.top.frequencies.len()
        &&& common is Some ==> self.first@ == first_work(settings, true)
    }

    /// The tokens so far have been written.
    proof fn lemma_at(
        &self,
        input: Seq<u8>,
        position: int,
        settings: RangeSettings,
        common: Option<Common>,
        update: ReferenceBaseUpdate,
    )
        requires
            self.at(input, position, settings, common, update),
        ensures
            put_tokens(self.first@, settings, self.tokens@) == Ok::<Work, DzFault>(self.work()),
    {
        reveal(ChunkWriter::at);
    }

    /// One token was written.
    spec fn went_on(&self, before: &ChunkWriter, settings: RangeSettings, token: Token) -> bool {
        &&& self.first == before.first
        &&& self.tokens@ == before.tokens@.push(token)
        &&& put_token(before.work(), settings, token) == Ok::<Work, DzFault>(self.work())
    }

    /// Literals and local matches can always be written.
    spec fn vigorous(&self, settings: RangeSettings) -> bool {
        &&& self.models.common@.top.lively()
        &&& settings.offset_table_size >= 2 ==> tables_lively(self.models.common@)
    }

    fn new(
        settings: RangeSettings,
        has_combuf: bool,
        output: Vec<u8>,
        Ghost(input): Ghost<Seq<u8>>,
        Ghost(common): Ghost<Option<Common>>,
        Ghost(update): Ghost<ReferenceBaseUpdate>,
    ) -> (result: Result<ChunkWriter, DzFault>)
        requires
            settings.valid(),
            has_combuf == (common is Some),
        ensures
            result matches Ok(writer) && {
                &&& writer.at(input, 0, settings, common, update)
                &&& writer.tokens@ == Seq::<Token>::empty()
                &&& writer.work() == first_work(settings, has_combuf)
                &&& writer.first@ == first_work(settings, has_combuf)
                &&& settings.lively() ==> writer.vigorous(settings)
            },
    {
        let models = match DzModels::new(settings, has_combuf) {
            Ok(models) => models,
            Err(fault) => return Err(fault),
        };
        let recent: [usize; 4] = [0;4];
        let writer = ChunkWriter {
            encoder: RangeEncoder::with_output(output),
            models,
            recent,
            first: Ghost(first_work(settings, has_combuf)),
            tokens: Ghost(Seq::empty()),
        };
        proof {
            reveal(ChunkWriter::at);
            assert(recent@ =~= no_recent());
            lemma_first_work(settings, has_combuf);
            assert(writer.work() == first_work(settings, has_combuf));
            assert(input.take(0) =~= seq![]);
        }
        Ok(writer)
    }

    /// A writer of a part of the common buffer.
    fn for_segment(
        settings: RangeSettings,
        models: CommonModels,
        Ghost(input): Ghost<Seq<u8>>,
    ) -> (result: Result<ChunkWriter, DzFault>)
        requires
            settings.valid(),
            tables_fit(models@, settings),
        ensures
            result matches Ok(writer) && {
                &&& writer.at(input, 0, settings, None, ReferenceBaseUpdate::Zero)
                &&& writer.tokens@ == Seq::<Token>::empty()
                &&& writer.work() == common_work(settings, models@)
                &&& writer.first@ == common_work(settings, models@)
            },
    {
        let DzModels {
            common: _,
            reference_lengths,
            reference_offsets,
            reference_sign,
            reference_base,
            reference_bases,
        } = match DzModels::new(settings, false) {
            Ok(own) => own,
            Err(fault) => return Err(fault),
        };
        let own = DzModels {
            common: models,
            reference_lengths,
            reference_offsets,
            reference_sign,
            reference_base,
            reference_bases,
        };
        let recent: [usize; 4] = [0;4];
        let writer = ChunkWriter {
            encoder: RangeEncoder::new(),
            models: own,
            recent,
            first: Ghost(common_work(settings, models@)),
            tokens: Ghost(Seq::empty()),
        };
        proof {
            reveal(ChunkWriter::at);
            assert(recent@ =~= no_recent());
            lemma_first_work(settings, false);
            assert(writer.work() == common_work(settings, models@));
            assert(input.take(0) =~= seq![]);
        }
        Ok(writer)
    }

    #[verifier::rlimit(40)]
    fn literal(
        &mut self,
        byte: u8,
        settings: RangeSettings,
        Ghost(input): Ghost<Seq<u8>>,
        Ghost(position): Ghost<int>,
        Ghost(common): Ghost<Option<Common>>,
        Ghost(update): Ghost<ReferenceBaseUpdate>,
    ) -> (result: Result<(), DzFault>)
        requires
            old(self).at(input, position, settings, common, update),
            0 <= position < input.len(),
            byte == input[position],
        ensures
            match result {
                Ok(()) => {
                    &&& final(self).went_on(old(self), settings, Token::Literal { byte })
                    &&& final(self).at(input, position + 1, settings, common, update)
                    &&& old(self).vigorous(settings) ==> final(self).vigorous(settings)
                },
                Err(fault) => fault == DzFault::Collapsed && !old(self).vigorous(settings)
                    && put_token(old(self).work(), settings, Token::Literal { byte }) == Err::<
                    Work,
                    DzFault,
                >(fault),
            },
    {
        let ghost token = Token::Literal { byte };
        proof {
            reveal(ChunkWriter::at);
            lemma_put_literal(self.work(), settings, byte);
            lemma_put_token(
                self.work(),
                settings,
                input.take(position),
                token,
                common,
                update,
            );
            lemma_one_more(
                self.tokens@,
                token,
                settings,
                common,
                update,
                self.first@,
            );
            assert(input.take(position).push(byte) =~= input.take(position + 1));
        }
        match self.encoder.encode(&mut self.models.common.top, byte as usize) {
            Ok(()) => {},
            Err(fault) => return Err(fault),
        }
        self.tokens = Ghost(self.tokens@.push(token));
        Ok(())
    }

    #[verifier::rlimit(40)]
    fn local(
        &mut self,
        input: &[u8],
        position: usize,
        length: usize,
        distance: usize,
        settings: RangeSettings,
        Ghost(common): Ghost<Option<Common>>,
        Ghost(update): Ghost<ReferenceBaseUpdate>,
    ) -> (result: Result<(), DzFault>)
        requires
            old(self).at(input@, position as int, settings, common, update),
            settings.offset_table_size >= 2,
            MIN_MATCH <= length <= MAX_MATCH,
            distance + 3 <= usize::MAX,
            repeats(input@, position as int, length as int, distance as int),
        ensures
            match result {
                Ok(()) => {
                    &&& final(self).went_on(
                        old(self),
                        settings,
                        Token::Match { length: length as int, distance },
                    )
                    &&& final(self).at(input@, position + length, settings, common, update)
                    &&& old(self).vigorous(settings) ==> final(self).vigorous(settings)
                },
                Err(fault) => fault == DzFault::Collapsed && !old(self).vigorous(settings)
                    && put_token(
                    old(self).work(),
                    settings,
                    Token::Match { length: length as int, distance },
                ) == Err::<Work, DzFault>(fault),
            },
    {
        let ghost work = self.work();
        let ghost token = Token::Match { length: length as int, distance };
        proof {
            reveal(ChunkWriter::at);
            lemma_put_match(work, settings, length as int, distance);
            lemma_put_token(
                work,
                settings,
                input@.take(position as int),
                token,
                common,
                update,
            );
            lemma_one_more(
                self.tokens@,
                token,
                settings,
                common,
                update,
                self.first@,
            );
            lemma_copy_repeats(input@, position as int, length as nat, distance as int);
        }
        match encode_match(
            &mut self.encoder,
            &mut self.models.common,
            &mut self.recent,
            settings,
            length,
            distance,
            Ghost(work.links),
        ) {
            Ok(()) => {},
            Err(fault) => return Err(fault),
        }
        self.tokens = Ghost(self.tokens@.push(token));
        Ok(())
    }

    #[verifier::rlimit(40)]
    fn reference(
        &mut self,
        input: &[u8],
        reference: ResolvedReference,
        settings: RangeSettings,
        Ghost(common): Ghost<Option<Common>>,
        Ghost(update): Ghost<ReferenceBaseUpdate>,
    ) -> (result: Result<(), DzFault>)
        requires
            old(self).at(input@, reference.position as int, settings, common, update),
            resolved(input@, reference, settings, common, update),
        ensures
            match result {
                Ok(()) => {
                    &&& final(self).went_on(old(self), settings, reference_token(reference))
                    &&& final(self).at(
                        input@,
                        reference.position + reference.length,
                        settings,
                        common,
                        update,
                    )
                },
                Err(fault) => fault != DzFault::InvalidSettings && put_token(
                    old(self).work(),
                    settings,
                    reference_token(reference),
                ) == Err::<Work, DzFault>(fault),
            },
    {
        let ghost position = reference.position as int;
        let ghost token = Token::Reference {
            length: reference.length as int,
            target: reference.target as int,
            next: reference.next_base as i64,
        };
        proof {
            reveal(ChunkWriter::at);
            assert(sensible(input@.take(position), token, settings, common, update));
            lemma_put_token(
                self.work(),
                settings,
                input@.take(position),
                token,
                common,
                update,
            );
            lemma_put_faults(self.work(), settings, token);
            lemma_one_more(
                self.tokens@,
                token,
                settings,
                common,
                update,
                self.first@,
            );
            assert(input@.take(position) + input@.subrange(
                position,
                position + reference.length,
            ) =~= input@.take(position + reference.length));
        }
        match encode_common_reference(
            &mut self.encoder,
            &mut self.models,
            settings,
            reference,
            Ghost(self.recent),
        ) {
            Ok(()) => {},
            Err(fault) => return Err(fault),
        }
        self.tokens = Ghost(self.tokens@.push(token));
        Ok(())
    }

    /// The tokens spell the same beginning of another input.
    proof fn lemma_same_beginning(
        &self,
        input: Seq<u8>,
        other: Seq<u8>,
        position: int,
        settings: RangeSettings,
        common: Option<Common>,
        update: ReferenceBaseUpdate,
    )
        requires
            self.at(input, position, settings, common, update),
            position <= other.len(),
            input.take(position) == other.take(position),
        ensures
            self.at(other, position, settings, common, update),
    {
        reveal(ChunkWriter::at);
    }

    /// Ends the stream, with an end where there is to be one.
    fn finish(
        self,
        end: bool,
        settings: RangeSettings,
        Ghost(input): Ghost<Seq<u8>>,
        Ghost(common): Ghost<Option<Common>>,
        Ghost(update): Ghost<ReferenceBaseUpdate>,
    ) -> (result: Result<Vec<u8>, DzFault>)
        requires
            self.at(input, input.len() as int, settings, common, update),
        ensures
            match result {
                Ok(stream) => {
                    &&& spells(self.tokens@, input, settings, common, update)
                    &&& ended(self.first@, settings, self.tokens@, end) == Ok::<Seq<u8>, DzFault>(
                        stream@,
                    )
                },
                Err(fault) => {
                    &&& fault == DzFault::Collapsed && !self.vigorous(settings)
                    &&& ended(self.first@, settings, self.tokens@, end) == Err::<Seq<u8>, DzFault>(fault)
                },
            },
    {
        let mut writer = self;
        proof {
            reveal(ChunkWriter::at);
            lemma_put_end(writer.work(), settings);
            assert(input.take(input.len() as int) =~= input);
        }
        if end {
            match writer.encoder.encode(&mut writer.models.common.top, END_SYMBOL) {
                Ok(()) => {},
                Err(fault) => return Err(fault),
            }
        }
        Ok(writer.encoder.finish())
    }
}

proof fn lemma_put_faults(work: Work, settings: RangeSettings, token: Token)
    requires
        work_fits(work, settings),
        settings.reference_fault() is None,
        work.tables.top.frequencies.len() >= TOP_SYMBOLS + pow2(
            settings.ref_length_table_size as nat,
        ),
        token matches Token::Reference { length, target, next } && length <= usize::MAX && target
            >= 0 && next >= 0,
    ensures
        put_token(work, settings, token) matches Err(fault) ==> fault != DzFault::InvalidSettings,
{
    if let Token::Reference { length, target, next } = token {
        lemma_reference_length_faults(work, settings, length);
        if let Ok(after) = put_reference_length(work, settings, length) {
            lemma_put_reference_length(work, settings, length);
            lemma_target_faults(after, settings, target, next);
        }
    }
}

/// The result is as told.
pub open spec fn told_by(result: Result<Vec<u8>, DzFault>, stream: Result<Seq<u8>, DzFault>) -> bool {
    match stream {
        Ok(bytes) => result matches Ok(got) && got@ == bytes,
        Err(fault) => result == Err::<Vec<u8>, DzFault>(fault),
    }
}

/// Writes the tokens that the input before `end` is cut into.
#[verifier::rlimit(40)]
fn write_tokens(
    writer: ChunkWriter,
    parser: LazyLzParser<'_>,
    input: &[u8],
    end: usize,
    settings: RangeSettings,
    costs: &DzFixedCosts,
    references: &[ResolvedReference],
    boundaries: &[usize],
    Ghost(chunk): Ghost<Chunk>,
    Ghost(common): Ghost<Option<Common>>,
    Ghost(update): Ghost<ReferenceBaseUpdate>,
) -> (result: Result<ChunkWriter, DzFault>)
    requires
        settings.valid(),
        chunk.input == input@,
        chunk.end == end,
        end <= input@.len(),
        chunk.references == references@,
        chunk.boundaries == boundaries@,
        all_resolved(input@, references@, settings, common, update),
        forall|i: int|
            0 <= i < references@.len() ==> (#[trigger] references@[i]).position
                + references@[i].length <= end,
        parser.follows(input@),
        parser.place() == 0,
        forall|b: int| #[trigger]
            parser.reach(b) == local_reach(chunk.first, chunk.stale, settings, b),
        writer.at(input@, 0, settings, common, update),
        writer.tokens@ == Seq::<Token>::empty(),
        writer.work() == writer.first@,
    ensures
        ({
            let tokens = cut(chunk, settings, costs_in(*costs), writer.first@, start());
            match result {
                Ok(after) => {
                    &&& after.first == writer.first
                    &&& after.tokens@ == tokens
                    &&& after.at(input@, end as int, settings, common, update)
                    &&& references@.len() == 0 && writer.vigorous(settings) ==> after.vigorous(
                        settings,
                    )
                },
                Err(fault) => {
                    &&& put_tokens(writer.first@, settings, tokens) == Err::<Work, DzFault>(fault)
                    &&& fault != DzFault::InvalidSettings
                    &&& references@.len() == 0 ==> fault == DzFault::Collapsed && !writer.vigorous(
                        settings,
                    )
                },
            }
        }),
{
    let ghost first = writer.first@;
    let ghost prices = costs_in(*costs);
    let ghost whole = cut(chunk, settings, prices, first, start());
    let ghost vigorous = writer.vigorous(settings);
    let mut active = writer;
    let mut parser = parser;
    let size: usize = end;
    let mut position: usize = 0;
    let mut reference_index: usize = 0;
    let mut boundary_index: usize = 0;
    assert(active.tokens@ + cut(chunk, settings, prices, active.work(), start()) =~= whole);
    while position < size
        invariant
            prices == costs_in(*costs),
            whole == cut(chunk, settings, prices, first, start()),
            active.first@ == first,
            first == writer.first@,
            vigorous == writer.vigorous(settings),
            whole == active.tokens@ + cut(
                chunk,
                settings,
                prices,
                active.work(),
                cursor_at(position, reference_index, boundary_index),
            ),
            forall|b: int| #[trigger]
                parser.reach(b) == local_reach(chunk.first, chunk.stale, settings, b),
            chunk.input == input@,
            chunk.references == references@,
            chunk.boundaries == boundaries@,
            size == end,
            chunk.end == size,
            size <= input@.len(),
            position <= size,
            forall|i: int|
                0 <= i < references@.len() ==> (#[trigger] references@[i]).position
                    + references@[i].length <= size,
            settings.valid(),
            all_resolved(input@, references@, settings, common, update),
            parser.follows(input@),
            parser.place() == position,
            active.at(input@, position as int, settings, common, update),
            references@.len() == 0 && vigorous ==> active.vigorous(settings),
        decreases size - position,
    {
        let ghost cursor = cursor_at(position, reference_index, boundary_index);
        proof {
            active.lemma_at(input@, position as int, settings, common, update);
            lemma_next_cut(
                chunk,
                settings,
                prices,
                active.work(),
                cursor,
                active.tokens@,
                first,
            );
        }
        match next_event(
            position,
            size,
            references,
            boundaries,
            &mut reference_index,
            &mut boundary_index,
            Ghost(chunk),
        ) {
            Event::Boundary => {
                match active.literal(
                    input[position],
                    settings,
                    Ghost(input@),
                    Ghost(position as int),
                    Ghost(common),
                    Ghost(update),
                ) {
                    Ok(()) => {},
                    Err(fault) => return Err(fault),
                }
                position = position + 1;
                parser.skip_range(input, position);
            },
            Event::Reference(i) => {
                let reference = references[i];
                assert(resolved(input@, references@[i as int], settings, common, update));
                match active.reference(input, reference, settings, Ghost(common), Ghost(update)) {
                    Ok(()) => {},
                    Err(fault) => return Err(fault),
                }
                position = position + reference.length;
                parser.skip_range(input, position);
            },
            Event::Local(bound) => {
                let cost = MatchCost {
                    scoring: MatchScoring::Fixed {
                        costs,
                        dynamic_offsets: &active.models.common.offsets,
                    },
                    recent_offsets: &active.recent,
                    bits: settings.offset_table_size,
                    contexts: settings.offset_contexts as usize,
                };
                match parser.next_bounded(input, bound, cost) {
                    None => {
                        position = bound;
                    },
                    Some(LzDecision::Literal { position: place }) => {
                        match active.literal(
                            input[place],
                            settings,
                            Ghost(input@),
                            Ghost(place as int),
                            Ghost(common),
                            Ghost(update),
                        ) {
                            Ok(()) => {},
                            Err(fault) => return Err(fault),
                        }
                        position = place + 1;
                    },
                    Some(LzDecision::Match { length, distance }) => {
                        match active.local(
                            input,
                            position,
                            length,
                            distance,
                            settings,
                            Ghost(common),
                            Ghost(update),
                        ) {
                            Ok(()) => {},
                            Err(fault) => return Err(fault),
                        }
                        position = position + length;
                    },
                }
            },
        }
    }
    assert(active.tokens@ =~= whole);
    Ok(active)
}

/// Compresses a part of the common buffer, by what symbols cost in all of it: the input before
/// `boundary`, and a literal behind it. The keys of its positions are noted for the parts that
/// follow.
#[verifier::rlimit(40)]
pub fn compress_common_segment(
    input: &[u8],
    boundary: usize,
    allow_position_zero: bool,
    stale_keys: &mut BTreeSet<u32>,
    emit_end: bool,
    trailing_literal: Option<u8>,
    settings: RangeSettings,
    models: CommonModels,
    fixed_costs: &DzFixedCosts,
) -> (result: Result<Vec<u8>, DzFault>)
    requires
        settings.valid(),
        boundary <= input@.len(),
        tables_fit(models@, settings),
    ensures
        ({
            let piece = Piece {
                input: input@,
                end: boundary as int,
                first: allow_position_zero,
                literal: trailing_literal,
                closed: emit_end,
            };
            let stale = old(stale_keys)@;
            let costs = costs_in(*fixed_costs);
            let tokens = segment_tokens(piece, stale, settings, costs, models@);
            &&& told_by(result, segment_stream(piece, stale, settings, costs, models@))
            &&& match result {
                Ok(_) => {
                    &&& spells(
                        tokens,
                        piece_bytes(piece),
                        settings,
                        None,
                        ReferenceBaseUpdate::Zero,
                    )
                    &&& local_tokens(tokens)
                    &&& final(stale_keys)@ == keys_after(piece, stale)
                },
                Err(fault) => fault == DzFault::Collapsed && final(stale_keys)@ == stale,
            }
        }),
{
    let ghost piece = Piece {
        input: input@,
        end: boundary as int,
        first: allow_position_zero,
        literal: trailing_literal,
        closed: emit_end,
    };
    let ghost stale = stale_keys@;
    let ghost update = ReferenceBaseUpdate::Zero;
    let writer = match ChunkWriter::for_segment(settings, models, Ghost(input@)) {
        Ok(writer) => writer,
        Err(fault) => return Err(fault),
    };
    let none: [ResolvedReference; 0] = [];
    let ends: [usize; 0] = [];
    assert(none@ =~= Seq::empty());
    assert(ends@ =~= Seq::empty());
    let parser = LazyLzParser::new_with_stale_keys(
        window_size(settings.win_size),
        allow_position_zero,
        stale_keys,
        input,
    );
    let ghost chunk = segment_chunk(piece, stale);
    let ghost first = writer.first@;
    let ghost body = cut(chunk, settings, costs_in(*fixed_costs), first, start());
    let mut active = match write_tokens(
        writer,
        parser,
        input,
        boundary,
        settings,
        fixed_costs,
        none.as_slice(),
        ends.as_slice(),
        Ghost(chunk),
        Ghost(None),
        Ghost(update),
    ) {
        Ok(active) => active,
        Err(fault) => {
            proof {
                lemma_unwritable(first, settings, body, trailing_literal);
            }
            return Err(fault);
        },
    };
    let ghost whole = piece_bytes(piece);
    proof {
        assert(input@.take(boundary as int) =~= whole.take(boundary as int));
        active.lemma_same_beginning(input@, whole, boundary as int, settings, None, update);
        active.lemma_at(whole, boundary as int, settings, None, update);
    }
    if let Some(byte) = trailing_literal {
        proof {
            lemma_one_token(first, settings, body, Token::Literal { byte });
        }
        match active.literal(
            byte,
            settings,
            Ghost(whole),
            Ghost(boundary as int),
            Ghost(None),
            Ghost(update),
        ) {
            Ok(()) => {},
            Err(fault) => return Err(fault),
        }
    }
    let ghost tokens = active.tokens@;
    let result = active.finish(emit_end, settings, Ghost(whole), Ghost(None), Ghost(update));
    if result.is_err() {
        return result;
    }
    proof {
        assert forall|i: int| 0 <= i < tokens.len() implies !((#[trigger] tokens[i]) is Reference) by {
            assert(sensible(
                all_told(tokens.take(i), None),
                tokens[i],
                settings,
                None,
                ReferenceBaseUpdate::Zero,
            ));
        }
    }
    let mut position: usize = if allow_position_zero {
        0
    } else {
        1
    };
    while position < boundary
        invariant
            boundary <= input@.len(),
            keys_after(piece, stale) == keys_with(
                input@,
                position as int,
                boundary as int,
                stale_keys@,
            ),
        decreases boundary - position,
    {
        if let Some(key) = local_match_key(input, position) {
            stale_keys.insert(key);
        }
        position += 1;
    }
    result
}

/// What one more token does to tokens that were written.
proof fn lemma_one_token(first: Work, settings: RangeSettings, tokens: Seq<Token>, token: Token)
    ensures
        put_tokens(first, settings, tokens.push(token)) == (match put_tokens(
            first,
            settings,
            tokens,
        ) {
            Err(fault) => Err(fault),
            Ok(work) => put_token(work, settings, token),
        }),
{
    assert(tokens.push(token).drop_last() =~= tokens);
}

/// Tokens that cannot be written cannot be written with a literal behind them either.
proof fn lemma_unwritable(
    first: Work,
    settings: RangeSettings,
    tokens: Seq<Token>,
    literal: Option<u8>,
)
    requires
        put_tokens(first, settings, tokens) is Err,
    ensures
        literal matches Some(byte) ==> put_tokens(
            first,
            settings,
            tokens.push(Token::Literal { byte }),
        ) == put_tokens(first, settings, tokens),
{
    if let Some(byte) = literal {
        lemma_one_token(first, settings, tokens, Token::Literal { byte });
    }
}

/// The stream of a chunk that stands alone.
pub open spec fn dz_stream(input: Seq<u8>, settings: RangeSettings) -> Result<Seq<u8>, DzFault> {
    if settings.valid() {
        chunk_stream(
            settings,
            false,
            chunk_tokens(chunk_of(input, Seq::empty(), Seq::empty()), settings, false),
        )
    } else {
        Err(DzFault::InvalidSettings)
    }
}

/// Compresses a chunk of which some parts may stand in the common buffer.
#[verifier::rlimit(40)]
pub fn compress_chunk_with_references_and_output(
    input: &[u8],
    settings: RangeSettings,
    has_combuf: bool,
    references: &[ResolvedReference],
    boundaries: &[usize],
    output: Vec<u8>,
    Ghost(common): Ghost<Option<Common>>,
    Ghost(update): Ghost<ReferenceBaseUpdate>,
) -> (result: Result<Vec<u8>, DzFault>)
    requires
        has_combuf == (common is Some),
        all_resolved(input@, references@, settings, common, update),
    ensures
        settings.valid() ==> told_by(
            result,
            chunk_stream(
                settings,
                has_combuf,
                chunk_tokens(chunk_of(input@, references@, boundaries@), settings, has_combuf),
            ),
        ),
        match result {
            Ok(stream) => {
                &&& settings.valid()
                &&& spells(
                    chunk_tokens(
                        chunk_of(input@, references@, boundaries@),
                        settings,
                        has_combuf,
                    ),
                    input@,
                    settings,
                    common,
                    update,
                )
                &&& unchunk(stream@, input@.len() as int, settings, common, update) == Ok::<
                    Seq<u8>,
                    DzFault,
                >(input@)
            },
            Err(fault) => {
                &&& fault == DzFault::InvalidSettings <==> !settings.valid()
                &&& references@.len() == 0 && settings.valid() ==> fault == DzFault::Collapsed
                    && !settings.lively()
            },
        },
{
    if !settings.is_valid() {
        return Err(DzFault::InvalidSettings);
    }
    let ghost chunk = chunk_of(input@, references@, boundaries@);
    let costs = match analyze_dz_costs(
        input,
        settings,
        has_combuf,
        references,
        boundaries,
        Ghost(common),
        Ghost(update),
    ) {
        Ok(costs) => costs,
        Err(fault) => return Err(fault),
    };
    let writer = match ChunkWriter::new(
        settings,
        has_combuf,
        output,
        Ghost(input@),
        Ghost(common),
        Ghost(update),
    ) {
        Ok(writer) => writer,
        Err(fault) => return Err(fault),
    };
    let parser = LazyLzParser::new(window_size(settings.win_size), input);
    let ghost tokens = chunk_tokens(chunk, settings, has_combuf);
    assert(costs_in(costs) == costs_by(all_counted(chunk, settings, has_combuf)));
    let written = match write_tokens(
        writer,
        parser,
        input,
        input.len(),
        settings,
        &costs,
        references,
        boundaries,
        Ghost(chunk),
        Ghost(common),
        Ghost(update),
    ) {
        Ok(written) => written,
        Err(fault) => return Err(fault),
    };
    let stream = match written.finish(
        true,
        settings,
        Ghost(input@),
        Ghost(common),
        Ghost(update),
    ) {
        Ok(stream) => stream,
        Err(fault) => return Err(fault),
    };
    proof {
        lemma_chunk_round_trip(settings, tokens, common, update, seq![]);
        assert(stream@ + Seq::<u8>::empty() =~= stream@);
        assert(spells(tokens, input@, settings, common, update));
    }
    Ok(stream)
}

/// Compresses a chunk of which some parts may stand in the common buffer.
pub fn compress_chunk_with_references(
    input: &[u8],
    settings: RangeSettings,
    has_combuf: bool,
    references: &[ResolvedReference],
    boundaries: &[usize],
    Ghost(common): Ghost<Option<Common>>,
    Ghost(update): Ghost<ReferenceBaseUpdate>,
) -> (result: Result<Vec<u8>, DzFault>)
    requires
        has_combuf == (common is Some),
        all_resolved(input@, references@, settings, common, update),
    ensures
        settings.valid() ==> told_by(
            result,
            chunk_stream(
                settings,
                has_combuf,
                chunk_tokens(chunk_of(input@, references@, boundaries@), settings, has_combuf),
            ),
        ),
        match result {
            Ok(stream) => settings.valid() && unchunk(
                stream@,
                input@.len() as int,
                settings,
                common,
                update,
            ) == Ok::<Seq<u8>, DzFault>(input@),
            Err(fault) => {
                &&& fault == DzFault::InvalidSettings <==> !settings.valid()
                &&& references@.len() == 0 && settings.valid() ==> fault == DzFault::Collapsed
                    && !settings.lively()
            },
        },
{
    compress_chunk_with_references_and_output(
        input,
        settings,
        has_combuf,
        references,
        boundaries,
        Vec::new(),
        Ghost(common),
        Ghost(update),
    )
}

/// Compresses a chunk into the storage of an earlier output.
pub fn compress_chunk_with_output(input: &[u8], settings: RangeSettings, output: Vec<u8>) -> (result:
    Result<Vec<u8>, DzFault>)
    ensures
        told_by(result, dz_stream(input@, settings)),
        match result {
            Ok(stream) => {
                &&& settings.valid()
                &&& spells(
                    chunk_tokens(
                        chunk_of(input@, Seq::empty(), Seq::empty()),
                        settings,
                        false,
                    ),
                    input@,
                    settings,
                    None,
                    ReferenceBaseUpdate::CompressedEndpoint,
                )
                &&& undz(stream@, input@.len() as int, settings, None) == Ok::<Seq<u8>, DzFault>(
                    input@,
                )
            },
            Err(fault) => if settings.valid() {
                fault == DzFault::Collapsed && !settings.lively()
            } else {
                fault == DzFault::InvalidSettings
            },
        },
{
    let none: [ResolvedReference; 0] = [];
    let ends: [usize; 0] = [];
    assert(none@ =~= Seq::empty());
    assert(ends@ =~= Seq::empty());
    compress_chunk_with_references_and_output(
        input,
        settings,
        false,
        none.as_slice(),
        ends.as_slice(),
        output,
        Ghost(None),
        Ghost(ReferenceBaseUpdate::CompressedEndpoint),
    )
}

/// Compresses a chunk that stands alone.
///
/// Decompression gives the input back. Compression succeeds for all settings whose distance
/// alphabets are larger than what a coded symbol gains.
pub fn compress_chunk(input: &[u8], settings: RangeSettings) -> (result: Result<Vec<u8>, DzError>)
    ensures
        match dz_stream(input@, settings) {
            Ok(bytes) => result matches Ok(stream) && stream@ == bytes,
            Err(fault) => result matches Err(error) && error@ == fault.report(),
        },
        match result {
            Ok(stream) => {
                &&& settings.valid()
                &&& spells(
                    chunk_tokens(
                        chunk_of(input@, Seq::empty(), Seq::empty()),
                        settings,
                        false,
                    ),
                    input@,
                    settings,
                    None,
                    ReferenceBaseUpdate::CompressedEndpoint,
                )
                &&& undz(stream@, input@.len() as int, settings, None) == Ok::<Seq<u8>, DzFault>(
                    input@,
                )
            },
            Err(error) => if settings.valid() {
                error@ == DzFault::Collapsed.report() && !settings.lively()
            } else {
                error@ == DzFault::InvalidSettings.report()
            },
        },
{
    match compress_chunk_with_output(input, settings, Vec::new()) {
        Ok(stream) => Ok(stream),
        Err(fault) => Err(fault.error()),
    }
}

/// Decompresses a chunk that stands alone.
pub fn decompress_chunk(input: &[u8], expected_size: usize, settings: RangeSettings) -> (result:
    Result<Vec<u8>, DzError>)
    ensures
        match undz(input@, expected_size as int, settings, None) {
            Ok(bytes) => result matches Ok(output) && output@ == bytes,
            Err(fault) => result matches Err(error) && error@ == fault.report(),
        },
{
    decompress_chunk_with_common_buffer(input, expected_size, settings, None)
}

/// Decompresses a chunk that may refer to the common buffer.
pub fn decompress_chunk_with_common_buffer(
    input: &[u8],
    expected_size: usize,
    settings: RangeSettings,
    common_buffer: Option<&DzCommonBuffer>,
) -> (result: Result<Vec<u8>, DzError>)
    ensures
        match undz(input@, expected_size as int, settings, common_view(common_buffer)) {
            Ok(bytes) => result matches Ok(output) && output@ == bytes,
            Err(fault) => result matches Err(error) && error@ == fault.report(),
        },
{
    match decompress_chunk_with_output(
        input,
        expected_size,
        settings,
        common_buffer,
        Vec::new(),
    ) {
        Ok(output) => Ok(output),
        Err(fault) => Err(fault.error()),
    }
}

} // verus!
