//! Compression of the chunks of an archive together with their common buffer.

use std::collections::BTreeSet;

use vstd::arithmetic::power2::pow2;
use vstd::prelude::*;

use crate::codecs::dz::analysis::{
    files, find_common_references, part_of, parts_of, piece_of, reference_of, segment_of, uses_of,
    CommonReference, CommonSegment,
};
use crate::codecs::dz::chunk::{
    all_resolved, compress_chunk_with_references, compress_common_segment, resolved,
};
use crate::codecs::dz::common::{
    chunk_fault, common_fault, contents, lemma_common_tables_fit, DzCommonBuffer,
};
use crate::codecs::dz::cutting::{
    costs_by, counted, local_reach, match_counted, offset_costs_of, piece_bytes, segment_chunk,
    segment_counted, segment_stream, segments_counted, stale_before, start, top_counted, Cursor,
    Piece,
};
use crate::codecs::dz::encoding::ResolvedReference;
use crate::codecs::dz::error::DzError;
use crate::codecs::dz::fault::DzFault;
use crate::codecs::dz::frequencies::{
    counters, lemma_count_digits, normalized_contexts, normalized_counts, normalized_tables,
    row_costs, symbol_costs, tables_of, CommonFrequencies, DzFixedCosts,
};
use crate::codecs::dz::matchfinder::{
    contexts_of, costs_in, window_size, LazyLzParser, LzDecision, MatchCost, MatchScoring,
};
use crate::codecs::dz::model::CommonModels;
use crate::codecs::dz::settings::{validate_common_settings, RangeSettings, TOP_SYMBOLS};
use crate::codecs::dz::sharing::{
    all_part_pieces, boundaries_in, common_written, inserted, lemma_reads_back, linked_streams,
    part_piece, placed, plain_streams, reads_back, resolved_from, shared_streams, streams_sharing,
    unshared_streams, written, Streams, Written,
};
use crate::codecs::dz::stream::{
    common_tables, no_recent, payload_start, recent_after, recorded_tables, unchunk, Common,
    ReferenceBaseUpdate, END_SYMBOL, MAX_MATCH, MIN_MATCH,
};
use crate::codecs::dz::tokens::tables_fit;

verus! {

/// How the chunks of an archive are compressed.
#[derive(Debug, Clone, Copy, PartialEq, Eq, Structural)]
pub struct DzEncoderOptions {
    pub settings: RangeSettings,
    /// An upper limit on the memory estimate; negative for none.
    pub max_mem_usage: i32,
    pub use_combuf: bool,
    pub preprocess: bool,
    pub trim_reference_factor: i32,
    /// The longest part of the common buffer that one reference stands for.
    pub max_common_match: usize,
}

impl Default for DzEncoderOptions {
    fn default() -> (options: DzEncoderOptions)
        ensures
            options.max_mem_usage == -1,
            !options.use_combuf,
            options.preprocess,
            options.trim_reference_factor == 20,
            options.max_common_match == usize::MAX,
            options.settings == RangeSettings::usual(),
            options.settings.valid(),
            options.settings.lively(),
            options.settings.reference_fault() is None,
    {
        proof {
            vstd::arithmetic::power2::lemma2_to64();
        }
        DzEncoderOptions {
            settings: RangeSettings::default(),
            max_mem_usage: -1,
            use_combuf: false,
            preprocess: true,
            trim_reference_factor: 20,
            max_common_match: usize::MAX,
        }
    }
}

/// Compressed chunks and the common buffer that they refer to.
#[derive(Debug)]
pub struct EncodedDzArchive {
    pub chunks: Vec<Vec<u8>>,
    pub common_buffer: Option<Vec<u8>>,
}

/// Counts the symbols of a part of the common buffer: of the input before `boundary`, of a literal
/// behind it, and of an end.
fn analyze_common_segment(
    input: &[u8],
    boundary: usize,
    allow_position_zero: bool,
    trailing_literal: Option<u8>,
    settings: RangeSettings,
    frequencies: &mut CommonFrequencies,
) -> (result: Result<(), DzFault>)
    requires
        boundary <= input@.len(),
        old(frequencies).counts.fits(settings, TOP_SYMBOLS as nat),
    ensures
        result is Ok,
        final(frequencies).counts.fits(settings, TOP_SYMBOLS as nat),
        forall|closed: bool|
            final(frequencies).counts.counts() == #[trigger] segment_counted(
                Piece {
                    input: input@,
                    end: boundary as int,
                    first: allow_position_zero,
                    literal: trailing_literal,
                    closed,
                },
                settings,
                old(frequencies).counts.counts(),
            ),
{
    let ghost piece = Piece {
        input: input@,
        end: boundary as int,
        first: allow_position_zero,
        literal: trailing_literal,
        closed: true,
    };
    let ghost chunk = segment_chunk(piece, Set::empty());
    let mut recent: [usize; 4] = [0;4];
    let window: usize = window_size(settings.win_size);
    let mut parser = if allow_position_zero {
        LazyLzParser::new_common(window, input)
    } else {
        LazyLzParser::new(window, input)
    };
    let size: usize = boundary;
    let mut position: usize = 0;
    let ghost whole = counted(
        chunk,
        settings,
        frequencies.counts.counts(),
        no_recent(),
        start(),
    );
    assert(recent@ =~= no_recent());
    while position < size
        invariant
            chunk == segment_chunk(piece, Set::empty()),
            piece.input == input@,
            piece.end == size,
            piece.first == allow_position_zero,
            whole == counted(
                chunk,
                settings,
                old(frequencies).counts.counts(),
                no_recent(),
                start(),
            ),
            whole == counted(
                chunk,
                settings,
                frequencies.counts.counts(),
                recent@,
                Cursor { position: position as int, reference: 0, boundary: 0 },
            ),
            forall|b: int| #[trigger] 
                parser.reach(b) == local_reach(allow_position_zero, Set::empty(), settings, b),
            size <= input@.len(),
            position <= size,
            parser.follows(input@),
            parser.place() == position,
            frequencies.counts.fits(settings, TOP_SYMBOLS as nat),
        decreases size - position,
    {
        let ghost before = frequencies.counts.counts();
        let cost = MatchCost {
            scoring: MatchScoring::Heuristic,
            recent_offsets: &recent,
            bits: settings.offset_table_size,
            contexts: settings.offset_contexts as usize,
        };
        match parser.next_bounded(input, size, cost) {
            None => {
                position = size;
            },
            Some(LzDecision::Literal { position: place }) => {
                match frequencies.record_top(input[place] as usize) {
                    Ok(()) => {},
                    Err(fault) => return Err(fault),
                }
                assert(frequencies.counts.counts() =~= top_counted(
                    before,
                    input@[place as int] as int,
                ));
                position = place + 1;
            },
            Some(LzDecision::Match { length, distance }) => {
                match record_match(frequencies, &mut recent, settings, length, distance) {
                    Ok(()) => {},
                    Err(fault) => return Err(fault),
                }
                position = position + length;
            },
        }
    }
    if let Some(byte) = trailing_literal {
        let ghost before = frequencies.counts.counts();
        match frequencies.record_top(byte as usize) {
            Ok(()) => {},
            Err(fault) => return Err(fault),
        }
        assert(frequencies.counts.counts() =~= top_counted(before, byte as int));
    }
    let ghost before = frequencies.counts.counts();
    match frequencies.record_top(END_SYMBOL) {
        Ok(()) => {},
        Err(fault) => return Err(fault),
    }
    assert(frequencies.counts.counts() =~= top_counted(before, END_SYMBOL as int));
    assert forall|closed: bool| #[trigger] segment_counted(
        Piece { closed, ..piece },
        settings,
        old(frequencies).counts.counts(),
    ) == segment_counted(piece, settings, old(frequencies).counts.counts()) by {
        assert(segment_chunk(Piece { closed, ..piece }, Set::empty()) == chunk);
    }
    Ok(())
}

/// Counts a local match.
fn record_match(
    frequencies: &mut CommonFrequencies,
    recent: &mut [usize; 4],
    settings: RangeSettings,
    length: usize,
    distance: usize,
) -> (result: Result<(), DzFault>)
    requires
        old(frequencies).counts.fits(settings, TOP_SYMBOLS as nat),
        settings.offset_table_size >= 2,
        MIN_MATCH <= length <= MAX_MATCH,
        distance + 3 <= usize::MAX,
    ensures
        result is Ok,
        final(frequencies).counts.fits(settings, TOP_SYMBOLS as nat),
        final(frequencies).counts.counts() == match_counted(
            old(frequencies).counts.counts(),
            old(recent)@,
            settings,
            length as int,
            distance,
        ),
        final(recent)@ == recent_after(distance, old(recent)@),
{
    match frequencies.record_top(length + 254) {
        Ok(()) => {},
        Err(fault) => return Err(fault),
    }
    let code: usize = crate::codecs::dz::encoding::encode_recent_distance(distance, recent);
    let count: usize = frequencies.counts.offsets.len();
    let context: usize = if length - MIN_MATCH < count - 1 {
        length - MIN_MATCH
    } else {
        count - 1
    };
    let ghost before = frequencies.counts.offsets@;
    proof {
        assert(counters(
            tables_of(before[context as int]@),
            pow2(settings.offset_table_size as nat),
        ));
        lemma_count_digits(
            tables_of(before[context as int]@),
            settings.offset_table_size,
            0,
            code as int,
        );
    }
    match frequencies.record_grouped(context, settings.offset_table_size, code) {
        Ok(()) => {},
        Err(fault) => return Err(fault),
    }
    proof {
        assert forall|c: int| 0 <= c < frequencies.counts.offsets@.len() implies {
            &&& (#[trigger] frequencies.counts.offsets@[c])@.len() == settings.offset_tables
            &&& counters(
                tables_of(frequencies.counts.offsets@[c]@),
                pow2(settings.offset_table_size as nat),
            )
        } by {
            assert(before[c]@.len() == settings.offset_tables);
        }
        assert(frequencies.counts.counts() =~= match_counted(
            old(frequencies).counts.counts(),
            old(recent)@,
            settings,
            length as int,
            distance,
        ));
    }
    Ok(())
}

proof fn lemma_normalized_tables(tables: Seq<Seq<u64>>, n: nat, symbols: nat)
    requires
        n <= tables.len(),
        counters(tables, symbols),
    ensures
        normalized_tables(tables, n).len() == n * symbols,
    decreases n,
{
    if n > 0 {
        lemma_normalized_tables(tables, (n - 1) as nat, symbols);
        assert(tables[n - 1].len() == symbols);
        assert((n - 1) * symbols + symbols == n * symbols) by (nonlinear_arith);
    } else {
        assert(0 * symbols == 0) by (nonlinear_arith);
    }
}

proof fn lemma_normalized_contexts(
    offsets: Seq<Seq<Seq<u64>>>,
    n: nat,
    count: nat,
    symbols: nat,
)
    requires
        n <= offsets.len(),
        forall|c: int|
            0 <= c < offsets.len() ==> {
                &&& (#[trigger] offsets[c]).len() == count
                &&& counters(offsets[c], symbols)
            },
    ensures
        normalized_contexts(offsets, n).len() == n * count * symbols,
    decreases n,
{
    if n > 0 {
        lemma_normalized_contexts(offsets, (n - 1) as nat, count, symbols);
        assert(offsets[n - 1].len() == count);
        lemma_normalized_tables(offsets[n - 1], count, symbols);
        assert((n - 1) * count * symbols + count * symbols == n * count * symbols)
            by (nonlinear_arith);
    } else {
        assert(0 * count * symbols == 0) by (nonlinear_arith);
    }
}

/// How the segments are written.
pub open spec fn pieces_of(segments: Seq<CommonSegment>) -> Seq<Piece> {
    Seq::new(segments.len(), |i: int| piece_of(segments[i]))
}

/// The segments end within what is in view.
pub open spec fn bounded(segments: Seq<CommonSegment>) -> bool {
    forall|i: int|
        0 <= i < segments.len() ==> (#[trigger] segments[i]).decision_len
            <= segments[i].lookahead@.len()
}

/// The segments stand for their bytes.
pub open spec fn true_to_bytes(segments: Seq<CommonSegment>) -> bool {
    forall|i: int|
        0 <= i < segments.len() ==> piece_bytes(piece_of(#[trigger] segments[i]))
            == segments[i].raw@
}

/// The frequency tables of the common buffer, and what symbols cost by them.
pub fn build_common_static_prefix(segments: &Vec<CommonSegment>, settings: RangeSettings) -> (result:
    Result<(Vec<u8>, DzFixedCosts), DzFault>)
    requires
        settings.valid(),
        settings.has_static_tables(),
        bounded(segments@),
    ensures
        result matches Ok((prefix, costs)) && {
            let counts = segments_counted(pieces_of(segments@), settings, segments@.len());
            &&& prefix@.len() == settings.prefix_size()
            &&& prefix@ == normalized_counts(counts)
            &&& costs.top@ == symbol_costs(counts.top)
            &&& contexts_of(costs.offsets@) == offset_costs_of(counts.offsets)
        },
{
    let ghost parts = pieces_of(segments@);
    let mut frequencies = CommonFrequencies::new(settings);
    let mut i: usize = 0;
    while i < segments.len()
        invariant
            i <= segments@.len(),
            frequencies.counts.fits(settings, TOP_SYMBOLS as nat),
            parts == pieces_of(segments@),
            bounded(segments@),
            frequencies.counts.counts() == segments_counted(parts, settings, i as nat),
        decreases segments@.len() - i,
    {
        let segment = &segments[i];
        assert(parts[i as int] == piece_of(segments@[i as int]));
        match analyze_common_segment(
            segment.lookahead.as_slice(),
            segment.decision_len,
            segment.allow_position_zero,
            segment.trailing_literal,
            settings,
            &mut frequencies,
        ) {
            Ok(()) => {},
            Err(fault) => return Err(fault),
        }
        i += 1;
    }
    let prefix = frequencies.normalized_prefix();
    proof {
        lemma_normalized_contexts(
            frequencies.counts.counts().offsets,
            frequencies.counts.offsets@.len(),
            settings.offset_tables as nat,
            pow2(settings.offset_table_size as nat),
        );
    }
    let costs = frequencies.fixed_costs();
    proof {
        let counts = frequencies.counts.counts();
        assert forall|c: int| 0 <= c < costs.offsets@.len() implies #[trigger] contexts_of(
            costs.offsets@,
        )[c] =~= offset_costs_of(counts.offsets)[c] by {
            assert(row_costs(costs.offsets@[c]@, frequencies.counts.offsets@[c]@));
        }
        assert(contexts_of(costs.offsets@) =~= offset_costs_of(counts.offsets));
    }
    Ok((prefix, costs))
}

/// The size of the first `n` inputs together.
pub open spec fn total_size(inputs: Seq<Seq<u8>>, n: nat) -> int
    decreases n,
{
    if n == 0 {
        0
    } else {
        total_size(inputs, (n - 1) as nat) + inputs[n - 1].len()
    }
}

/// What each input adds to the memory estimate.
pub const MEMORY_PER_CHUNK: usize = 0x4_0000;

/// The most chunks that an archive can hold.
pub const MAX_CHUNKS: usize = 0x8000;

/// The memory that compression is estimated to take.
pub open spec fn memory_estimate(inputs: Seq<Seq<u8>>) -> int {
    inputs.len() * MEMORY_PER_CHUNK + 2 * total_size(inputs, inputs.len())
}

/// What stands in the way of compressing the inputs.
pub open spec fn request_fault(inputs: Seq<Seq<u8>>, options: DzEncoderOptions) -> Option<DzFault> {
    if !options.settings.valid() {
        Some(DzFault::InvalidSettings)
    } else if inputs.len() > MAX_CHUNKS {
        Some(DzFault::TooManyChunks)
    } else if options.max_mem_usage >= 0 && total_size(inputs, inputs.len()) > usize::MAX {
        Some(DzFault::InputSizeOverflow)
    } else if options.max_mem_usage >= 0 && memory_estimate(inputs) > usize::MAX {
        Some(DzFault::MemoryEstimateOverflow)
    } else if options.max_mem_usage >= 0 && memory_estimate(inputs) > options.max_mem_usage {
        Some(
            DzFault::MemoryLimit {
                limit: options.max_mem_usage as usize,
                required: memory_estimate(inputs) as usize,
            },
        )
    } else if options.use_combuf {
        options.settings.reference_fault()
    } else {
        None
    }
}

/// How references leave recent ends, by the trimming option.
pub open spec fn update_of(options: DzEncoderOptions) -> ReferenceBaseUpdate {
    if options.trim_reference_factor == 0 {
        ReferenceBaseUpdate::Zero
    } else {
        ReferenceBaseUpdate::CompressedEndpoint
    }
}

/// The chunks decode to the inputs.
pub open spec fn chunks_decode(
    chunks: Seq<Vec<u8>>,
    inputs: Seq<Seq<u8>>,
    settings: RangeSettings,
    common: Option<Common>,
    update: ReferenceBaseUpdate,
) -> bool {
    &&& chunks.len() == inputs.len()
    &&& forall|i: int|
        0 <= i < chunks.len() ==> unchunk(
            (#[trigger] chunks[i])@,
            inputs[i].len() as int,
            settings,
            common,
            update,
        ) == Ok::<Seq<u8>, DzFault>(inputs[i])
}

/// The common buffer of an encoded archive.
pub open spec fn common_of(encoded: EncodedDzArchive, settings: RangeSettings) -> Option<Common> {
    match encoded.common_buffer {
        None => None,
        Some(bytes) => Some(Common { settings, chunks: seq![bytes@] }),
    }
}

/// The result is as told.
pub open spec fn as_streamed(
    result: Result<EncodedDzArchive, DzFault>,
    streams: Result<Streams, DzFault>,
) -> bool {
    match streams {
        Ok(streams) => result matches Ok(encoded) && streams_of(encoded) == streams,
        Err(fault) => result == Err::<EncodedDzArchive, DzFault>(fault),
    }
}

/// The streams of an encoded archive.
pub open spec fn streams_of(encoded: EncodedDzArchive) -> Streams {
    Streams {
        chunks: contents(encoded.chunks@),
        common: match encoded.common_buffer {
            None => None,
            Some(bytes) => Some(bytes@),
        },
    }
}

/// The streams that the inputs are compressed to.
pub open spec fn archive_streams(inputs: Seq<Seq<u8>>, options: DzEncoderOptions) -> Result<
    Streams,
    DzFault,
> {
    if options.use_combuf {
        shared_streams(
            inputs,
            options.settings,
            options.preprocess,
            options.max_common_match as int,
            update_of(options),
        )
    } else {
        match plain_streams(inputs, options.settings, false, 0, Seq::empty()) {
            Err(fault) => Err(fault),
            Ok(chunks) => Ok(Streams { chunks, common: None }),
        }
    }
}

/// The archive decodes to the inputs.
pub open spec fn archive_decodes(
    encoded: EncodedDzArchive,
    inputs: Seq<Seq<u8>>,
    options: DzEncoderOptions,
) -> bool {
    let common = common_of(encoded, options.settings);
    &&& options.use_combuf == (common is Some)
    &&& common is Some ==> common_fault(common->Some_0) is None
    &&& chunks_decode(encoded.chunks@, inputs, options.settings, common, update_of(options))
}

/// The memory limit is kept.
fn check_memory(inputs: &[&[u8]], limit: i32) -> (result: Result<(), DzFault>)
    requires
        inputs@.len() <= MAX_CHUNKS,
    ensures
        ({
            let all = files(inputs@);
            result == (if limit >= 0 && total_size(all, all.len()) > usize::MAX {
                Err(DzFault::InputSizeOverflow)
            } else if limit >= 0 && memory_estimate(all) > usize::MAX {
                Err(DzFault::MemoryEstimateOverflow)
            } else if limit >= 0 && memory_estimate(all) > limit {
                Err(
                    DzFault::MemoryLimit {
                        limit: limit as usize,
                        required: memory_estimate(all) as usize,
                    },
                )
            } else {
                Ok(())
            })
        }),
{
    if limit < 0 {
        return Ok(());
    }
    let ghost all = files(inputs@);
    let mut total: usize = 0;
    let mut i: usize = 0;
    while i < inputs.len()
        invariant
            i <= inputs@.len(),
            all == files(inputs@),
            total == total_size(all, i as nat),
            limit >= 0,
        decreases inputs@.len() - i,
    {
        assert(all[i as int] == inputs@[i as int]@);
        let size: usize = inputs[i].len();
        if size > usize::MAX - total {
            proof {
                lemma_total_grows(all, (i + 1) as nat, all.len());
            }
            return Err(DzFault::InputSizeOverflow);
        }
        total = total + size;
        i += 1;
    }
    let count: usize = inputs.len();
    let base: usize = match count.checked_mul(MEMORY_PER_CHUNK) {
        Some(base) => base,
        None => return Err(DzFault::MemoryEstimateOverflow),
    };
    let data: usize = match total.checked_mul(2) {
        Some(data) => data,
        None => return Err(DzFault::MemoryEstimateOverflow),
    };
    let required: usize = match base.checked_add(data) {
        Some(required) => required,
        None => return Err(DzFault::MemoryEstimateOverflow),
    };
    if required > limit as usize {
        return Err(DzFault::MemoryLimit { limit: limit as usize, required });
    }
    Ok(())
}

proof fn lemma_total_grows(inputs: Seq<Seq<u8>>, a: nat, b: nat)
    requires
        a <= b,
    ensures
        total_size(inputs, a) <= total_size(inputs, b),
    decreases b,
{
    if a < b {
        lemma_total_grows(inputs, a, (b - 1) as nat);
    }
}

/// Compresses inputs that share nothing.
#[verifier::rlimit(40)]
fn compress_plain(inputs: &[&[u8]], settings: RangeSettings, has_combuf: bool, Ghost(common): Ghost<
    Option<Common>,
>, Ghost(update): Ghost<ReferenceBaseUpdate>) -> (result: Result<Vec<Vec<u8>>, DzFault>)
    requires
        settings.valid(),
        has_combuf == (common is Some),
    ensures
        match plain_streams(files(inputs@), settings, has_combuf, 0, Seq::empty()) {
            Ok(streams) => result matches Ok(chunks) && contents(chunks@) == streams,
            Err(fault) => result == Err::<Vec<Vec<u8>>, DzFault>(fault),
        },
        match result {
            Ok(chunks) => chunks_decode(chunks@, files(inputs@), settings, common, update),
            Err(fault) => fault == DzFault::Collapsed && !settings.lively(),
        },
{
    let none: [ResolvedReference; 0] = [];
    let ends: [usize; 0] = [];
    let ghost all = files(inputs@);
    let mut chunks: Vec<Vec<u8>> = Vec::with_capacity(inputs.len());
    let mut i: usize = 0;
    let ghost whole = plain_streams(all, settings, has_combuf, 0, Seq::empty());
    proof {
        assert(none@ =~= Seq::empty());
        assert(ends@ =~= Seq::empty());
        assert(contents(chunks@) =~= Seq::empty());
    }
    while i < inputs.len()
        invariant
            i <= inputs@.len(),
            settings.valid(),
            has_combuf == (common is Some),
            none@ == Seq::<ResolvedReference>::empty(),
            ends@ == Seq::<usize>::empty(),
            whole == plain_streams(all, settings, has_combuf, 0, Seq::empty()),
            whole == plain_streams(all, settings, has_combuf, i as int, contents(chunks@)),
            all == files(inputs@),
            chunks@.len() == i,
            forall|k: int|
                0 <= k < i ==> unchunk(
                    (#[trigger] chunks@[k])@,
                    all[k].len() as int,
                    settings,
                    common,
                    update,
                ) == Ok::<Seq<u8>, DzFault>(all[k]),
        decreases inputs@.len() - i,
    {
        assert(all[i as int] == inputs@[i as int]@);
        match compress_chunk_with_references(
            inputs[i],
            settings,
            has_combuf,
            none.as_slice(),
            ends.as_slice(),
            Ghost(common),
            Ghost(update),
        ) {
            Ok(chunk) => {
                let ghost before = chunks@;
                chunks.push(chunk);
                assert(contents(chunks@) =~= contents(before).push(chunk@));
            },
            Err(fault) => return Err(fault),
        }
        i += 1;
    }
    Ok(chunks)
}

/// What a value does to a list, given that it belongs behind the first `at` values.
proof fn lemma_inserted(list: Seq<usize>, value: usize, at: int)
    requires
        0 <= at <= list.len(),
        forall|i: int| at <= i < list.len() ==> #[trigger] list[i] > value,
        at > 0 ==> list[at - 1] <= value,
    ensures
        inserted(list, value) == (if at > 0 && list[at - 1] == value {
            list.take(at)
        } else {
            list.take(at).push(value)
        }) + list.skip(at),
    decreases list.len(),
{
    if at < list.len() {
        let shorter = list.drop_last();
        lemma_inserted(shorter, value, at);
        assert(list.skip(at) =~= shorter.skip(at).push(list.last()));
        assert(list.take(at) =~= shorter.take(at));
        assert(inserted(list, value) =~= (if at > 0 && list[at - 1] == value {
            list.take(at)
        } else {
            list.take(at).push(value)
        }) + list.skip(at));
    } else {
        assert(list.take(at) =~= list);
        assert(list.skip(at) =~= Seq::empty());
        assert(list.take(at) + list.skip(at) =~= list);
        assert(list.push(value) + list.skip(at) =~= list.push(value));
    }
}

/// Keeps a list in order, without doubles.
fn insert_sorted(list: &mut Vec<usize>, value: usize)
    requires
        forall|i: int, j: int| 0 <= i < j < old(list)@.len() ==> old(list)@[i] < old(list)@[j],
    ensures
        forall|i: int, j: int|
            0 <= i < j < final(list)@.len() ==> final(list)@[i] < final(list)@[j],
        final(list)@ == inserted(old(list)@, value),
        forall|x: usize| #[trigger]
            final(list)@.contains(x) <==> old(list)@.contains(x) || x == value,
{
    let mut at: usize = list.len();
    while at > 0 && list[at - 1] > value
        invariant
            at <= list@.len(),
            list@ == old(list)@,
            forall|i: int| at <= i < list@.len() ==> #[trigger] list@[i] > value,
        decreases at,
    {
        at -= 1;
    }
    let ghost before = list@;
    if at > 0 && list[at - 1] == value {
        proof {
            assert(before[at - 1] == value);
            lemma_inserted(before, value, at as int);
            assert(before.take(at as int) + before.skip(at as int) =~= before);
        }
        return;
    }
    list.insert(at, value);
    proof {
        let after = list@;
        assert(after == before.insert(at as int, value));
        lemma_inserted(before, value, at as int);
        assert(before.take(at as int).push(value) + before.skip(at as int) =~= after);
        assert forall|i: int, j: int| 0 <= i < j < after.len() implies after[i] < after[j] by {
            if at > 0 && i < at && j >= at {
                assert(before[i] <= before[at - 1]);
            }
        }
        assert forall|x: usize| #[trigger] after.contains(x) <==> before.contains(x) || x
            == value by {
            if before.contains(x) {
                let k = choose|k: int| 0 <= k < before.len() && before[k] == x;
                if k < at {
                    assert(after[k] == x);
                } else {
                    assert(after[k + 1] == x);
                }
            }
            if x == value {
                assert(after[at as int] == x);
            }
            if after.contains(x) && x != value {
                let k = choose|k: int| 0 <= k < after.len() && after[k] == x;
                if k < at {
                    assert(before[k] == x);
                } else {
                    assert(before[k - 1] == x);
                }
            }
        }
    }
}

/// The same bytes once more.
fn copied(bytes: &Vec<u8>) -> (copy: Vec<u8>)
    ensures
        copy@ == bytes@,
{
    let mut copy: Vec<u8> = Vec::with_capacity(bytes.len());
    copy.extend_from_slice(bytes.as_slice());
    assert(copy@ =~= bytes@);
    copy
}

/// The two byte strings are the same.
fn same_bytes(a: &[u8], b: &[u8]) -> (same: bool)
    ensures
        same == (a@ == b@),
{
    if a.len() != b.len() {
        return false;
    }
    let mut i: usize = 0;
    while i < a.len()
        invariant
            i <= a@.len(),
            a@.len() == b@.len(),
            forall|k: int| 0 <= k < i ==> #[trigger] a@[k] == b@[k],
        decreases a@.len() - i,
    {
        if a[i] != b[i] {
            return false;
        }
        i += 1;
    }
    assert(a@ =~= b@);
    true
}

/// Where the segments begin in the common buffer.
spec fn targets_of(segments: Seq<CommonSegment>) -> Seq<usize> {
    Seq::new(segments.len(), |i: int| segments[i].target)
}

/// All segments can be read from the common buffer.
spec fn all_read_back(segments: Seq<CommonSegment>, common: Common) -> bool {
    forall|i: int|
        0 <= i < segments.len() ==> reads_back(
            common,
            (#[trigger] segments[i]).target,
            segments[i].raw@,
        )
}

/// The segments name the same parts.
spec fn same_parts(before: Seq<CommonSegment>, after: Seq<CommonSegment>) -> bool {
    &&& after.len() == before.len()
    &&& forall|i: int|
        0 <= i < after.len() ==> (#[trigger] after[i]).raw == before[i].raw && piece_of(after[i])
            == piece_of(before[i]) && after[i].source_file == before[i].source_file
            && after[i].source_position == before[i].source_position
}

/// Writes the segments one behind the other, and notes where each begins.
#[verifier::rlimit(40)]
fn write_segments(segments: &mut Vec<CommonSegment>, settings: RangeSettings) -> (result: Result<
    Vec<u8>,
    DzFault,
>)
    requires
        settings.valid(),
        settings.has_static_tables(),
        bounded(old(segments)@),
        true_to_bytes(old(segments)@),
    ensures
        same_parts(old(segments)@, final(segments)@),
        match common_written(pieces_of(old(segments)@), settings) {
            Ok(written) => {
                &&& result matches Ok(bytes) && bytes@ == written.bytes && all_read_back(
                    final(segments)@,
                    Common { settings, chunks: seq![bytes@] },
                )
                &&& targets_of(final(segments)@) == written.targets
            },
            Err(fault) => result == Err::<Vec<u8>, DzFault>(fault),
        },
{
    let ghost pieces = pieces_of(segments@);
    let ghost counts = segments_counted(pieces, settings, pieces.len());
    let (prefix, costs) = match build_common_static_prefix(segments, settings) {
        Ok(built) => built,
        Err(fault) => return Err(fault),
    };
    let initial = match CommonModels::from_static_prefix(prefix.as_slice(), settings) {
        Ok(initial) => initial,
        Err(fault) => return Err(fault),
    };
    proof {
        lemma_common_tables_fit(settings, prefix@);
        assert(prefix@.take(settings.prefix_size()) =~= prefix@);
        vstd::arithmetic::power2::lemma_pow2_pos(settings.offset_table_size as nat);
        assert(settings.offset_contexts * settings.offset_tables * pow2(
            settings.offset_table_size as nat,
        ) >= 0) by (nonlinear_arith);
    }
    let prefix_size: usize = prefix.len();
    let ghost head = prefix@;
    let mut bytes = prefix;
    bytes.push(0x7f);
    let ghost whole = common_written(pieces, settings);
    let ghost prices = costs_by(counts);
    let mut stale: BTreeSet<u32> = BTreeSet::new();
    let mut i: usize = 0;
    assert(targets_of(segments@).take(0) =~= Seq::empty());
    assert(bytes@.take(settings.prefix_size()) =~= head);
    while i < segments.len()
        invariant
            i <= segments@.len(),
            settings.valid(),
            prefix_size == settings.prefix_size(),
            prefix_size < bytes@.len(),
            bytes@.take(prefix_size as int) == head,
            head.len() == prefix_size,
            tables_fit(initial@, settings),
            initial@ == recorded_tables(head, settings),
            prices == costs_in(costs),
            prices == costs_by(counts),
            same_parts(old(segments)@, segments@),
            pieces == pieces_of(old(segments)@),
            bounded(old(segments)@),
            stale@ == stale_before(pieces, i as nat),
            whole == common_written(pieces, settings),
            whole == written(
                pieces,
                settings,
                prices,
                initial@,
                i as int,
                Written { bytes: bytes@, targets: targets_of(segments@).take(i as int) },
            ),
            forall|k: int|
                0 <= k < i ==> placed(
                    settings,
                    prices,
                    initial@,
                    bytes@,
                    (#[trigger] segments@[k]).target,
                    pieces[k],
                    stale_before(pieces, k as nat),
                ),
        decreases segments@.len() - i,
    {
        assert(pieces[i as int] == piece_of(segments@[i as int]));
        assert(old(segments)@[i as int].decision_len == pieces[i as int].end);
        let encoded = match compress_common_segment(
            segments[i].lookahead.as_slice(),
            segments[i].decision_len,
            segments[i].allow_position_zero,
            &mut stale,
            segments[i].emit_end,
            segments[i].trailing_literal,
            settings,
            initial.duplicate(),
            &costs,
        ) {
            Ok(encoded) => encoded,
            Err(fault) => return Err(fault),
        };
        let ghost before = bytes@;
        let ghost earlier = segments@;
        let target: usize = bytes.len() - prefix_size;
        bytes.extend_from_slice(encoded.as_slice());
        segments[i].target = target;
        segments[i].encoded = encoded;
        proof {
            assert(bytes@ =~= before + encoded@);
            assert(bytes@.take(prefix_size as int) =~= before.take(prefix_size as int));
            assert(targets_of(segments@).take(i + 1) =~= targets_of(earlier).take(i as int).push(
                target,
            ));
            assert forall|k: int| 0 <= k < i + 1 implies placed(
                settings,
                prices,
                initial@,
                bytes@,
                (#[trigger] segments@[k]).target,
                pieces[k],
                stale_before(pieces, k as nat),
            ) by {
                if k < i {
                    assert(segments@[k] == earlier[k]);
                    let from = prefix_size + earlier[k].target;
                    let size = segment_stream(
                        pieces[k],
                        stale_before(pieces, k as nat),
                        settings,
                        prices,
                        initial@,
                    )->Ok_0.len();
                    assert(bytes@.subrange(from, from + size) =~= before.subrange(
                        from,
                        from + size,
                    ));
                } else {
                    assert(bytes@.subrange(before.len() as int, bytes@.len() as int) =~= encoded@);
                }
            }
        }
        i += 1;
    }
    proof {
        assert(targets_of(segments@).take(i as int) =~= targets_of(segments@));
        assert(common_tables(settings, bytes@) == initial@);
        assert forall|k: int| 0 <= k < segments@.len() implies reads_back(
            Common { settings, chunks: seq![bytes@] },
            (#[trigger] segments@[k]).target,
            segments@[k].raw@,
        ) by {
            assert(pieces[k] == piece_of(segments@[k]));
            assert(piece_bytes(piece_of(old(segments)@[k])) == segments@[k].raw@);
            lemma_reads_back(
                settings,
                prices,
                bytes@,
                segments@[k].target,
                pieces[k],
                stale_before(pieces, k as nat),
            );
        }
    }
    Ok(bytes)
}

/// Makes sure that every segment can be read from the common buffer.
fn check_segments(segments: &Vec<CommonSegment>, buffer: &DzCommonBuffer) -> (result: Result<
    (),
    DzFault,
>)
    ensures
        all_read_back(segments@, buffer@) ==> result is Ok,
{
    let mut i: usize = 0;
    while i < segments.len()
        invariant
            i <= segments@.len(),
        decreases segments@.len() - i,
    {
        assert(all_read_back(segments@, buffer@) ==> reads_back(
            buffer@,
            segments@[i as int].target,
            segments@[i as int].raw@,
        ));
        let (decoded, _) = match buffer.decode_at(segments[i].target, segments[i].raw.len()) {
            Ok(decoded) => decoded,
            Err(fault) => return Err(fault),
        };
        if !same_bytes(decoded.as_slice(), segments[i].raw.as_slice()) {
            return Err(
                DzFault::SegmentValidation {
                    segment: i,
                    raw: segments[i].raw.len(),
                    encoded: segments[i].encoded.len(),
                },
            );
        }
        i += 1;
    }
    Ok(())
}

/// Resolves the references of one input.
#[verifier::rlimit(40)]
fn resolve_references(
    input: &[u8],
    file: usize,
    references: &Vec<CommonReference>,
    segments: &Vec<CommonSegment>,
    buffer: &DzCommonBuffer,
    settings: RangeSettings,
    trim_reference_factor: i32,
    Ghost(update): Ghost<ReferenceBaseUpdate>,
) -> (result: Result<Vec<ResolvedReference>, DzFault>)
    requires
        settings.reference_fault() is None,
        update == (if trim_reference_factor == 0 {
            ReferenceBaseUpdate::Zero
        } else {
            ReferenceBaseUpdate::CompressedEndpoint
        }),
        forall|i: int|
            0 <= i < references@.len() ==> (#[trigger] references@[i]).segment < segments@.len()
                && references@[i].length >= settings.big_min_match && references@[i].position
                + references@[i].length <= input@.len(),
        all_read_back(segments@, buffer@),
        forall|i: int|
            0 <= i < references@.len() ==> segments@[(#[trigger] references@[i]).segment as int].raw@
                == input@.subrange(
                references@[i].position as int,
                references@[i].position + references@[i].length,
            ),
    ensures
        match resolved_from(
            buffer@,
            references@,
            targets_of(segments@),
            update,
            0,
            Seq::empty(),
        ) {
            Ok(found) => result matches Ok(list) && list@ == found,
            Err(fault) => result == Err::<Vec<ResolvedReference>, DzFault>(fault),
        },
        result matches Ok(list) ==> all_resolved(
            input@,
            list@,
            settings,
            Some(buffer@),
            update,
        ),
{
    let mut list: Vec<ResolvedReference> = Vec::with_capacity(references.len());
    let size: usize = input.len();
    let mut i: usize = 0;
    let ghost targets = targets_of(segments@);
    let ghost whole = resolved_from(
        buffer@,
        references@,
        targets,
        update,
        0,
        Seq::empty(),
    );
    assert(list@ =~= Seq::empty());
    while i < references.len()
        invariant
            i <= references@.len(),
            targets == targets_of(segments@),
            whole == resolved_from(buffer@, references@, targets, update, 0, Seq::empty()),
            whole == resolved_from(buffer@, references@, targets, update, i as int, list@),
            all_read_back(segments@, buffer@),
            forall|k: int|
                0 <= k < references@.len() ==> segments@[(
                #[trigger] references@[k]).segment as int].raw@ == input@.subrange(
                    references@[k].position as int,
                    references@[k].position + references@[k].length,
                ),
            size == input@.len(),
            settings.reference_fault() is None,
            update == (if trim_reference_factor == 0 {
                ReferenceBaseUpdate::Zero
            } else {
                ReferenceBaseUpdate::CompressedEndpoint
            }),
            forall|k: int|
                0 <= k < references@.len() ==> (#[trigger] references@[k]).segment
                    < segments@.len() && references@[k].length >= settings.big_min_match
                    && references@[k].position + references@[k].length <= input@.len(),
            all_resolved(input@, list@, settings, Some(buffer@), update),
        decreases references@.len() - i,
    {
        let reference = references[i];
        let target: usize = segments[reference.segment].target;
        assert(targets[reference.segment as int] == target);
        assert(reads_back(
            buffer@,
            segments@[reference.segment as int].target,
            segments@[reference.segment as int].raw@,
        ));
        let (decoded, consumed) = match buffer.decode_at(target, reference.length) {
            Ok(decoded) => decoded,
            Err(fault) => return Err(fault),
        };
        let expected = vstd::slice::slice_subrange(
            input,
            reference.position,
            reference.position + reference.length,
        );
        if !same_bytes(decoded.as_slice(), expected) {
            return Err(
                DzFault::ReferenceValidation { file, position: reference.position },
            );
        }
        let next_base: usize = if trim_reference_factor == 0 {
            0
        } else {
            if consumed > usize::MAX - target {
                return Err(DzFault::EndpointOverflow);
            }
            target + consumed
        };
        if next_base as u64 > i64::MAX as u64 {
            return Err(DzFault::EndpointOverflow);
        }
        let found = ResolvedReference {
            position: reference.position,
            length: reference.length,
            target,
            next_base,
        };
        assert(resolved(input@, found, settings, Some(buffer@), update));
        list.push(found);
        i += 1;
    }
    Ok(list)
}

/// Compresses inputs whose references are resolved.
#[verifier::rlimit(40)]
fn compress_resolved(
    inputs: &[&[u8]],
    options: &DzEncoderOptions,
    segments: &Vec<CommonSegment>,
    references: &Vec<Vec<CommonReference>>,
    buffer: &DzCommonBuffer,
) -> (result: Result<Vec<Vec<u8>>, DzFault>)
    requires
        options.settings.valid(),
        options.settings.reference_fault() is None,
        references@.len() == inputs@.len(),
        forall|i: int|
            0 <= i < segments@.len() ==> (#[trigger] segments@[i]).source_file < inputs@.len(),
        forall|f: int, i: int|
            0 <= f < references@.len() && 0 <= i < references@[f]@.len() ==> {
                let reference = #[trigger] references@[f]@[i];
                &&& reference.segment < segments@.len()
                &&& reference.length >= options.settings.big_min_match
                &&& reference.position + reference.length <= inputs@[f]@.len()
                &&& segments@[reference.segment as int].raw@ == inputs@[f]@.subrange(
                    reference.position as int,
                    reference.position + reference.length,
                )
            },
        all_read_back(segments@, buffer@),
    ensures
        match linked_streams(
            files(inputs@),
            options.settings,
            update_of(*options),
            parts_of(segments@),
            uses_of(references@),
            buffer@,
            targets_of(segments@),
            0,
            Seq::empty(),
        ) {
            Ok(streams) => result matches Ok(chunks) && contents(chunks@) == streams,
            Err(fault) => result == Err::<Vec<Vec<u8>>, DzFault>(fault),
        },
        result matches Ok(chunks) ==> chunks_decode(
            chunks@,
            files(inputs@),
            options.settings,
            Some(buffer@),
            update_of(*options),
        ),
{
    let settings = options.settings;
    let ghost update = update_of(*options);
    let ghost all = files(inputs@);
    let mut chunks: Vec<Vec<u8>> = Vec::with_capacity(inputs.len());
    let mut file: usize = 0;
    let ghost parts = parts_of(segments@);
    let ghost uses = uses_of(references@);
    let ghost targets = targets_of(segments@);
    let ghost whole = linked_streams(
        all,
        settings,
        update,
        parts,
        uses,
        buffer@,
        targets,
        0,
        Seq::empty(),
    );
    assert(contents(chunks@) =~= Seq::empty());
    while file < inputs.len()
        invariant
            file <= inputs@.len(),
            parts == parts_of(segments@),
            uses == uses_of(references@),
            targets == targets_of(segments@),
            whole == linked_streams(
                all,
                settings,
                update,
                parts,
                uses,
                buffer@,
                targets,
                0,
                Seq::empty(),
            ),
            whole == linked_streams(
                all,
                settings,
                update,
                parts,
                uses,
                buffer@,
                targets,
                file as int,
                contents(chunks@),
            ),
            all_read_back(segments@, buffer@),
            settings == options.settings,
            update == update_of(*options),
            all == files(inputs@),
            settings.valid(),
            settings.reference_fault() is None,
            references@.len() == inputs@.len(),
            forall|f: int, i: int|
                0 <= f < references@.len() && 0 <= i < references@[f]@.len() ==> {
                    let reference = #[trigger] references@[f]@[i];
                    &&& reference.segment < segments@.len()
                    &&& reference.length >= options.settings.big_min_match
                    &&& reference.position + reference.length <= inputs@[f]@.len()
                    &&& segments@[reference.segment as int].raw@ == inputs@[f]@.subrange(
                        reference.position as int,
                        reference.position + reference.length,
                    )
                },
            chunks@.len() == file,
            forall|k: int|
                0 <= k < file ==> unchunk(
                    (#[trigger] chunks@[k])@,
                    all[k].len() as int,
                    settings,
                    Some(buffer@),
                    update,
                ) == Ok::<Seq<u8>, DzFault>(all[k]),
        decreases inputs@.len() - file,
    {
        assert(all[file as int] == inputs@[file as int]@);
        assert(uses[file as int] == references@[file as int]@);
        let resolved_list = match resolve_references(
            inputs[file],
            file,
            &references[file],
            segments,
            buffer,
            settings,
            options.trim_reference_factor,
            Ghost(update),
        ) {
            Ok(list) => list,
            Err(fault) => return Err(fault),
        };
        let boundaries = boundaries_of(segments, file);
        match compress_chunk_with_references(
            inputs[file],
            settings,
            true,
            resolved_list.as_slice(),
            boundaries.as_slice(),
            Ghost(Some(buffer@)),
            Ghost(update),
        ) {
            Ok(chunk) => {
                let ghost before = chunks@;
                chunks.push(chunk);
                assert(contents(chunks@) =~= contents(before).push(chunk@));
            },
            Err(fault) => return Err(fault),
        }
        file += 1;
    }
    Ok(chunks)
}

/// Where the segments of a file begin, in order.
fn boundaries_of(segments: &Vec<CommonSegment>, file: usize) -> (boundaries: Vec<usize>)
    ensures
        boundaries@ == boundaries_in(parts_of(segments@), file as int, segments@.len()),
        forall|i: int, j: int|
            0 <= i < j < boundaries@.len() ==> boundaries@[i] < boundaries@[j],
{
    let mut boundaries: Vec<usize> = Vec::new();
    let mut i: usize = 0;
    assert(boundaries@ =~= Seq::empty());
    while i < segments.len()
        invariant
            i <= segments@.len(),
            boundaries@ == boundaries_in(parts_of(segments@), file as int, i as nat),
            forall|i: int, j: int|
                0 <= i < j < boundaries@.len() ==> boundaries@[i] < boundaries@[j],
        decreases segments@.len() - i,
    {
        assert(parts_of(segments@)[i as int] == part_of(segments@[i as int]));
        if segments[i].source_file == file {
            insert_sorted(&mut boundaries, segments[i].source_position);
        }
        i += 1;
    }
    boundaries
}

/// Compresses inputs that share nothing, with an empty common buffer.
fn compress_unshared(inputs: &[&[u8]], options: &DzEncoderOptions) -> (result: Result<
    EncodedDzArchive,
    DzFault,
>)
    requires
        options.settings.valid(),
        options.use_combuf,
    ensures
        as_streamed(result, unshared_streams(files(inputs@), options.settings)),
        result matches Ok(encoded) ==> archive_decodes(encoded, files(inputs@), *options),
{
    let settings = options.settings;
    let common_bytes: Vec<u8> = Vec::new();
    let ghost common = Common { settings, chunks: seq![common_bytes@] };
    let chunks = match compress_plain(
        inputs,
        settings,
        true,
        Ghost(Some(common)),
        Ghost(update_of(*options)),
    ) {
        Ok(chunks) => chunks,
        Err(fault) => return Err(fault),
    };
    let encoded = EncodedDzArchive { chunks, common_buffer: Some(common_bytes) };
    proof {
        assert(common_of(encoded, settings) == Some(common));
        assert(payload_start(common, 0) == 0);
        assert(payload_start(common, 1) == 0);
        assert(chunk_fault(common, 1) is None);
        assert(common_bytes@ =~= Seq::empty());
    }
    Ok(encoded)
}

/// Compresses inputs that share the given segments.
#[verifier::rlimit(40)]
fn compress_segments(
    inputs: &[&[u8]],
    options: &DzEncoderOptions,
    segments: Vec<CommonSegment>,
    references: Vec<Vec<CommonReference>>,
) -> (result: Result<EncodedDzArchive, DzFault>)
    requires
        options.settings.valid(),
        options.use_combuf,
        options.settings.reference_fault() is None,
        references@.len() == inputs@.len(),
        forall|i: int|
            0 <= i < segments@.len() ==> segment_of(files(inputs@), #[trigger] segments@[i]),
        forall|f: int, i: int|
            0 <= f < references@.len() && 0 <= i < references@[f]@.len() ==> reference_of(
                inputs@[f]@,
                segments@,
                #[trigger] references@[f]@[i],
                options.settings.big_min_match as int,
                options.max_common_match as int,
            ),
    ensures
        as_streamed(
            result,
            streams_sharing(
                files(inputs@),
                options.settings,
                update_of(*options),
                parts_of(segments@),
                uses_of(references@),
            ),
        ),
        result matches Ok(encoded) ==> archive_decodes(encoded, files(inputs@), *options),
{
    let settings = options.settings;
    let ghost found = segments@;
    let mut segments = segments;
    let ghost all = files(inputs@);
    proof {
        assert forall|i: int| 0 <= i < found.len() implies #[trigger] pieces_of(found)[i]
            == part_piece(all, parts_of(found)[i]) by {
            assert(segment_of(all, found[i]));
            assert(parts_of(found)[i] == part_of(found[i]));
        }
        assert(pieces_of(found) =~= all_part_pieces(all, parts_of(found)));
        assert forall|i: int| 0 <= i < found.len() implies (#[trigger] found[i]).decision_len
            <= found[i].lookahead@.len() && piece_bytes(piece_of(found[i])) == found[i].raw@ by {
            assert(segment_of(all, found[i]));
            assert(found[i].raw.len() == found[i].raw@.len());
            assert(piece_bytes(piece_of(found[i])) =~= found[i].raw@);
        }
    }
    let common_bytes = match write_segments(&mut segments, settings) {
        Ok(bytes) => bytes,
        Err(fault) => return Err(fault),
    };
    let mut parts: Vec<Vec<u8>> = Vec::with_capacity(1);
    parts.push(copied(&common_bytes));
    assert(contents(parts@) =~= seq![common_bytes@]);
    let buffer = match DzCommonBuffer::build(settings, parts) {
        Ok(buffer) => buffer,
        Err(fault) => return Err(fault),
    };
    match check_segments(&segments, &buffer) {
        Ok(()) => {},
        Err(fault) => return Err(fault),
    }
    proof {
        assert(parts_of(segments@) =~= parts_of(found));
        assert forall|i: int| 0 <= i < segments@.len() implies (
        #[trigger] segments@[i]).source_file < inputs@.len() by {
            assert(segment_of(files(inputs@), found[i]));
        }
        assert forall|f: int, i: int|
            0 <= f < references@.len() && 0 <= i < references@[f]@.len() implies {
            let reference = #[trigger] references@[f]@[i];
            &&& reference.segment < segments@.len()
            &&& reference.length >= settings.big_min_match
            &&& reference.position + reference.length <= inputs@[f]@.len()
            &&& segments@[reference.segment as int].raw@ == inputs@[f]@.subrange(
                reference.position as int,
                reference.position + reference.length,
            )
        } by {
            assert(reference_of(
                inputs@[f]@,
                found,
                references@[f]@[i],
                settings.big_min_match as int,
                options.max_common_match as int,
            ));
        }
    }
    let chunks = match compress_resolved(inputs, options, &segments, &references, &buffer) {
        Ok(chunks) => chunks,
        Err(fault) => return Err(fault),
    };
    Ok(EncodedDzArchive { chunks, common_buffer: Some(common_bytes) })
}

/// Compresses inputs with a common buffer.
fn compress_shared(inputs: &[&[u8]], options: &DzEncoderOptions) -> (result: Result<
    EncodedDzArchive,
    DzFault,
>)
    requires
        options.settings.valid(),
        options.use_combuf,
        options.settings.reference_fault() is None,
    ensures
        as_streamed(
            result,
            shared_streams(
                files(inputs@),
                options.settings,
                options.preprocess,
                options.max_common_match as int,
                update_of(*options),
            ),
        ),
        result matches Ok(encoded) ==> archive_decodes(encoded, files(inputs@), *options),
{
    let (segments, references) = find_common_references(
        inputs,
        options.preprocess,
        options.settings.big_min_match as usize,
        options.max_common_match,
    );
    assert(parts_of(segments@).len() == segments@.len());
    if segments.len() == 0 {
        compress_unshared(inputs, options)
    } else {
        compress_segments(inputs, options, segments, references)
    }
}

/// Compresses the chunks of an archive.
fn encode_archive(inputs: &[&[u8]], options: &DzEncoderOptions) -> (result: Result<
    EncodedDzArchive,
    DzFault,
>)
    ensures
        match request_fault(files(inputs@), *options) {
            Some(fault) => result == Err::<EncodedDzArchive, DzFault>(fault),
            None => {
                &&& as_streamed(result, archive_streams(files(inputs@), *options))
                &&& match result {
                    Ok(encoded) => archive_decodes(encoded, files(inputs@), *options),
                    Err(fault) => !options.use_combuf ==> fault == DzFault::Collapsed
                        && !options.settings.lively(),
                }
            },
        },
{
    let settings = options.settings;
    if !settings.is_valid() {
        return Err(DzFault::InvalidSettings);
    }
    if inputs.len() > MAX_CHUNKS {
        return Err(DzFault::TooManyChunks);
    }
    match check_memory(inputs, options.max_mem_usage) {
        Ok(()) => {},
        Err(fault) => return Err(fault),
    }
    match validate_common_settings(settings, options.use_combuf) {
        Ok(()) => {},
        Err(fault) => return Err(fault),
    }
    if options.use_combuf {
        return compress_shared(inputs, options);
    }
    match compress_plain(inputs, settings, false, Ghost(None), Ghost(update_of(*options))) {
        Ok(chunks) => Ok(EncodedDzArchive { chunks, common_buffer: None }),
        Err(fault) => Err(fault),
    }
}

/// Compresses the chunks of an archive.
///
/// What decodes is what went in: each chunk under the rule for recent ends that belongs to the
/// trimming option. Without a common buffer, compression fails only where a distance alphabet
/// runs dry.
pub fn compress_archive_slices(inputs: &[&[u8]], options: &DzEncoderOptions) -> (result: Result<
    EncodedDzArchive,
    DzError,
>)
    ensures
        match request_fault(files(inputs@), *options) {
            Some(fault) => result matches Err(error) && error@ == fault.report(),
            None => {
                &&& match archive_streams(files(inputs@), *options) {
                    Ok(streams) => result matches Ok(encoded) && streams_of(encoded) == streams,
                    Err(fault) => result matches Err(error) && error@ == fault.report(),
                }
                &&& match result {
                    Ok(encoded) => archive_decodes(encoded, files(inputs@), *options),
                    Err(error) => !options.use_combuf ==> error@ == DzFault::Collapsed.report()
                        && !options.settings.lively(),
                }
            },
        },
{
    match encode_archive(inputs, options) {
        Ok(encoded) => Ok(encoded),
        Err(fault) => Err(fault.error()),
    }
}

/// Compresses the chunks of an archive.
pub fn compress_archive(inputs: &[Vec<u8>], options: &DzEncoderOptions) -> (result: Result<
    EncodedDzArchive,
    DzError,
>)
    ensures
        match request_fault(contents(inputs@), *options) {
            Some(fault) => result matches Err(error) && error@ == fault.report(),
            None => {
                &&& match archive_streams(contents(inputs@), *options) {
                    Ok(streams) => result matches Ok(encoded) && streams_of(encoded) == streams,
                    Err(fault) => result matches Err(error) && error@ == fault.report(),
                }
                &&& match result {
                    Ok(encoded) => archive_decodes(encoded, contents(inputs@), *options),
                    Err(error) => !options.use_combuf ==> error@ == DzFault::Collapsed.report()
                        && !options.settings.lively(),
                }
            },
        },
{
    let mut slices: Vec<&[u8]> = Vec::with_capacity(inputs.len());
    let mut i: usize = 0;
    while i < inputs.len()
        invariant
            i <= inputs@.len(),
            slices@.len() == i,
            forall|k: int| 0 <= k < i ==> (#[trigger] slices@[k])@ == inputs@[k]@,
        decreases inputs@.len() - i,
    {
        slices.push(inputs[i].as_slice());
        i += 1;
    }
    assert(files(slices@) =~= contents(inputs@));
    compress_archive_slices(slices.as_slice(), options)
}

} // verus!
