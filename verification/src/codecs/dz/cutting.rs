//! How a chunk is cut into tokens.

use vstd::arithmetic::power2::pow2;
use vstd::prelude::*;

use crate::codecs::dz::encoding::ResolvedReference;
use crate::codecs::dz::fault::DzFault;
use crate::codecs::dz::frequencies::{bumped, count_digits, no_counts, symbol_costs, Counts};
use crate::codecs::dz::matchfinder::{
    decided, keys_with, reach_of, window_of, Costs, Judge, Known, LzDecision, Reach,
};
use crate::codecs::dz::settings::{RangeSettings, TOP_SYMBOLS};
use crate::codecs::dz::stream::{
    distance_code, no_recent, recent_after, Tables, END_SYMBOL, MIN_MATCH,
};
use crate::codecs::dz::tokens::{
    common_stream, common_work, first_work, group_of, put_token, put_tokens, Token, Work,
};

verus! {

/// What comes next while a chunk is cut into tokens.
pub enum Event {
    /// A literal that starts a part of the common buffer.
    Boundary,
    /// The reference with the given number.
    Reference(usize),
    /// Local tokens up to the given position.
    Local(usize),
}

/// A chunk, where it ends in its input, the references that replace parts of it, the positions at
/// which parts of the common buffer start, whether matches may begin at the first byte, and the
/// keys of positions that are not looked ahead to.
pub struct Chunk {
    pub input: Seq<u8>,
    pub end: int,
    pub references: Seq<ResolvedReference>,
    pub boundaries: Seq<usize>,
    pub first: bool,
    pub stale: Set<u32>,
}

/// A part of the common buffer: its bytes and some that follow them, where it ends, whether
/// matches may begin at its first byte, a literal behind it, and whether an end is written.
#[verifier::ext_equal]
pub struct Piece {
    pub input: Seq<u8>,
    pub end: int,
    pub first: bool,
    pub literal: Option<u8>,
    pub closed: bool,
}

/// What a part of the common buffer stands for.
pub open spec fn piece_bytes(piece: Piece) -> Seq<u8> {
    match piece.literal {
        Some(byte) => piece.input.take(piece.end).push(byte),
        None => piece.input.take(piece.end),
    }
}

/// A part of the common buffer, by the keys that earlier parts left.
pub open spec fn segment_chunk(piece: Piece, stale: Set<u32>) -> Chunk {
    Chunk {
        input: piece.input,
        end: piece.end,
        references: Seq::empty(),
        boundaries: Seq::empty(),
        first: piece.first,
        stale,
    }
}

/// The keys after a part: those of its positions are added, the first one only where matches
/// may begin there.
pub open spec fn keys_after(piece: Piece, keys: Set<u32>) -> Set<u32> {
    keys_with(
        piece.input,
        if piece.first {
            0
        } else {
            1
        },
        piece.end,
        keys,
    )
}

/// The keys that the first `n` parts leave.
pub open spec fn stale_before(pieces: Seq<Piece>, n: nat) -> Set<u32>
    decreases n,
{
    if n == 0 {
        Set::empty()
    } else {
        keys_after(pieces[n - 1], stale_before(pieces, (n - 1) as nat))
    }
}

/// A position, and the numbers of the reference and the boundary that are looked at next.
pub struct Cursor {
    pub position: int,
    pub reference: int,
    pub boundary: int,
}

/// The first boundary from number `i` on that does not lie behind.
pub open spec fn boundary_from(boundaries: Seq<usize>, i: int, position: int) -> int
    decreases boundaries.len() - i,
{
    if 0 <= i < boundaries.len() && boundaries[i] < position {
        boundary_from(boundaries, i + 1, position)
    } else {
        i
    }
}

/// The first reference from number `i` on that does not lie behind.
pub open spec fn reference_from(references: Seq<ResolvedReference>, i: int, position: int) -> int
    decreases references.len() - i,
{
    if 0 <= i < references.len() && references[i].position < position {
        reference_from(references, i + 1, position)
    } else {
        i
    }
}

/// The same position, with what lies behind stepped over.
pub open spec fn stepped(chunk: Chunk, cursor: Cursor) -> Cursor {
    Cursor {
        position: cursor.position,
        reference: reference_from(chunk.references, cursor.reference, cursor.position),
        boundary: boundary_from(chunk.boundaries, cursor.boundary, cursor.position),
    }
}

/// What comes next. Local tokens end before the next boundary and the next reference.
pub open spec fn event_at(chunk: Chunk, cursor: Cursor) -> Event {
    let at = stepped(chunk, cursor);
    let p = at.position;
    let has_boundary = at.boundary < chunk.boundaries.len();
    let has_reference = at.reference < chunk.references.len();
    let size = chunk.end;
    let near = if has_boundary && p < chunk.boundaries[at.boundary] < size {
        chunk.boundaries[at.boundary] as int
    } else {
        size
    };
    if has_boundary && chunk.boundaries[at.boundary] == p {
        Event::Boundary
    } else if has_reference && chunk.references[at.reference].position == p {
        Event::Reference(at.reference as usize)
    } else if has_reference && p < chunk.references[at.reference].position < near {
        Event::Local(chunk.references[at.reference].position)
    } else {
        Event::Local(near as usize)
    }
}

/// Where local matches may lie.
pub open spec fn local_reach(
    first: bool,
    stale: Set<u32>,
    settings: RangeSettings,
    bound: int,
) -> Reach {
    Reach { bound, distance: reach_of(window_of(settings.win_size)), first, stale }
}

pub open spec fn top_counted(counts: Counts, symbol: int) -> Counts {
    Counts { top: bumped(counts.top, symbol), offsets: counts.offsets }
}

/// A local match is counted: its length and the groups of its distance code.
pub open spec fn match_counted(
    counts: Counts,
    recent: Seq<usize>,
    settings: RangeSettings,
    length: int,
    distance: usize,
) -> Counts {
    let context = if length - MIN_MATCH < counts.offsets.len() - 1 {
        length - MIN_MATCH
    } else {
        counts.offsets.len() - 1
    };
    let row = count_digits(
        counts.offsets[context],
        settings.offset_table_size,
        0,
        distance_code(distance, recent),
    );
    Counts {
        top: bumped(counts.top, length + 254),
        offsets: counts.offsets.update(context, row->Some_0),
    }
}

/// The symbol that a reference of the given length begins with.
pub open spec fn reference_symbol(settings: RangeSettings, length: int) -> int {
    TOP_SYMBOLS + group_of(
        length - settings.big_min_match,
        pow2((settings.ref_length_table_size - 1) as nat) as int,
    )
}

/// What occurs when the rest of a chunk is cut by the size of the numbers alone.
pub open spec fn counted(
    chunk: Chunk,
    settings: RangeSettings,
    counts: Counts,
    recent: Seq<usize>,
    cursor: Cursor,
) -> Counts
    decreases chunk.end - cursor.position,
{
    let at = stepped(chunk, cursor);
    let p = at.position;
    if !(0 <= p < chunk.end) {
        counts
    } else {
        match event_at(chunk, cursor) {
            Event::Boundary => counted(
                chunk,
                settings,
                top_counted(counts, chunk.input[p] as int),
                recent,
                Cursor { position: p + 1, ..at },
            ),
            Event::Reference(i) => {
                let length = chunk.references[i as int].length as int;
                if length <= 0 || p + length > chunk.end {
                    counts
                } else {
                    counted(
                        chunk,
                        settings,
                        top_counted(counts, reference_symbol(settings, length)),
                        recent,
                        Cursor { position: p + length, ..at },
                    )
                }
            },
            Event::Local(bound) => {
                let judge = Judge {
                    known: None,
                    recent,
                    bits: settings.offset_table_size,
                    contexts: settings.offset_contexts as int,
                };
                match decided(
                    chunk.input,
                    p,
                    local_reach(chunk.first, chunk.stale, settings, bound as int),
                    judge,
                ) {
                    Some(LzDecision::Match { length, distance }) if 0 < length <= chunk.end
                        - p => counted(
                        chunk,
                        settings,
                        match_counted(counts, recent, settings, length as int, distance),
                        recent_after(distance, recent),
                        Cursor { position: p + length, ..at },
                    ),
                    _ => counted(
                        chunk,
                        settings,
                        top_counted(counts, chunk.input[p] as int),
                        recent,
                        Cursor { position: p + 1, ..at },
                    ),
                }
            },
        }
    }
}

/// What the symbols of all contexts cost, by their counts.
pub open spec fn offset_costs_of(offsets: Seq<Seq<Seq<u64>>>) -> Seq<Seq<Seq<i32>>> {
    Seq::new(
        offsets.len(),
        |c: int| Seq::new(offsets[c].len(), |t: int| symbol_costs(offsets[c][t])),
    )
}

/// What symbols cost, by their counts.
pub open spec fn costs_by(counts: Counts) -> Costs {
    Costs { top: symbol_costs(counts.top), offsets: offset_costs_of(counts.offsets) }
}

/// The start of a chunk.
pub open spec fn start() -> Cursor {
    Cursor { position: 0, reference: 0, boundary: 0 }
}

/// What occurs in a chunk that is cut by the size of the numbers alone.
pub open spec fn all_counted(chunk: Chunk, settings: RangeSettings, has_combuf: bool) -> Counts {
    counted(chunk, settings, no_counts(settings, has_combuf), no_recent(), start())
}

/// The token of a reference.
pub open spec fn reference_token(reference: ResolvedReference) -> Token {
    Token::Reference {
        length: reference.length as int,
        target: reference.target as int,
        next: reference.next_base as i64,
    }
}

/// The next token of a chunk, by known costs and by the models as they are now.
pub open spec fn next_token(
    chunk: Chunk,
    settings: RangeSettings,
    costs: Costs,
    work: Work,
    cursor: Cursor,
) -> Token {
    let p = cursor.position;
    match event_at(chunk, cursor) {
        Event::Boundary => Token::Literal { byte: chunk.input[p] },
        Event::Reference(i) => reference_token(chunk.references[i as int]),
        Event::Local(bound) => {
            let judge = Judge {
                known: Some(
                    Known {
                        top: costs.top,
                        offsets: costs.offsets,
                        models: work.tables.offsets,
                    },
                ),
                recent: work.recent,
                bits: settings.offset_table_size,
                contexts: settings.offset_contexts as int,
            };
            match decided(
                chunk.input,
                p,
                local_reach(chunk.first, chunk.stale, settings, bound as int),
                judge,
            ) {
                Some(LzDecision::Match { length, distance }) => Token::Match {
                    length: length as int,
                    distance,
                },
                _ => Token::Literal { byte: chunk.input[p] },
            }
        },
    }
}

/// How many bytes a token stands for.
pub open spec fn token_length(token: Token) -> int {
    match token {
        Token::Literal { .. } => 1,
        Token::Match { length, .. } => length,
        Token::Reference { length, .. } => length,
    }
}

/// The tokens of the rest of a chunk; the last one may be one that cannot be written.
pub open spec fn cut(
    chunk: Chunk,
    settings: RangeSettings,
    costs: Costs,
    work: Work,
    cursor: Cursor,
) -> Seq<Token>
    decreases chunk.end - cursor.position,
{
    let at = stepped(chunk, cursor);
    if !(0 <= cursor.position < chunk.end) {
        seq![]
    } else {
        let token = next_token(chunk, settings, costs, work, cursor);
        match put_token(work, settings, token) {
            Ok(after) if 0 < token_length(token) <= chunk.end - cursor.position => seq![
                token,
            ] + cut(
                chunk,
                settings,
                costs,
                after,
                Cursor { position: at.position + token_length(token), ..at },
            ),
            _ => seq![token],
        }
    }
}

/// The tokens that a chunk is cut into: matches and literals by what their symbols cost, which
/// a first pass finds out.
pub open spec fn chunk_tokens(chunk: Chunk, settings: RangeSettings, has_combuf: bool) -> Seq<Token> {
    cut(
        chunk,
        settings,
        costs_by(all_counted(chunk, settings, has_combuf)),
        first_work(settings, has_combuf),
        start(),
    )
}

/// What occurs in a part of the common buffer, added to earlier counts. An end is counted for
/// every part.
pub open spec fn segment_counted(piece: Piece, settings: RangeSettings, counts: Counts) -> Counts {
    let body = counted(
        segment_chunk(piece, Set::empty()),
        settings,
        counts,
        no_recent(),
        start(),
    );
    top_counted(
        match piece.literal {
            Some(byte) => top_counted(body, byte as int),
            None => body,
        },
        END_SYMBOL as int,
    )
}

/// What occurs in the first `n` parts of the common buffer.
pub open spec fn segments_counted(pieces: Seq<Piece>, settings: RangeSettings, n: nat) -> Counts
    decreases n,
{
    if n == 0 {
        no_counts(settings, false)
    } else {
        segment_counted(
            pieces[n - 1],
            settings,
            segments_counted(pieces, settings, (n - 1) as nat),
        )
    }
}

/// The tokens of a part of the common buffer, by costs and tables that all parts share.
pub open spec fn segment_tokens(
    piece: Piece,
    stale: Set<u32>,
    settings: RangeSettings,
    costs: Costs,
    tables: Tables,
) -> Seq<Token> {
    let tokens = cut(
        segment_chunk(piece, stale),
        settings,
        costs,
        common_work(settings, tables),
        start(),
    );
    match piece.literal {
        Some(byte) => tokens.push(Token::Literal { byte }),
        None => tokens,
    }
}

/// The stream of a part of the common buffer, by costs and tables that all parts share.
pub open spec fn segment_stream(
    piece: Piece,
    stale: Set<u32>,
    settings: RangeSettings,
    costs: Costs,
    tables: Tables,
) -> Result<Seq<u8>, DzFault> {
    common_stream(
        settings,
        tables,
        segment_tokens(piece, stale, settings, costs, tables),
        piece.closed,
    )
}

/// The next token is written, or the tokens end with one that cannot be written.
pub proof fn lemma_next_cut(
    chunk: Chunk,
    settings: RangeSettings,
    costs: Costs,
    work: Work,
    cursor: Cursor,
    tokens: Seq<Token>,
    first: Work,
)
    requires
        0 <= cursor.position < chunk.end,
        put_tokens(first, settings, tokens) == Ok::<Work, DzFault>(work),
    ensures
        ({
            let token = next_token(chunk, settings, costs, work, cursor);
            let all = tokens + cut(chunk, settings, costs, work, cursor);
            match put_token(work, settings, token) {
                Err(fault) => put_tokens(first, settings, all) == Err::<Work, DzFault>(fault),
                Ok(after) => 0 < token_length(token) <= chunk.end - cursor.position ==> all
                    == tokens.push(token) + cut(
                    chunk,
                    settings,
                    costs,
                    after,
                    Cursor {
                        position: cursor.position + token_length(token),
                        ..stepped(chunk, cursor)
                    },
                ),
            }
        }),
{
    let token = next_token(chunk, settings, costs, work, cursor);
    let all = tokens + cut(chunk, settings, costs, work, cursor);
    match put_token(work, settings, token) {
        Err(fault) => {
            assert(all =~= tokens.push(token));
            assert(tokens.push(token).drop_last() =~= tokens);
        },
        Ok(after) => {
            if 0 < token_length(token) <= chunk.end - cursor.position {
                assert(all =~= tokens.push(token) + cut(
                    chunk,
                    settings,
                    costs,
                    after,
                    Cursor {
                        position: cursor.position + token_length(token),
                        ..stepped(chunk, cursor)
                    },
                ));
            }
        },
    }
}

} // verus!
