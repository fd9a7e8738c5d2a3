//! What an archive of chunks becomes: the streams of its chunks and the common buffer.

use vstd::prelude::*;

use crate::codecs::dz::analysis::{seen_from, shared_parts, CommonReference, Part};
use crate::codecs::dz::chunk::chunk_of;
use crate::codecs::dz::common::common_fault;
use crate::codecs::dz::cutting::{
    chunk_tokens, costs_by, piece_bytes, segment_stream, segment_tokens, segments_counted,
    stale_before, Piece,
};
use crate::codecs::dz::encoding::ResolvedReference;
use crate::codecs::dz::fault::DzFault;
use crate::codecs::dz::frequencies::normalized_counts;
use crate::codecs::dz::matchfinder::Costs;
use crate::codecs::dz::settings::RangeSettings;
use crate::codecs::dz::stream::{
    common_at, common_tables, payload_start, recorded_tables, Common, ReferenceBaseUpdate, Tables,
};
use crate::codecs::dz::tokens::{
    all_sensible, all_told, chunk_stream, lemma_common_round_trip, local_tokens, tables_fit,
};

verus! {

/// How a part is written: with the bytes that follow it in its file in view, as far as a match
/// can reach, and with an end.
pub open spec fn part_piece(files: Seq<Seq<u8>>, part: Part) -> Piece {
    Piece {
        input: files[part.file as int].subrange(
            part.position as int,
            seen_from(files[part.file as int].len() as int, part),
        ),
        end: part.length as int,
        first: true,
        literal: None,
        closed: true,
    }
}

/// All parts as they are written.
pub open spec fn all_part_pieces(files: Seq<Seq<u8>>, parts: Seq<Part>) -> Seq<Piece> {
    Seq::new(parts.len(), |i: int| part_piece(files, parts[i]))
}

/// A common buffer and where its parts begin behind the frequency tables.
pub struct Written {
    pub bytes: Seq<u8>,
    pub targets: Seq<usize>,
}

/// The common buffer after the parts from number `i` on were written.
pub open spec fn written(
    pieces: Seq<Piece>,
    settings: RangeSettings,
    costs: Costs,
    tables: Tables,
    i: int,
    done: Written,
) -> Result<Written, DzFault>
    decreases pieces.len() - i,
{
    if 0 <= i < pieces.len() {
        match segment_stream(
            pieces[i],
            stale_before(pieces, i as nat),
            settings,
            costs,
            tables,
        ) {
            Err(fault) => Err(fault),
            Ok(stream) => written(
                pieces,
                settings,
                costs,
                tables,
                i + 1,
                Written {
                    bytes: done.bytes + stream,
                    targets: done.targets.push(
                        (done.bytes.len() - settings.prefix_size()) as usize,
                    ),
                },
            ),
        }
    } else {
        Ok(done)
    }
}

/// The common buffer of the given parts: the frequency tables of all parts, a filler byte, and
/// the parts.
pub open spec fn common_written(pieces: Seq<Piece>, settings: RangeSettings) -> Result<
    Written,
    DzFault,
> {
    let counts = segments_counted(pieces, settings, pieces.len());
    let prefix = normalized_counts(counts);
    written(
        pieces,
        settings,
        costs_by(counts),
        recorded_tables(prefix, settings),
        0,
        Written { bytes: prefix.push(0x7f), targets: Seq::empty() },
    )
}

/// The references of a file from number `i` on, with their places in the common buffer.
pub open spec fn resolved_from(
    common: Common,
    uses: Seq<CommonReference>,
    targets: Seq<usize>,
    update: ReferenceBaseUpdate,
    i: int,
    done: Seq<ResolvedReference>,
) -> Result<Seq<ResolvedReference>, DzFault>
    decreases uses.len() - i,
{
    if 0 <= i < uses.len() {
        let target = targets[uses[i].segment as int];
        match common_at(common, target as int, uses[i].length as int) {
            Err(fault) => Err(fault),
            Ok((bytes, consumed)) => {
                let next = match update {
                    ReferenceBaseUpdate::Zero => 0,
                    ReferenceBaseUpdate::CompressedEndpoint => target + consumed,
                };
                if next > usize::MAX || next > i64::MAX {
                    Err(DzFault::EndpointOverflow)
                } else {
                    resolved_from(
                        common,
                        uses,
                        targets,
                        update,
                        i + 1,
                        done.push(
                            ResolvedReference {
                                position: uses[i].position,
                                length: uses[i].length,
                                target,
                                next_base: next as usize,
                            },
                        ),
                    )
                }
            },
        }
    } else {
        Ok(done)
    }
}

/// A list in order without doubles, with one more value.
pub open spec fn inserted(list: Seq<usize>, value: usize) -> Seq<usize>
    decreases list.len(),
{
    if list.len() == 0 || list.last() < value {
        list.push(value)
    } else if list.last() == value {
        list
    } else {
        inserted(list.drop_last(), value).push(list.last())
    }
}

/// Where the first `n` parts that lie in a file begin, in order.
pub open spec fn boundaries_in(parts: Seq<Part>, file: int, n: nat) -> Seq<usize>
    decreases n,
{
    if n == 0 {
        Seq::empty()
    } else {
        let before = boundaries_in(parts, file, (n - 1) as nat);
        if parts[n - 1].file == file {
            inserted(before, parts[n - 1].position)
        } else {
            before
        }
    }
}

/// The streams of the files from number `file` on, which refer to a common buffer.
pub open spec fn linked_streams(
    files: Seq<Seq<u8>>,
    settings: RangeSettings,
    update: ReferenceBaseUpdate,
    parts: Seq<Part>,
    uses: Seq<Seq<CommonReference>>,
    common: Common,
    targets: Seq<usize>,
    file: int,
    done: Seq<Seq<u8>>,
) -> Result<Seq<Seq<u8>>, DzFault>
    decreases files.len() - file,
{
    if 0 <= file < files.len() {
        match resolved_from(common, uses[file], targets, update, 0, Seq::empty()) {
            Err(fault) => Err(fault),
            Ok(references) => match chunk_stream(
                settings,
                true,
                chunk_tokens(
                    chunk_of(
                        files[file],
                        references,
                        boundaries_in(parts, file, parts.len()),
                    ),
                    settings,
                    true,
                ),
            ) {
                Err(fault) => Err(fault),
                Ok(stream) => linked_streams(
                    files,
                    settings,
                    update,
                    parts,
                    uses,
                    common,
                    targets,
                    file + 1,
                    done.push(stream),
                ),
            },
        }
    } else {
        Ok(done)
    }
}

/// The streams of the files from number `file` on, which refer to nothing.
pub open spec fn plain_streams(
    files: Seq<Seq<u8>>,
    settings: RangeSettings,
    has_combuf: bool,
    file: int,
    done: Seq<Seq<u8>>,
) -> Result<Seq<Seq<u8>>, DzFault>
    decreases files.len() - file,
{
    if 0 <= file < files.len() {
        match chunk_stream(
            settings,
            has_combuf,
            chunk_tokens(
                chunk_of(files[file], Seq::empty(), Seq::empty()),
                settings,
                has_combuf,
            ),
        ) {
            Err(fault) => Err(fault),
            Ok(stream) => plain_streams(files, settings, has_combuf, file + 1, done.push(stream)),
        }
    } else {
        Ok(done)
    }
}

/// The streams of an archive and its common buffer.
#[verifier::ext_equal]
pub struct Streams {
    pub chunks: Seq<Seq<u8>>,
    pub common: Option<Seq<u8>>,
}

/// The streams of an archive that shares nothing, with an empty common buffer.
pub open spec fn unshared_streams(files: Seq<Seq<u8>>, settings: RangeSettings) -> Result<
    Streams,
    DzFault,
> {
    match plain_streams(files, settings, true, 0, Seq::empty()) {
        Err(fault) => Err(fault),
        Ok(chunks) => Ok(Streams { chunks, common: Some(Seq::empty()) }),
    }
}

/// The streams of an archive that shares the given parts.
pub open spec fn streams_sharing(
    files: Seq<Seq<u8>>,
    settings: RangeSettings,
    update: ReferenceBaseUpdate,
    parts: Seq<Part>,
    uses: Seq<Seq<CommonReference>>,
) -> Result<Streams, DzFault> {
    match common_written(all_part_pieces(files, parts), settings) {
        Err(fault) => Err(fault),
        Ok(written) => {
            let common = Common { settings, chunks: seq![written.bytes] };
            match common_fault(common) {
                Some(fault) => Err(fault),
                None => match linked_streams(
                    files,
                    settings,
                    update,
                    parts,
                    uses,
                    common,
                    written.targets,
                    0,
                    Seq::empty(),
                ) {
                    Err(fault) => Err(fault),
                    Ok(chunks) => Ok(Streams { chunks, common: Some(written.bytes) }),
                },
            }
        },
    }
}

/// The streams of an archive with a common buffer.
pub open spec fn shared_streams(
    files: Seq<Seq<u8>>,
    settings: RangeSettings,
    preprocess: bool,
    max_match: int,
    update: ReferenceBaseUpdate,
) -> Result<Streams, DzFault> {
    let (parts, uses) = shared_parts(files, preprocess, settings.big_min_match as nat, max_match);
    if parts.len() == 0 {
        unshared_streams(files, settings)
    } else {
        streams_sharing(files, settings, update, parts, uses)
    }
}

/// A part stands at its place in a common buffer, coded by tokens that spell it.
pub open spec fn placed(
    settings: RangeSettings,
    costs: Costs,
    tables: Tables,
    bytes: Seq<u8>,
    target: usize,
    piece: Piece,
    stale: Set<u32>,
) -> bool {
    let tokens = segment_tokens(piece, stale, settings, costs, tables);
    let from = settings.prefix_size() + target;
    &&& segment_stream(piece, stale, settings, costs, tables) matches Ok(stream) && from
        + stream.len() <= bytes.len() && bytes.subrange(from, from + stream.len()) == stream
    &&& local_tokens(tokens)
    &&& all_sensible(tokens, settings, None, ReferenceBaseUpdate::Zero)
    &&& all_told(tokens, None) == piece_bytes(piece)
}

/// The part of the common buffer that begins at `target` decodes to `raw`.
pub open spec fn reads_back(common: Common, target: usize, raw: Seq<u8>) -> bool {
    common_at(common, target as int, raw.len() as int) matches Ok((bytes, _)) && bytes == raw
}

/// A part of a common buffer is read back from where it was written.
pub proof fn lemma_reads_back(
    settings: RangeSettings,
    costs: Costs,
    bytes: Seq<u8>,
    target: usize,
    piece: Piece,
    stale: Set<u32>,
)
    requires
        settings.valid(),
        settings.prefix_size() > 0,
        tables_fit(common_tables(settings, bytes), settings),
        placed(settings, costs, common_tables(settings, bytes), bytes, target, piece, stale),
    ensures
        reads_back(Common { settings, chunks: seq![bytes] }, target, piece_bytes(piece)),
{
    let common = Common { settings, chunks: seq![bytes] };
    let tables = common_tables(settings, bytes);
    let tokens = segment_tokens(piece, stale, settings, costs, tables);
    let stream = segment_stream(piece, stale, settings, costs, tables)->Ok_0;
    let from = settings.prefix_size() + target;
    let rest = bytes.skip(from + stream.len());
    assert(bytes.skip(from) =~= bytes.subrange(from, from + stream.len()) + rest);
    lemma_common_round_trip(settings, tables, tokens, piece.closed, rest);
    assert(stream.len() > 0);
    assert(payload_start(common, 0) == 0);
    assert(payload_start(common, 1) == bytes.len() - settings.prefix_size());
}

} // verus!
