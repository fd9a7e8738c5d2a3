//! The search for parts that several chunks of an archive share.

use vstd::prelude::*;

use crate::codecs::dz::cutting::Piece;
use crate::codecs::dz::sharing::part_piece;
use crate::codecs::dz::stream::MAX_MATCH;

verus! {

/// A part of a chunk that goes into the common buffer.
#[derive(Debug)]
pub struct CommonSegment {
    pub source_file: usize,
    pub source_position: usize,
    pub raw: Vec<u8>,
    /// The bytes that are looked at while the part is written.
    pub lookahead: Vec<u8>,
    /// How many of those bytes are cut into literals and matches.
    pub decision_len: usize,
    /// Matches may begin at the first byte.
    pub allow_position_zero: bool,
    /// An end is written behind the part.
    pub emit_end: bool,
    /// A literal behind the bytes that are cut.
    pub trailing_literal: Option<u8>,
    pub encoded: Vec<u8>,
    pub target: usize,
}

/// How a segment is written.
pub open spec fn piece_of(segment: CommonSegment) -> Piece {
    Piece {
        input: segment.lookahead@,
        end: segment.decision_len as int,
        first: segment.allow_position_zero,
        literal: segment.trailing_literal,
        closed: segment.emit_end,
    }
}

/// A place where a chunk repeats a part of the common buffer.
#[derive(Debug, Clone, Copy, PartialEq, Eq, Structural)]
pub struct CommonReference {
    pub position: usize,
    pub length: usize,
    pub segment: usize,
}

/// The contents of the inputs.
pub open spec fn files(inputs: Seq<&[u8]>) -> Seq<Seq<u8>> {
    Seq::new(inputs.len(), |i: int| inputs[i]@)
}

/// The segment is a part of the file that it names, and is written as one.
pub open spec fn segment_of(inputs: Seq<Seq<u8>>, segment: CommonSegment) -> bool {
    &&& piece_of(segment) == part_piece(inputs, part_of(segment))
    &&& segment.source_file < inputs.len()
    &&& segment.source_position + segment.raw@.len() <= inputs[segment.source_file as int].len()
    &&& segment.raw@ == inputs[segment.source_file as int].subrange(
        segment.source_position as int,
        segment.source_position + segment.raw@.len(),
    )
}

/// The file repeats the segment at the place of the reference.
pub open spec fn reference_of(
    input: Seq<u8>,
    segments: Seq<CommonSegment>,
    reference: CommonReference,
    min_match: int,
    max_match: int,
) -> bool {
    &&& reference.segment < segments.len()
    &&& min_match <= reference.length <= max_match
    &&& reference.position + reference.length <= input.len()
    &&& segments[reference.segment as int].raw@ == input.subrange(
        reference.position as int,
        reference.position + reference.length,
    )
}

/// A part of a file.
#[verifier::ext_equal]
pub struct Part {
    pub file: usize,
    pub position: usize,
    pub length: usize,
}

/// How far the bytes that follow a part are in view, in a file of the given size.
pub open spec fn seen_from(size: int, part: Part) -> int {
    if size - part.position - part.length < MAX_MATCH {
        size
    } else {
        part.position + part.length + MAX_MATCH
    }
}

pub open spec fn part_of(segment: CommonSegment) -> Part {
    Part {
        file: segment.source_file,
        position: segment.source_position,
        length: segment.raw@.len() as usize,
    }
}

/// The parts that segments are.
pub open spec fn parts_of(segments: Seq<CommonSegment>) -> Seq<Part> {
    Seq::new(segments.len(), |i: int| part_of(segments[i]))
}

/// The lists of references.
pub open spec fn uses_of(references: Seq<Vec<CommonReference>>) -> Seq<Seq<CommonReference>> {
    Seq::new(references.len(), |f: int| references[f]@)
}

/// The key of the first `n` bytes from `position` on.
pub open spec fn key_of(input: Seq<u8>, position: int, n: nat) -> int
    decreases n,
{
    if n == 0 {
        0
    } else {
        (key_of(input, position, (n - 1) as nat) * 0x0100_0193 % 0x1_0000_0000 + input[position + n
            - 1] + 1) % 0x1_0000_0000
    }
}

/// The slot of the bytes from `position` on.
pub open spec fn slot_at(input: Seq<u8>, position: int, count: nat) -> int {
    let key = key_of(input, position, count);
    (key / 0x1_0000 + key % 0x1_0000) % 0x1_0000
}

/// How far the bytes of two inputs agree, given that the first `n` do; at most `max`.
pub open spec fn agreed(a: Seq<u8>, i: int, b: Seq<u8>, j: int, max: int, n: int) -> int
    decreases max - n,
{
    if n < max && i + n < a.len() && j + n < b.len() && a[i + n] == b[j + n] {
        agreed(a, i, b, j, max, n + 1)
    } else {
        n
    }
}

/// The slots after the positions of a file from `position` on were noted: the first one of a
/// slot stays if `keep_first` says so, and the last one otherwise.
pub open spec fn noted(
    input: Seq<u8>,
    file: usize,
    slots: Seq<Option<(usize, usize)>>,
    keep_first: bool,
    min_match: nat,
    position: int,
) -> Seq<Option<(usize, usize)>>
    decreases input.len() - position,
{
    if position < input.len() && min_match <= input.len() - position {
        let slot = slot_at(input, position, min_match);
        noted(
            input,
            file,
            if !keep_first || slots[slot] is None {
                slots.update(slot, Some((file, position as usize)))
            } else {
                slots
            },
            keep_first,
            min_match,
            position + 1,
        )
    } else {
        slots
    }
}

/// The first place of a part from number `i` on; the end of the list if there is none.
pub open spec fn number_of(parts: Seq<Part>, part: Part, i: int) -> int
    decreases parts.len() - i,
{
    if 0 <= i < parts.len() && parts[i] != part {
        number_of(parts, part, i + 1)
    } else {
        i
    }
}

/// The list with a part, which is added if it is not there yet.
pub open spec fn with_part(parts: Seq<Part>, part: Part) -> Seq<Part> {
    if number_of(parts, part, 0) < parts.len() {
        parts
    } else {
        parts.push(part)
    }
}

/// The match that the slot of a position leads to: its source and its length.
pub open spec fn led_to(
    files: Seq<Seq<u8>>,
    file: int,
    slots: Seq<Option<(usize, usize)>>,
    min_match: nat,
    max_match: int,
    position: int,
) -> Option<Part> {
    match slots[slot_at(files[file], position, min_match)] {
        Some((source, start)) if source < files.len() && start <= files[source as int].len() => {
            let length = agreed(
                files[source as int],
                start as int,
                files[file],
                position,
                max_match,
                0,
            );
            if length >= min_match {
                Some(Part { file: source, position: start, length: length as usize })
            } else {
                None
            }
        },
        _ => None,
    }
}

/// The parts and the references after the rest of a file was searched.
pub open spec fn searched(
    files: Seq<Seq<u8>>,
    file: int,
    slots: Seq<Option<(usize, usize)>>,
    min_match: nat,
    max_match: int,
    position: int,
    parts: Seq<Part>,
    uses: Seq<CommonReference>,
) -> (Seq<Part>, Seq<CommonReference>)
    decreases files[file].len() - position,
{
    if position < files[file].len() && min_match <= files[file].len() - position {
        match led_to(files, file, slots, min_match, max_match, position) {
            Some(part) if 0 < part.length <= files[file].len() - position => searched(
                files,
                file,
                slots,
                min_match,
                max_match,
                position + part.length,
                with_part(parts, part),
                uses.push(
                    CommonReference {
                        position: position as usize,
                        length: part.length,
                        segment: number_of(parts, part, 0) as usize,
                    },
                ),
            ),
            _ => searched(
                files,
                file,
                slots,
                min_match,
                max_match,
                position + 1,
                parts,
                uses,
            ),
        }
    } else {
        (parts, uses)
    }
}

/// The parts and the references after the files from number `file` on were searched, each by
/// what the files before it left in the slots.
pub open spec fn all_searched(
    files: Seq<Seq<u8>>,
    preprocess: bool,
    min_match: nat,
    max_match: int,
    file: int,
    slots: Seq<Option<(usize, usize)>>,
    parts: Seq<Part>,
    uses: Seq<Seq<CommonReference>>,
) -> (Seq<Part>, Seq<Seq<CommonReference>>)
    decreases files.len() - file,
{
    if 0 <= file < files.len() {
        let (more, found) = searched(
            files,
            file,
            slots,
            min_match,
            max_match,
            0,
            parts,
            Seq::empty(),
        );
        all_searched(
            files,
            preprocess,
            min_match,
            max_match,
            file + 1,
            noted(files[file], file as usize, slots, preprocess, min_match, 0),
            more,
            uses.push(found),
        )
    } else {
        (parts, uses)
    }
}

/// The parts that later files share with earlier ones, and where they occur.
pub open spec fn shared_parts(
    files: Seq<Seq<u8>>,
    preprocess: bool,
    min_match: nat,
    max_match: int,
) -> (Seq<Part>, Seq<Seq<CommonReference>>) {
    all_searched(
        files,
        preprocess,
        min_match,
        max_match,
        0,
        Seq::new(0x1_0000, |i: int| None::<(usize, usize)>),
        Seq::empty(),
        Seq::empty(),
    )
}

const SLOTS: usize = 0x1_0000;

/// A slot number for the bytes from `position` on.
fn slot_of(input: &[u8], position: usize, count: usize) -> (slot: usize)
    requires
        position + count <= input@.len(),
    ensures
        slot == slot_at(input@, position as int, count as nat),
        slot < 0x1_0000,
{
    let size: usize = input.len();
    let mut key: u32 = 0;
    let mut i: usize = 0;
    while i < count
        invariant
            i <= count,
            size == input@.len(),
            position + count <= input@.len(),
            key == key_of(input@, position as int, i as nat),
        decreases count - i,
    {
        key = key.wrapping_mul(0x0100_0193).wrapping_add(input[position + i] as u32 + 1);
        i += 1;
    }
    ((key / 0x1_0000 + key % 0x1_0000) % 0x1_0000) as usize
}

/// How far the bytes of two inputs agree, at most `max`.
fn agreement(a: &[u8], i: usize, b: &[u8], j: usize, max: usize) -> (length: usize)
    requires
        i <= a@.len(),
        j <= b@.len(),
    ensures
        length <= max,
        i + length <= a@.len(),
        j + length <= b@.len(),
        a@.subrange(i as int, i + length) == b@.subrange(j as int, j + length),
        length == agreed(a@, i as int, b@, j as int, max as int, 0),
        length < max && i + length < a@.len() && j + length < b@.len() ==> a@[i + length] != b@[j
            + length],
{
    let mut length: usize = 0;
    let size: usize = a.len();
    let other: usize = b.len();
    while length < max && length < size - i && length < other - j && a[i + length] == b[j + length]
        invariant
            size == a@.len(),
            other == b@.len(),
            length <= max,
            i + length <= a@.len(),
            j + length <= b@.len(),
            forall|k: int| 0 <= k < length ==> #[trigger] a@[i + k] == b@[j + k],
            agreed(a@, i as int, b@, j as int, max as int, 0) == agreed(
                a@,
                i as int,
                b@,
                j as int,
                max as int,
                length as int,
            ),
        decreases max - length,
    {
        length += 1;
    }
    proof {
        let left = a@.subrange(i as int, i + length);
        let right = b@.subrange(j as int, j + length);
        assert forall|k: int| 0 <= k < length implies left[k] == right[k] by {
            assert(a@[i + k] == b@[j + k]);
        }
        assert(left =~= right);
    }
    length
}

/// A part of an input.
fn cut_out(input: &[u8], start: usize, length: usize) -> (bytes: Vec<u8>)
    requires
        start + length <= input@.len(),
    ensures
        bytes@ == input@.subrange(start as int, start + length),
{
    let size: usize = input.len();
    assert(start + length <= size);
    let mut bytes: Vec<u8> = Vec::with_capacity(length);
    bytes.extend_from_slice(vstd::slice::slice_subrange(input, start, start + length));
    assert(bytes@ =~= input@.subrange(start as int, start + length));
    bytes
}

/// The number of a segment, which is added if it is not there yet.
fn segment_number(
    segments: &mut Vec<CommonSegment>,
    inputs: &[&[u8]],
    file: usize,
    position: usize,
    length: usize,
) -> (number: usize)
    requires
        file < inputs@.len(),
        position + length <= inputs@[file as int]@.len(),
        forall|i: int|
            0 <= i < old(segments)@.len() ==> segment_of(
                files(inputs@),
                #[trigger] old(segments)@[i],
            ),
    ensures
        number < final(segments)@.len(),
        old(segments)@.len() <= final(segments)@.len() <= old(segments)@.len() + 1,
        forall|i: int|
            0 <= i < old(segments)@.len() ==> #[trigger] final(segments)@[i] == old(segments)@[i],
        forall|i: int|
            0 <= i < final(segments)@.len() ==> segment_of(
                files(inputs@),
                #[trigger] final(segments)@[i],
            ),
        final(segments)@[number as int].raw@ == inputs@[file as int]@.subrange(
            position as int,
            position + length,
        ),
        number == number_of(parts_of(old(segments)@), Part { file, position, length }, 0),
        parts_of(final(segments)@) == with_part(
            parts_of(old(segments)@),
            Part { file, position, length },
        ),
{
    let ghost part = Part { file, position, length };
    let ghost parts = parts_of(segments@);
    let mut i: usize = 0;
    while i < segments.len()
        invariant
            i <= segments@.len(),
            segments@ == old(segments)@,
            parts == parts_of(segments@),
            part == (Part { file, position, length }),
            number_of(parts, part, 0) == number_of(parts, part, i as int),
            file < inputs@.len(),
            forall|k: int|
                0 <= k < segments@.len() ==> segment_of(files(inputs@), #[trigger] segments@[k]),
        decreases segments@.len() - i,
    {
        if segments[i].source_file == file && segments[i].source_position == position
            && segments[i].raw.len() == length {
            assert(segment_of(files(inputs@), segments@[i as int]));
            assert(parts[i as int] =~= part);
            return i;
        }
        assert(parts[i as int] == part_of(segments@[i as int]));
        i += 1;
    }
    let raw = cut_out(inputs[file], position, length);
    let behind: usize = inputs[file].len() - position - length;
    let seen: usize = if behind < MAX_MATCH {
        length + behind
    } else {
        length + MAX_MATCH
    };
    let lookahead = cut_out(inputs[file], position, seen);
    segments.push(
        CommonSegment {
            source_file: file,
            source_position: position,
            raw,
            lookahead,
            decision_len: length,
            allow_position_zero: true,
            emit_end: true,
            trailing_literal: None,
            encoded: Vec::new(),
            target: 0,
        },
    );
    assert(files(inputs@)[file as int] == inputs@[file as int]@);
    assert(parts_of(segments@) =~= parts.push(part));
    segments.len() - 1
}

/// The parts that later chunks share with earlier ones, and where they occur.
///
/// Without preprocessing the latest occurrence of a part serves as its source, with it the
/// first.
#[verifier::rlimit(40)]
pub fn find_common_references(
    inputs: &[&[u8]],
    preprocess: bool,
    min_match: usize,
    max_match: usize,
) -> (found: (Vec<CommonSegment>, Vec<Vec<CommonReference>>))
    requires
        min_match >= 1,
    ensures
        found.1@.len() == inputs@.len(),
        (parts_of(found.0@), uses_of(found.1@)) == shared_parts(
            files(inputs@),
            preprocess,
            min_match as nat,
            max_match as int,
        ),
        forall|i: int|
            0 <= i < found.0@.len() ==> segment_of(files(inputs@), #[trigger] found.0@[i]),
        forall|f: int, i: int|
            0 <= f < found.1@.len() && 0 <= i < found.1@[f]@.len() ==> reference_of(
                inputs@[f]@,
                found.0@,
                #[trigger] found.1@[f]@[i],
                min_match as int,
                max_match as int,
            ),
{
    let mut segments: Vec<CommonSegment> = Vec::new();
    let mut references: Vec<Vec<CommonReference>> = Vec::new();
    let mut slots: Vec<Option<(usize, usize)>> = Vec::new();
    let mut i: usize = 0;
    while i < SLOTS
        invariant
            i <= SLOTS,
            slots@.len() == i,
            forall|k: int| 0 <= k < i ==> #[trigger] slots@[k] is None,
        decreases SLOTS - i,
    {
        slots.push(None);
        i += 1;
    }
    let mut file: usize = 0;
    let ghost whole = shared_parts(
        files(inputs@),
        preprocess,
        min_match as nat,
        max_match as int,
    );
    proof {
        assert(slots@ =~= Seq::new(0x1_0000, |i: int| None::<(usize, usize)>));
        assert(parts_of(segments@) =~= Seq::empty());
        assert(uses_of(references@) =~= Seq::empty());
    }
    while file < inputs.len()
        invariant
            whole == shared_parts(
                files(inputs@),
                preprocess,
                min_match as nat,
                max_match as int,
            ),
            whole == all_searched(
                files(inputs@),
                preprocess,
                min_match as nat,
                max_match as int,
                file as int,
                slots@,
                parts_of(segments@),
                uses_of(references@),
            ),
            min_match >= 1,
            file <= inputs@.len(),
            slots@.len() == SLOTS,
            references@.len() == file,
            forall|k: int|
                0 <= k < segments@.len() ==> segment_of(files(inputs@), #[trigger] segments@[k]),
            forall|f: int, k: int|
                0 <= f < file && 0 <= k < references@[f]@.len() ==> reference_of(
                    inputs@[f]@,
                    segments@,
                    #[trigger] references@[f]@[k],
                    min_match as int,
                    max_match as int,
                ),
        decreases inputs@.len() - file,
    {
        let ghost earlier = references@;
        assert(files(inputs@)[file as int] == inputs@[file as int]@);
        let found = find_in_file(inputs, file, &slots, &mut segments, min_match, max_match);
        references.push(found);
        proof {
            assert(uses_of(references@) =~= uses_of(earlier).push(found@));
            assert forall|f: int, k: int|
                0 <= f < file + 1 && 0 <= k < references@[f]@.len() implies reference_of(
                inputs@[f]@,
                segments@,
                #[trigger] references@[f]@[k],
                min_match as int,
                max_match as int,
            ) by {
                if f < file {
                    assert(references@[f] == earlier[f]);
                    assert(reference_of(
                        inputs@[f]@,
                        segments@,
                        earlier[f]@[k],
                        min_match as int,
                        max_match as int,
                    ));
                }
            }
        }
        index_file(inputs[file], file, &mut slots, preprocess, min_match);
        file += 1;
    }
    (segments, references)
}

/// Notes where the parts of a file begin.
fn index_file(
    input: &[u8],
    file: usize,
    slots: &mut Vec<Option<(usize, usize)>>,
    keep_first: bool,
    min_match: usize,
)
    requires
        old(slots)@.len() == 0x1_0000,
    ensures
        final(slots)@.len() == 0x1_0000,
        final(slots)@ == noted(input@, file, old(slots)@, keep_first, min_match as nat, 0),
{
    let size: usize = input.len();
    let mut position: usize = 0;
    while position < size && min_match <= size - position
        invariant
            size == input@.len(),
            position <= size,
            slots@.len() == 0x1_0000,
            noted(input@, file, old(slots)@, keep_first, min_match as nat, 0) == noted(
                input@,
                file,
                slots@,
                keep_first,
                min_match as nat,
                position as int,
            ),
        decreases size - position,
    {
        let slot: usize = slot_of(input, position, min_match);
        if !keep_first || slots[slot].is_none() {
            slots.set(slot, Some((file, position)));
        }
        position += 1;
    }
}

/// The parts of a file that occur in indexed files.
#[verifier::rlimit(40)]
fn find_in_file(
    inputs: &[&[u8]],
    file: usize,
    slots: &Vec<Option<(usize, usize)>>,
    segments: &mut Vec<CommonSegment>,
    min_match: usize,
    max_match: usize,
) -> (references: Vec<CommonReference>)
    requires
        min_match >= 1,
        file < inputs@.len(),
        slots@.len() == 0x1_0000,
        forall|k: int|
            0 <= k < old(segments)@.len() ==> segment_of(
                files(inputs@),
                #[trigger] old(segments)@[k],
            ),
    ensures
        (parts_of(final(segments)@), references@) == searched(
            files(inputs@),
            file as int,
            slots@,
            min_match as nat,
            max_match as int,
            0,
            parts_of(old(segments)@),
            Seq::empty(),
        ),
        old(segments)@.len() <= final(segments)@.len(),
        forall|k: int|
            0 <= k < old(segments)@.len() ==> #[trigger] final(segments)@[k] == old(segments)@[k],
        forall|k: int|
            0 <= k < final(segments)@.len() ==> segment_of(
                files(inputs@),
                #[trigger] final(segments)@[k],
            ),
        forall|k: int|
            0 <= k < references@.len() ==> reference_of(
                inputs@[file as int]@,
                final(segments)@,
                #[trigger] references@[k],
                min_match as int,
                max_match as int,
            ),
{
    let input: &[u8] = inputs[file];
    let size: usize = input.len();
    let mut references: Vec<CommonReference> = Vec::new();
    let mut position: usize = 0;
    let ghost all = files(inputs@);
    let ghost whole = searched(
        all,
        file as int,
        slots@,
        min_match as nat,
        max_match as int,
        0,
        parts_of(segments@),
        Seq::empty(),
    );
    assert(references@ =~= Seq::empty());
    while position < size && min_match <= size - position
        invariant
            all == files(inputs@),
            whole == searched(
                all,
                file as int,
                slots@,
                min_match as nat,
                max_match as int,
                0,
                parts_of(old(segments)@),
                Seq::empty(),
            ),
            whole == searched(
                all,
                file as int,
                slots@,
                min_match as nat,
                max_match as int,
                position as int,
                parts_of(segments@),
                references@,
            ),
            min_match >= 1,
            file < inputs@.len(),
            input@ == inputs@[file as int]@,
            size == input@.len(),
            position <= size,
            slots@.len() == 0x1_0000,
            old(segments)@.len() <= segments@.len(),
            forall|k: int|
                0 <= k < old(segments)@.len() ==> #[trigger] segments@[k] == old(segments)@[k],
            forall|k: int|
                0 <= k < segments@.len() ==> segment_of(files(inputs@), #[trigger] segments@[k]),
            forall|k: int|
                0 <= k < references@.len() ==> reference_of(
                    input@,
                    segments@,
                    #[trigger] references@[k],
                    min_match as int,
                    max_match as int,
                ),
        decreases size - position,
    {
        let slot: usize = slot_of(input, position, min_match);
        let mut step: usize = 1;
        assert(all[file as int] == input@);
        if let Some((source, start)) = slots[slot] {
            if source < inputs.len() && start <= inputs[source].len() {
                assert(all[source as int] == inputs@[source as int]@);
                let length: usize = agreement(inputs[source], start, input, position, max_match);
                if length >= min_match {
                    let ghost before = segments@;
                    let number: usize = segment_number(segments, inputs, source, start, length);
                    let ghost earlier = references@;
                    references.push(CommonReference { position, length, segment: number });
                    proof {
                        assert forall|k: int| 0 <= k < references@.len() implies reference_of(
                            input@,
                            segments@,
                            #[trigger] references@[k],
                            min_match as int,
                            max_match as int,
                        ) by {
                            if k < earlier.len() {
                                assert(references@[k] == earlier[k]);
                                assert(reference_of(
                                    input@,
                                    before,
                                    earlier[k],
                                    min_match as int,
                                    max_match as int,
                                ));
                                assert(segments@[earlier[k].segment as int]
                                    == before[earlier[k].segment as int]);
                            }
                        }
                    }
                    step = length;
                }
            }
        }
        position = position + step;
    }
    references
}

} // verus!
