//! Whole LZMA streams: the greedy encoder and the decoder.

use vstd::prelude::*;

use crate::codecs::lzma::coder::{lemma_stream_bytes, stream_bytes};
use crate::codecs::lzma::decoding::{
    decode_operations, move_rep, reps_view, update_literal_state, update_match_state,
    update_rep_state, update_short_rep_state, Action, StreamShape,
};
use crate::codecs::lzma::encoding::{encode_end_marker, encode_operation, in_order, writer_of};
use crate::codecs::lzma::fault::Fault;
use crate::codecs::lzma::operations::{
    advanced, continues, first_reader, first_writer, history_after, history_ok, lemma_continues,
    lemma_early_end, lemma_end_marker, lemma_first_place, lemma_first_writer,
    lemma_operations_read_back, lemma_put_operations_ok, model_count, no_history, operation_length,
    put_end_marker, put_operations, shape_ok, spells, steps, Defect, History, Operation, Shape,
};
use crate::codecs::lzma::options::{
    lemma_properties_round_trip, properties_of, property_bytes, LzmaProps,
};
use crate::codecs::lzma::range::{first_place, RangeDecoder, RangeEncoder};
use crate::codecs::matchfinder::{
    chained, common_length, find_match, insert_position, lemma_common_length, lemma_match_from,
    match_from, match_length, new_chains, repeats, SearchLimits,
};

verus! {

/// How far the encoder looks for matches.
pub open spec fn search_limits(props: LzmaProps) -> SearchLimits {
    SearchLimits {
        length: 273,
        window: props.dict_size as usize,
        attempts: if props.mc == 0 {
            1
        } else {
            props.mc as usize
        },
        nice: if props.fb < 5 {
            5
        } else if props.fb > 273 {
            273
        } else {
            props.fb as usize
        },
    }
}

/// The longest match that may start at `position`.
pub open spec fn longest(input: Seq<u8>, position: int) -> int {
    if input.len() - position < 273 {
        input.len() - position
    } else {
        273
    }
}

/// How far the input repeats what lies at the given distance, counted from zero.
pub open spec fn rep_length(input: Seq<u8>, position: int, distance: int) -> int {
    if distance + 1 > position {
        0
    } else {
        common_length(input, position - distance - 1, position, 0, longest(input, position))
    }
}

/// The longest repetition, as length and index, among `best` and the last distances from
/// `index` on; of equally long ones the first wins.
pub open spec fn best_rep(
    input: Seq<u8>,
    position: int,
    reps: Seq<int>,
    index: int,
    best: (int, int),
) -> (int, int)
    decreases 4 - index,
{
    if index >= 4 {
        best
    } else {
        let length = rep_length(input, position, reps[index]);
        best_rep(
            input,
            position,
            reps,
            index + 1,
            if length > best.0 {
                (length, index)
            } else {
                best
            },
        )
    }
}

/// The operation that the greedy encoder chooses.
pub open spec fn chosen(input: Seq<u8>, h: History, limits: SearchLimits) -> Operation {
    let position = h.out.len() as int;
    let (length, distance) = match_from(input, position, limits);
    let (rep_len, rep_index) = best_rep(input, position, h.reps, 0, (0, 0));
    if rep_len >= 2 && rep_len >= length {
        Operation::Rep { index: rep_index, length: rep_len }
    } else if rep_index == 0 && rep_len == 1 && length < 3 {
        Operation::ShortRep
    } else if length >= 3 {
        Operation::Match { length, distance: distance - 1 }
    } else {
        Operation::Literal(input[position])
    }
}

/// The last distances lie within the dictionary, and the latest one within the output once a
/// match was made.
pub open spec fn reps_ok(shape: Shape, h: History) -> bool {
    &&& history_ok(h)
    &&& forall|i: int| 0 <= i < 4 ==> 0 <= #[trigger] h.reps[i] < shape.dict
    &&& h.state >= 7 ==> h.reps[0] < h.out.len()
}

proof fn lemma_best_rep(
    input: Seq<u8>,
    position: int,
    reps: Seq<int>,
    index: int,
    best: (int, int),
)
    requires
        0 <= index <= 4,
        reps.len() == 4,
        0 <= position <= input.len(),
        0 <= best.0,
        0 <= best.1 < 4,
        best.0 > 0 ==> best.0 == rep_length(input, position, reps[best.1]),
    ensures
        ({
            let (length, i) = best_rep(input, position, reps, index, best);
            &&& 0 <= length
            &&& 0 <= i < 4
            &&& length > 0 ==> length == rep_length(input, position, reps[i])
        }),
    decreases 4 - index,
{
    if index < 4 {
        let length = rep_length(input, position, reps[index]);
        lemma_best_rep(
            input,
            position,
            reps,
            index + 1,
            if length > best.0 {
                (length, index)
            } else {
                best
            },
        );
    }
}

/// The operation that is chosen continues the input.
pub proof fn lemma_chosen(shape: Shape, input: Seq<u8>, h: History, limits: SearchLimits)
    requires
        shape_ok(shape),
        shape.dict <= 0xffff_ffff,
        limits.length == 273,
        limits.window == shape.dict,
        reps_ok(shape, h),
        h.out.len() < input.len(),
        h.out == input.take(h.out.len() as int),
    ensures
        continues(shape, h, chosen(input, h, limits), input),
        reps_ok(shape, advanced(h, chosen(input, h, limits))),
        operation_length(chosen(input, h, limits)) >= 1,
{
    let position = h.out.len() as int;
    let op = chosen(input, h, limits);
    let (length, distance) = match_from(input, position, limits);
    let (rep_len, rep_index) = best_rep(input, position, h.reps, 0, (0, 0));
    lemma_match_from(input, position, limits);
    lemma_best_rep(input, position, h.reps, 0, (0, 0));
    if rep_len > 0 {
        let d = h.reps[rep_index];
        lemma_common_length(input, position - d - 1, position, 0, longest(input, position));
        assert(repeats(input, position, rep_len, d + 1)) by {
            assert forall|i: int| 0 <= i < rep_len implies #[trigger] input[position + i]
                == input[position - (d + 1) + i] by {
                assert(input[position + i] == input[position - d - 1 + i]);
            }
        }
    }
    assert(continues(shape, h, op, input));
    lemma_continues(shape, h, op, input);
    let after = advanced(h, op);
    assert forall|i: int| 0 <= i < 4 implies 0 <= #[trigger] after.reps[i] < shape.dict by {
        assert(0 <= h.reps[0] < shape.dict && 0 <= h.reps[1] < shape.dict && 0 <= h.reps[2]
            < shape.dict && 0 <= h.reps[3] < shape.dict);
    }
}

/// All operations that the greedy encoder chooses for the rest of the input.
pub open spec fn all_chosen(
    shape: Shape,
    input: Seq<u8>,
    h: History,
    limits: SearchLimits,
) -> Seq<Operation>
    decreases input.len() - h.out.len(),
{
    let op = chosen(input, h, limits);
    let after = advanced(h, op);
    if h.out.len() < after.out.len() <= input.len() {
        seq![op] + all_chosen(shape, input, after, limits)
    } else {
        Seq::empty()
    }
}

/// What is chosen spells out the input.
pub proof fn lemma_all_chosen(shape: Shape, input: Seq<u8>, h: History, limits: SearchLimits)
    requires
        shape_ok(shape),
        shape.dict <= 0xffff_ffff,
        limits.length == 273,
        limits.window == shape.dict,
        reps_ok(shape, h),
        h.out.len() <= input.len(),
        h.out == input.take(h.out.len() as int),
    ensures
        spells(shape, h, all_chosen(shape, input, h, limits), input),
        h.out.len() < input.len() ==> all_chosen(shape, input, h, limits) == seq![
            chosen(input, h, limits),
        ] + all_chosen(shape, input, advanced(h, chosen(input, h, limits)), limits),
        h.out.len() == input.len() ==> all_chosen(shape, input, h, limits) == Seq::<
            Operation,
        >::empty(),
    decreases input.len() - h.out.len(),
{
    let op = chosen(input, h, limits);
    let after = advanced(h, op);
    if h.out.len() < input.len() {
        lemma_chosen(shape, input, h, limits);
        lemma_continues(shape, h, op, input);
        lemma_all_chosen(shape, input, after, limits);
        let all = all_chosen(shape, input, h, limits);
        assert(all.drop_first() =~= all_chosen(shape, input, after, limits));
    } else {
        if op is Literal {
        } else {
            crate::codecs::zlib::inflate::lemma_copy_match_len(
                h.out,
                crate::codecs::lzma::operations::operation_distance(h, op) + 1,
                operation_length(op) as nat,
            );
        }
    }
}

/// The stream that the encoder makes of `input`: the chosen operations and the end marker.
pub open spec fn lzma_stream(input: Seq<u8>, props: LzmaProps) -> Seq<u8> {
    let shape = props.shape();
    let ops = all_chosen(shape, input, no_history(), search_limits(props));
    let spelled = put_operations(shape, first_writer(shape), no_history(), ops);
    stream_bytes(put_end_marker(shape, spelled, history_after(no_history(), ops)).interval)
}

/// The fault that a defect of a stream is reported as.
pub open spec fn fault_of(defect: Defect) -> Fault {
    match defect {
        Defect::Truncated => Fault::TruncatedStream,
        Defect::LiteralDistance { .. } => Fault::LiteralPrecedesOutput,
        Defect::MatchDistance { .. } => Fault::MatchPrecedesWindow,
        Defect::MatchExceedsOutput { .. } => Fault::OutputExceedsLength,
        Defect::EndMarker => Fault::EarlyEndMarker,
    }
}

/// What a stream with valid properties decodes to, given that it must be `expected` bytes.
pub open spec fn content(data: Seq<u8>, props: LzmaProps, expected: int) -> Result<Seq<u8>, Fault> {
    match first_place(data) {
        None => Err(Fault::RangePrefix),
        Some(place) => match steps(
            props.shape(),
            first_reader(props.shape(), false, data, place),
            no_history(),
            expected,
        ) {
            Err(defect) => Err(fault_of(defect)),
            Ok(out) => Ok(out),
        },
    }
}

/// What a stream with the given property bytes decodes to.
pub open spec fn unlzma(data: Seq<u8>, properties: Seq<u8>, expected: int) -> Result<
    Seq<u8>,
    Fault,
> {
    if properties[0] >= 225 {
        Err(Fault::PropertiesByte)
    } else {
        content(data, properties_of(properties, 0, 0).with_dictionary(), expected)
    }
}

/// Decoding what was encoded gives back the input: LZMA streams lose nothing.
pub proof fn lemma_lzma_round_trip(input: Seq<u8>, props: LzmaProps)
    requires
        props.valid(),
    ensures
        content(lzma_stream(input, props), props, input.len() as int) == Ok::<Seq<u8>, Fault>(input),
{
    let shape = props.shape();
    let limits = search_limits(props);
    let h = no_history();
    let ops = all_chosen(shape, input, h, limits);
    let first = first_writer(shape);
    assert(input.take(0) =~= Seq::<u8>::empty());
    lemma_all_chosen(shape, input, h, limits);
    lemma_first_writer(shape);
    lemma_put_operations_ok(shape, first, h, ops, input);
    let spelled = put_operations(shape, first, h, ops);
    let data = lzma_stream(input, props);
    lemma_end_marker(shape, data, spelled, history_after(h, ops));
    lemma_stream_bytes(put_end_marker(shape, spelled, history_after(h, ops)).interval);
    lemma_operations_read_back(shape, false, data, first, h, ops, input);
    lemma_first_place(shape, false, data);
}

/// Where more bytes are expected than went in, decoding fails at the end marker.
pub proof fn lemma_lzma_early_end(input: Seq<u8>, props: LzmaProps, expected: int)
    requires
        props.valid(),
        expected > input.len(),
    ensures
        content(lzma_stream(input, props), props, expected) == Err::<Seq<u8>, Fault>(
            Fault::EarlyEndMarker,
        ),
{
    let shape = props.shape();
    let limits = search_limits(props);
    let h = no_history();
    let ops = all_chosen(shape, input, h, limits);
    let first = first_writer(shape);
    assert(input.take(0) =~= Seq::<u8>::empty());
    lemma_all_chosen(shape, input, h, limits);
    lemma_first_writer(shape);
    lemma_put_operations_ok(shape, first, h, ops, input);
    let spelled = put_operations(shape, first, h, ops);
    let data = lzma_stream(input, props);
    lemma_end_marker(shape, data, spelled, history_after(h, ops));
    lemma_stream_bytes(put_end_marker(shape, spelled, history_after(h, ops)).interval);
    lemma_early_end(shape, false, data, first, h, ops, input, expected);
    lemma_first_place(shape, false, data);
}

/// Encoding `input` under valid properties and decoding the stream with the property bytes
/// gives back the input.
pub proof fn lemma_properties_carry(input: Seq<u8>, props: LzmaProps)
    requires
        props.valid(),
    ensures
        unlzma(lzma_stream(input, props), property_bytes(props), input.len() as int) == Ok::<
            Seq<u8>,
            Fault,
        >(input),
{
    lemma_lzma_round_trip(input, props);
    lemma_properties_round_trip(props);
    lemma_properties_round_trip(LzmaProps { fb: 0, mc: 0, ..props });
    assert(property_bytes(LzmaProps { fb: 0, mc: 0, ..props }) =~= property_bytes(props));
}

/// The longest repetition of one of the last distances, as length and index.
fn find_rep(input: &[u8], position: usize, reps: (u32, u32, u32, u32)) -> (best: (usize, usize))
    requires
        position < input@.len(),
    ensures
        (best.0 as int, best.1 as int) == best_rep(
            input@,
            position as int,
            reps_view(reps),
            0,
            (0, 0),
        ),
        best.0 <= 273,
        best.1 < 4,
{
    let size: usize = input.len();
    let limit: usize = if size - position < 273 {
        size - position
    } else {
        273
    };
    let all: [u32; 4] = [reps.0, reps.1, reps.2, reps.3];
    let mut best_length: usize = 0;
    let mut best_index: usize = 0;
    let mut index: usize = 0;
    while index < 4
        invariant
            index <= 4,
            position < size,
            size == input@.len(),
            limit == longest(input@, position as int),
            best_length <= 273,
            best_index < 4,
            all@ == seq![reps.0, reps.1, reps.2, reps.3],
            best_rep(input@, position as int, reps_view(reps), 0, (0, 0)) == best_rep(
                input@,
                position as int,
                reps_view(reps),
                index as int,
                (best_length as int, best_index as int),
            ),
        decreases 4 - index,
    {
        let distance: u64 = all[index] as u64 + 1;
        assert(reps_view(reps)[index as int] == all@[index as int]);
        if distance <= position as u64 {
            let length: usize = match_length(
                input,
                position - distance as usize,
                position,
                limit,
            );
            if length > best_length {
                best_length = length;
                best_index = index;
            }
        }
        index += 1;
    }
    (best_length, best_index)
}

/// The operation that the greedy encoder chooses at `position`.
fn choose_action(
    input: &[u8],
    position: usize,
    reps: (u32, u32, u32, u32),
    limits: SearchLimits,
    head: &Vec<usize>,
    chain: &Vec<usize>,
    Ghost(h): Ghost<History>,
) -> (action: Action)
    requires
        position < input@.len(),
        h.out.len() == position,
        h.reps == reps_view(reps),
        limits.window <= 0xffff_ffff,
        chained(input@, position as int, head@, chain@),
    ensures
        action@ == chosen(input@, h, limits),
{
    let (length, distance) = find_match(input, position, limits, head, chain);
    let (rep_len, rep_index) = find_rep(input, position, reps);
    if rep_len >= 2 && rep_len >= length {
        Action::Rep { index: rep_index, length: rep_len }
    } else if rep_index == 0 && rep_len == 1 && length < 3 {
        Action::ShortRep
    } else if length >= 3 {
        Action::Match { length, distance: (distance - 1) as u32 }
    } else {
        Action::Literal(input[position])
    }
}

/// Encodes `input` with an end marker, reusing the storage of `output`.
pub fn encode_checked_with_buffer(input: &[u8], props: &LzmaProps, output: Vec<u8>) -> (result:
    Result<Vec<u8>, Fault>)
    ensures
        !props.contexts_ok() ==> result == Err::<Vec<u8>, Fault>(Fault::ContextOptions),
        props.contexts_ok() ==> result is Ok && result->Ok_0@ == lzma_stream(
            input@,
            props.with_dictionary(),
        ),
{
    let props = match props.checked() {
        Ok(props) => props,
        Err(fault) => return Err(fault),
    };
    let shape = StreamShape {
        lc: props.lc,
        lp: props.lp,
        pb: props.pb,
        dict_size: props.dict_size,
    };
    let limits = SearchLimits {
        length: 273,
        window: props.dict_size as usize,
        attempts: if props.mc == 0 {
            1
        } else {
            props.mc as usize
        },
        nice: if props.fb < 5 {
            5
        } else if props.fb > 273 {
            273
        } else {
            props.fb as usize
        },
    };
    let mut probs = shape.models();
    let mut encoder = RangeEncoder::with_output(output);
    let mut state: usize = 0;
    let mut reps: (u32, u32, u32, u32) = (0, 0, 0, 0);
    let (mut head, mut chain) = new_chains(input.len(), Ghost(input@));
    let mut position: usize = 0;
    let ghost mut h = no_history();
    let ghost ops = all_chosen(shape.shape(), input@, no_history(), limits);
    let ghost spelled = put_operations(
        shape.shape(),
        first_writer(shape.shape()),
        no_history(),
        ops,
    );
    let ghost last = history_after(no_history(), ops);
    proof {
        assert(input@.take(0) =~= Seq::<u8>::empty());
        assert(reps_view(reps) =~= h.reps);
        lemma_first_writer(shape.shape());
    }
    while position < input.len()
        invariant
            position <= input@.len(),
            shape_ok(shape.shape()),
            shape.shape().dict <= 0xffff_ffff,
            limits.length == 273,
            limits.window == shape.shape().dict,
            in_order(encoder, probs@),
            probs@.len() == model_count(shape.shape()),
            h == (History {
                state: state as int,
                reps: reps_view(reps),
                out: input@.take(position as int),
            }),
            reps_ok(shape.shape(), h),
            chained(input@, position as int, head@, chain@),
            spelled == put_operations(
                shape.shape(),
                writer_of(encoder, probs@),
                h,
                all_chosen(shape.shape(), input@, h, limits),
            ),
            last == history_after(h, all_chosen(shape.shape(), input@, h, limits)),
        decreases input.len() - position,
    {
        let ghost before = h;
        let action = choose_action(input, position, reps, limits, &head, &chain, Ghost(h));
        proof {
            lemma_chosen(shape.shape(), input@, h, limits);
            lemma_continues(shape.shape(), h, action@, input@);
            lemma_all_chosen(shape.shape(), input@, h, limits);
            let all = all_chosen(shape.shape(), input@, h, limits);
            assert(all.drop_first() =~= all_chosen(
                shape.shape(),
                input@,
                advanced(h, action@),
                limits,
            ));
        }
        encode_operation(
            &mut encoder,
            &mut probs,
            &shape,
            state,
            reps.0,
            input,
            position,
            action,
            Ghost(h),
        );
        let length: usize = match action {
            Action::Literal(_) => {
                state = update_literal_state(state);
                1
            },
            Action::ShortRep => {
                state = update_short_rep_state(state);
                1
            },
            Action::Rep { index, length } => {
                reps = move_rep(reps, index);
                state = update_rep_state(state);
                length
            },
            Action::Match { length, distance } => {
                reps = (distance, reps.0, reps.1, reps.2);
                state = update_match_state(state);
                length
            },
        };
        let end: usize = position + length;
        while position < end
            invariant
                position <= end <= input@.len(),
                chained(input@, position as int, head@, chain@),
            decreases end - position,
        {
            insert_position(input, position, &mut head, &mut chain);
            position += 1;
        }
        proof {
            h = advanced(before, action@);
            assert(reps_view(reps) =~= h.reps);
        }
    }
    proof {
        lemma_all_chosen(shape.shape(), input@, h, limits);
        assert(h.out =~= input@);
    }
    encode_end_marker(&mut encoder, &mut probs, &shape, state, position, Ghost(h));
    Ok(encoder.finish())
}

/// The fault that a defect of a stream is reported as.
fn report_defect(defect: Defect) -> (fault: Fault)
    ensures
        fault == fault_of(defect),
{
    match defect {
        Defect::Truncated => Fault::TruncatedStream,
        Defect::LiteralDistance { .. } => Fault::LiteralPrecedesOutput,
        Defect::MatchDistance { .. } => Fault::MatchPrecedesWindow,
        Defect::MatchExceedsOutput { .. } => Fault::OutputExceedsLength,
        Defect::EndMarker => Fault::EarlyEndMarker,
    }
}

/// Decodes a stream with the given property bytes to exactly `out_len` bytes, reusing the
/// storage of `output`.
pub fn decode_raw_with_buffer(
    input: &[u8],
    properties: &[u8; 5],
    out_len: usize,
    output: Vec<u8>,
) -> (result: Result<Vec<u8>, Fault>)
    ensures
        match unlzma(input@, properties@, out_len as int) {
            Ok(out) => result is Ok && result->Ok_0@ == out,
            Err(fault) => result == Err::<Vec<u8>, Fault>(fault),
        },
{
    let props = match LzmaProps::parse(properties, 0, 0) {
        Some(props) => props,
        None => return Err(Fault::PropertiesByte),
    };
    let shape = StreamShape {
        lc: props.lc,
        lp: props.lp,
        pb: props.pb,
        dict_size: props.dict_size,
    };
    let decoder = match RangeDecoder::new(input, false) {
        Some(decoder) => decoder,
        None => return Err(Fault::RangePrefix),
    };
    let mut output = output;
    output.clear();
    assert(output@ =~= Seq::<u8>::empty());
    match decode_operations(decoder, &shape, out_len, output) {
        Ok(output) => Ok(output),
        Err(defect) => Err(report_defect(defect)),
    }
}

} // verus!
