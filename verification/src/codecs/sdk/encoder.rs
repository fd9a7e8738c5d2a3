//! The encoder that follows cheap ways.

use vstd::arithmetic::power2::lemma2_to64;
use vstd::prelude::*;

use crate::codecs::lzma::coder::{lemma_stream_bytes, stream_bytes, Writer};
use crate::codecs::lzma::decoding::{
    move_rep, reps_view, update_literal_state, update_match_state, update_rep_state,
    update_short_rep_state, Action, StreamShape,
};
use crate::codecs::lzma::encoding::{encode_end_marker, encode_operation, in_order, writer_of};
use crate::codecs::lzma::operations::{
    advanced, continues, first_writer, history_after, lemma_continues, lemma_early_end,
    lemma_end_marker, lemma_first_place, lemma_first_writer, lemma_operations_read_back,
    lemma_put_operations_ok, no_history, operation_length, position_state, put_end_marker,
    put_operation, put_operations, spells, Defect, History, Operation, Shape,
};
use crate::codecs::lzma::options::{lemma_properties_round_trip, property_bytes, LzmaProps};
use crate::codecs::lzma::range::RangeEncoder;
use crate::codecs::lzma::symbols::{LEN, REP_LEN};
use crate::codecs::sdk::costs::Costs;
use crate::codecs::sdk::choice::{blank, optimum};
use crate::codecs::sdk::course::{
    all_coded, begun, course, distances_of, field_of, first_stage, next_stage, op_coded,
    operations_of, priced_up, slot_pairs, whole_course, Stage,
};
use crate::codecs::sdk::decoder::{error_of, raw_content, recorded_shape, DecodeError};
use crate::codecs::sdk::ledger::{length_counted, refreshed, rep_counted, Ledger};
use crate::codecs::sdk::matchfinder::{Match, MatchFinder};
use crate::codecs::sdk::optimum::{fresh, get_optimum, Frame};
use crate::codecs::sdk::parse::{
    lemma_applies, plan, reps_after, reps_fine, runs, total, Optimal, NUM_OPTS,
};
use crate::codecs::sdk::prices::{len_price_update, len_price_update_position, Prices};
use crate::codecs::sdk::props::{lemma_recorded_dictionary, recorded_dictionary, recorded_size};
use crate::codecs::sdk::search::{Search, INPUT_LIMIT};
use crate::math::{lemma_pow2_monotonic, power_of_two};

verus! {

/// The properties can be used to encode an input of the given length.
pub open spec fn encodable(props: LzmaProps, length: nat) -> bool {
    &&& props.contexts_ok()
    &&& 1 <= props.dict_size < u32::MAX
    &&& 2 * (props.dict_size + 1) <= usize::MAX
    &&& 2 <= props.fb <= 273
    &&& props.mc >= 1
    &&& length <= INPUT_LIMIT
}

/// The property bytes that go with a stream.
pub open spec fn stream_properties(props: LzmaProps) -> Seq<u8> {
    property_bytes(LzmaProps { dict_size: recorded_dictionary(props.dict_size), ..props })
}

/// The shape of a stream.
pub open spec fn stream_shape(props: LzmaProps) -> Shape {
    Shape {
        lc: props.lc as nat,
        lp: props.lp as nat,
        pb: props.pb as nat,
        dict: recorded_dictionary(props.dict_size) as int,
    }
}

/// The stream that operations are coded as.
pub open spec fn coded(shape: Shape, ops: Seq<Operation>, marker: bool) -> Seq<u8> {
    let spelled = put_operations(shape, first_writer(shape), no_history(), ops);
    stream_bytes(
        (if marker {
            put_end_marker(shape, spelled, history_after(no_history(), ops))
        } else {
            spelled
        }).interval,
    )
}

/// A stream of operations that spell out the input, with or without an end marker, decodes to
/// the input.
pub proof fn lemma_coded_round_trip(
    input: Seq<u8>,
    props: LzmaProps,
    ops: Seq<Operation>,
    marker: bool,
)
    requires
        props.contexts_ok(),
        spells(stream_shape(props), no_history(), ops, input),
    ensures
        raw_content(
            coded(stream_shape(props), ops, marker),
            stream_properties(props),
            input.len() as int,
        ) == Ok::<Seq<u8>, DecodeError>(input),
{
    let shape = stream_shape(props);
    let h = no_history();
    let first = first_writer(shape);
    let data = coded(shape, ops, marker);
    let recorded = LzmaProps { dict_size: recorded_dictionary(props.dict_size), ..props };
    lemma_recorded_dictionary(props.dict_size);
    assert(input.take(0) =~= Seq::<u8>::empty());
    lemma_first_writer(shape);
    lemma_put_operations_ok(shape, first, h, ops, input);
    let spelled = put_operations(shape, first, h, ops);
    lemma_end_marker(shape, data, spelled, history_after(h, ops));
    if marker {
        lemma_stream_bytes(put_end_marker(shape, spelled, history_after(h, ops)).interval);
    } else {
        lemma_stream_bytes(spelled.interval);
    }
    lemma_operations_read_back(shape, true, data, first, h, ops, input);
    lemma_first_place(shape, true, data);
    lemma_properties_round_trip(LzmaProps { fb: 0, mc: 0, ..recorded });
    assert(property_bytes(LzmaProps { fb: 0, mc: 0, ..recorded }) =~= stream_properties(props));
    assert(recorded_shape(stream_properties(props)) == shape);
}

/// A stream with the end marker is refused there, where more bytes are expected than went in.
pub proof fn lemma_coded_early_end(
    input: Seq<u8>,
    props: LzmaProps,
    ops: Seq<Operation>,
    expected: int,
)
    requires
        props.contexts_ok(),
        spells(stream_shape(props), no_history(), ops, input),
        expected > input.len(),
    ensures
        raw_content(
            coded(stream_shape(props), ops, true),
            stream_properties(props),
            expected,
        ) == Err::<Seq<u8>, DecodeError>(error_of(Defect::EndMarker)),
{
    let shape = stream_shape(props);
    let h = no_history();
    let first = first_writer(shape);
    let data = coded(shape, ops, true);
    let recorded = LzmaProps { dict_size: recorded_dictionary(props.dict_size), ..props };
    lemma_recorded_dictionary(props.dict_size);
    assert(input.take(0) =~= Seq::<u8>::empty());
    lemma_first_writer(shape);
    lemma_put_operations_ok(shape, first, h, ops, input);
    let spelled = put_operations(shape, first, h, ops);
    lemma_end_marker(shape, data, spelled, history_after(h, ops));
    lemma_stream_bytes(put_end_marker(shape, spelled, history_after(h, ops)).interval);
    lemma_early_end(shape, true, data, first, h, ops, input, expected);
    lemma_first_place(shape, true, data);
    lemma_properties_round_trip(LzmaProps { fb: 0, mc: 0, ..recorded });
    assert(property_bytes(LzmaProps { fb: 0, mc: 0, ..recorded }) =~= stream_properties(props));
    assert(recorded_shape(stream_properties(props)) == shape);
}

/// The encoder between two operations.
struct Encoder<'a> {
    coder: RangeEncoder,
    costs: Costs,
    search: Search<'a>,
    opt: Vec<Optimal>,
    input: &'a [u8],
    window: Ghost<int>,
    fast: usize,
    state: usize,
    reps: (u32, u32, u32, u32),
    position: usize,
    ops: Ghost<Seq<Operation>>,
}

/// What the encoder has coded so far.
#[verifier::opaque]
spec fn progress(
    shape: Shape,
    input: Seq<u8>,
    ops: Seq<Operation>,
    writer: Writer,
    h: History,
) -> bool {
    &&& writer == put_operations(shape, first_writer(shape), no_history(), ops)
    &&& h == history_after(no_history(), ops)
    &&& forall|rest: Seq<Operation>| #[trigger]
        spells(shape, h, rest, input) ==> spells(shape, no_history(), ops + rest, input)
}

proof fn lemma_progress(
    shape: Shape,
    input: Seq<u8>,
    ops: Seq<Operation>,
    writer: Writer,
    h: History,
    op: Operation,
)
    requires
        progress(shape, input, ops, writer, h),
        continues(shape, h, op, input),
    ensures
        progress(
            shape,
            input,
            ops.push(op),
            put_operation(shape, writer, h, op),
            advanced(h, op),
        ),
{
    reveal(progress);
    lemma_put_push(shape, first_writer(shape), no_history(), ops, op);
    assert forall|rest: Seq<Operation>| #[trigger]
        spells(shape, advanced(h, op), rest, input) implies spells(
        shape,
        no_history(),
        ops.push(op) + rest,
        input,
    ) by {
        let more = seq![op] + rest;
        assert(more.drop_first() =~= rest);
        assert(spells(shape, h, more, input));
        assert(ops + more =~= ops.push(op) + rest);
    }
}

proof fn lemma_put_push(
    shape: Shape,
    w: Writer,
    h: History,
    ops: Seq<Operation>,
    op: Operation,
)
    ensures
        put_operations(shape, w, h, ops.push(op)) == put_operation(
            shape,
            put_operations(shape, w, h, ops),
            history_after(h, ops),
            op,
        ),
        history_after(h, ops.push(op)) == advanced(history_after(h, ops), op),
    decreases ops.len(),
{
    if ops.len() == 0 {
        reveal_with_fuel(put_operations, 2);
        reveal_with_fuel(history_after, 2);
        assert(ops.push(op).drop_first() =~= Seq::<Operation>::empty());
    } else {
        lemma_put_push(
            shape,
            put_operation(shape, w, h, ops[0]),
            advanced(h, ops[0]),
            ops.drop_first(),
            op,
        );
        assert(ops.push(op).drop_first() =~= ops.drop_first().push(op));
    }
}

impl<'a> Encoder<'a> {
    spec fn shape(&self) -> Shape {
        self.costs.shape.shape()
    }

    spec fn history(&self) -> History {
        History {
            state: self.state as int,
            reps: reps_view(self.reps),
            out: self.input@.take(self.position as int),
        }
    }

    /// The encoder, as the choice of operations sees it.
    spec fn stage(&self) -> Stage {
        Stage {
            writer: writer_of(self.coder, self.costs.probs@),
            h: self.history(),
            ledger: self.costs.prices.ledger(),
            seeker: self.search@,
        }
    }

    /// Everything but the place of the match finder.
    spec fn wf(&self) -> bool {
        &&& self.costs.sound()
        &&& in_order(self.coder, self.costs.probs@)
        &&& 14 <= self.costs.prices.dist_table_size
        &&& fresh(self.opt@)
        &&& self.position <= self.input@.len() <= INPUT_LIMIT
        &&& 2 <= self.fast <= 273
        &&& 1 <= self.window@ < u32::MAX
        &&& self.window@ <= self.shape().dict
        &&& self.state < 12
        &&& self.position > 0 ==> reps_fine(
            self.window@,
            self.position as int,
            reps_view(self.reps),
        )
        &&& progress(
            self.shape(),
            self.input@,
            self.ops@,
            writer_of(self.coder, self.costs.probs@),
            self.history(),
        )
        &&& self.search.sound()
        &&& self.search.input() == self.input@
        &&& self.search.finder.window() == self.window@
        &&& self.search.finder.match_max_len == self.fast
    }

    /// Nothing but what an operation moves differs.
    spec fn same_setup(&self, other: &Encoder<'a>) -> bool {
        &&& self.shape() == other.shape()
        &&& self.search == other.search
        &&& self.input == other.input
        &&& self.window == other.window
        &&& self.fast == other.fast
    }

    #[verifier::rlimit(40)]
    fn new(input: &'a [u8], props: &LzmaProps) -> (encoder: Encoder<'a>)
        requires
            encodable(*props, input@.len()),
        ensures
            encoder.wf(),
            encoder.shape() == stream_shape(*props),
            encoder.input == input,
            encoder.position == 0,
            encoder.state == 0,
            encoder.reps == (0u32, 0u32, 0u32, 0u32),
            encoder.search.at(0),
            encoder.search.ahead == 0,
            encoder.ops@ == Seq::<Operation>::empty(),
            encoder.fast == props.fb,
            encoder.stage() == first_stage(stream_shape(*props), input@, *props),
    {
        let mut half: u32 = 7;
        while half < 32 && props.dict_size as u64 > power_of_two(half as usize)
            invariant
                7 <= half <= 32,
                slot_pairs(props.dict_size, 7) == slot_pairs(props.dict_size, half as nat),
            ensures
                7 <= half <= 32,
                half == slot_pairs(props.dict_size, 7),
            decreases 32 - half,
        {
            half += 1;
        }
        proof {
            lemma_recorded_dictionary(props.dict_size);
        }
        let shape = StreamShape {
            lc: props.lc,
            lp: props.lp,
            pb: props.pb,
            dict_size: recorded_size(props.dict_size),
        };
        let probs = shape.models();
        let mut opt: Vec<Optimal> = Vec::with_capacity(NUM_OPTS);
        while opt.len() < NUM_OPTS
            invariant
                opt@.len() <= NUM_OPTS,
                forall|j: int| 0 <= j < opt@.len() ==> #[trigger] opt@[j] == blank(),
            decreases NUM_OPTS - opt@.len(),
        {
            opt.push(Optimal::default());
        }
        let encoder = Encoder {
            coder: RangeEncoder::with_output(Vec::new()),
            costs: Costs { shape, probs, prices: Prices::new(2 * half, props.fb) },
            search: Search {
                finder: MatchFinder::new(input, props),
                matches: Vec::new(),
                num_avail: 0,
                longest: 0,
                ahead: 0,
            },
            opt,
            input,
            window: Ghost(props.dict_size as int),
            fast: props.fb as usize,
            state: 0,
            reps: (0, 0, 0, 0),
            position: 0,
            ops: Ghost(Seq::empty()),
        };
        proof {
            reveal(progress);
            assert(encoder.history().reps =~= no_history().reps);
            assert(encoder.history().out =~= no_history().out);
            assert(encoder.search.matches@ =~= Seq::empty());
            assert(encoder.stage() =~= first_stage(stream_shape(*props), input@, *props));
            assert(progress(
                encoder.shape(),
                input@,
                Seq::empty(),
                writer_of(encoder.coder, probs@),
                encoder.history(),
            )) by {
                assert forall|rest: Seq<Operation>| #[trigger]
                    spells(encoder.shape(), no_history(), rest, input@) implies spells(
                    encoder.shape(),
                    no_history(),
                    Seq::<Operation>::empty() + rest,
                    input@,
                ) by {
                    assert(Seq::<Operation>::empty() + rest =~= rest);
                }
            }
        }
        encoder
    }

    /// Brings all prices up to date before the first byte.
    fn init_prices(&mut self)
        requires
            old(self).wf(),
        ensures
            final(self).wf(),
            final(self).same_setup(old(self)),
            final(self).position == old(self).position,
            final(self).state == old(self).state,
            final(self).reps == old(self).reps,
            final(self).ops == old(self).ops,
            final(self).stage() == priced_up(old(self).shape(), old(self).stage()),
    {
        proof {
            lemma_pow2_monotonic(self.costs.shape.pb as nat, 4);
            lemma2_to64();
        }
        let count: usize = power_of_two(self.costs.shape.pb as usize) as usize;
        self.costs.prices.fill_distances_prices(&self.costs.probs);
        self.costs.prices.fill_align_prices(&self.costs.probs);
        len_price_update(
            &mut self.costs.prices.len_enc,
            count,
            &self.costs.probs,
            LEN,
            &self.costs.prices.pp,
        );
        len_price_update(
            &mut self.costs.prices.rep_len_enc,
            count,
            &self.costs.probs,
            REP_LEN,
            &self.costs.prices.pp,
        );
    }

    /// Counts a length that was coded, and brings its prices up to date every now and then.
    fn count_length(&mut self, repeated: bool, position: usize)
        requires
            old(self).wf(),
        ensures
            final(self).wf(),
            final(self).same_setup(old(self)),
            final(self).position == old(self).position,
            final(self).reps == old(self).reps,
            final(self).ops == old(self).ops,
            final(self).stage() == (Stage {
                ledger: {
                    let pos_state = position_state(old(self).shape(), position as int);
                    let ledger = old(self).stage().ledger;
                    let probs = old(self).costs.probs@;
                    if repeated {
                        rep_counted(ledger, pos_state, probs)
                    } else {
                        Ledger {
                            lens: length_counted(ledger.lens, pos_state, probs, LEN as int),
                            ..ledger
                        }
                    }
                },
                ..old(self).stage()
            }),
    {
        let pos_state: usize = self.costs.shape.pos_state(position);
        if repeated {
            let counter: u32 = self.costs.prices.rep_len_enc.counters[pos_state];
            if counter > 1 {
                self.costs.prices.rep_len_enc.counters.set(pos_state, counter - 1);
            } else {
                len_price_update_position(
                    &mut self.costs.prices.rep_len_enc,
                    pos_state,
                    &self.costs.probs,
                    REP_LEN,
                    &self.costs.prices.pp,
                );
            }
        } else {
            let counter: u32 = self.costs.prices.len_enc.counters[pos_state];
            if counter > 1 {
                self.costs.prices.len_enc.counters.set(pos_state, counter - 1);
            } else {
                len_price_update_position(
                    &mut self.costs.prices.len_enc,
                    pos_state,
                    &self.costs.probs,
                    LEN,
                    &self.costs.prices.pp,
                );
            }
        }
    }

    /// Codes an operation.
    #[verifier::rlimit(40)]
    fn code(&mut self, action: Action)
        requires
            old(self).wf(),
            old(self).position < old(self).input@.len(),
            continues(old(self).shape(), old(self).history(), action@, old(self).input@),
            reps_fine(
                old(self).window@,
                old(self).position + operation_length(action@),
                reps_after(reps_view(old(self).reps), action@),
            ),
        ensures
            final(self).wf(),
            final(self).same_setup(old(self)),
            final(self).position == old(self).position + operation_length(action@),
            reps_view(final(self).reps) == reps_after(reps_view(old(self).reps), action@),
            final(self).ops@ == old(self).ops@.push(action@),
            final(self).stage() == op_coded(old(self).shape(), old(self).stage(), action@),
    {
        let position: usize = self.position;
        let size: usize = self.input.len();
        let ghost h = self.history();
        proof {
            lemma_continues(self.shape(), h, action@, self.input@);
            lemma_progress(
                self.shape(),
                self.input@,
                self.ops@,
                writer_of(self.coder, self.costs.probs@),
                h,
                action@,
            );
        }
        encode_operation(
            &mut self.coder,
            &mut self.costs.probs,
            &self.costs.shape,
            self.state,
            self.reps.0,
            self.input,
            position,
            action,
            Ghost(h),
        );
        let length: usize = match action {
            Action::Literal(_) => {
                self.state = update_literal_state(self.state);
                1
            },
            Action::ShortRep => {
                self.state = update_short_rep_state(self.state);
                1
            },
            Action::Rep { index, length } => {
                self.reps = move_rep(self.reps, index);
                self.state = update_rep_state(self.state);
                length
            },
            Action::Match { length, distance } => {
                self.reps = (distance, self.reps.0, self.reps.1, self.reps.2);
                self.state = update_match_state(self.state);
                length
            },
        };
        self.position = position + length;
        self.ops = Ghost(self.ops@.push(action@));
        proof {
            assert(reps_view(self.reps) =~= reps_after(reps_view(old(self).reps), action@));
            assert(self.history() == advanced(h, action@));
        }
        match action {
            Action::Rep { .. } => {
                self.count_length(true, position);
            },
            Action::Match { distance, .. } => {
                self.count_length(false, position);
                if distance >= 128 {
                    self.costs.prices.align_price_count =
                        self.costs.prices.align_price_count.saturating_add(1);
                }
                self.costs.prices.match_price_count =
                    self.costs.prices.match_price_count.saturating_add(1);
            },
            _ => {},
        }
    }

    /// Codes the steps of a way, which are given in reverse order.
    #[verifier::rlimit(40)]
    fn follow(&mut self, path: Vec<Action>)
        requires
            old(self).wf(),
            1 <= old(self).position,
            runs(
                old(self).input@,
                old(self).window@,
                old(self).position as int,
                reps_view(old(self).reps),
                plan(path@),
            ),
        ensures
            final(self).wf(),
            final(self).same_setup(old(self)),
            final(self).position == old(self).position + total(plan(path@)),
            final(self).ops@ == old(self).ops@ + plan(path@),
            final(self).stage() == all_coded(old(self).shape(), old(self).stage(), plan(path@)),
    {
        let ghost steps = plan(path@);
        let mut path = path;
        assert(self.ops@ + plan(path@) =~= old(self).ops@ + steps);
        let ghost whole = total(plan(path@));
        while path.len() > 0
            invariant
                self.wf(),
                self.same_setup(old(self)),
                1 <= self.position,
                runs(
                    self.input@,
                    self.window@,
                    self.position as int,
                    reps_view(self.reps),
                    plan(path@),
                ),
                self.position + total(plan(path@)) == old(self).position + whole,
                self.ops@ + plan(path@) == old(self).ops@ + steps,
                all_coded(old(self).shape(), old(self).stage(), steps) == all_coded(
                    self.shape(),
                    self.stage(),
                    plan(path@),
                ),
            ensures
                path@.len() == 0,
            decreases path@.len(),
        {
            let ghost before = plan(path@);
            match path.pop() {
                Some(action) => {
                    proof {
                        assert(before[0] == action@);
                        assert(plan(path@) =~= before.drop_first());
                        lemma_applies(
                            self.shape(),
                            self.input@,
                            self.window@,
                            self.history(),
                            action@,
                        );
                    }
                    let ghost done = self.ops@;
                    self.code(action);
                    assert(self.ops@ + plan(path@) =~= done + before);
                },
                None => {},
            }
        }
        assert(self.ops@ + plan(path@) =~= self.ops@);
    }

    /// Brings prices up to date that have become old.
    fn refresh_prices(&mut self)
        requires
            old(self).wf(),
        ensures
            final(self).wf(),
            final(self).same_setup(old(self)),
            final(self).position == old(self).position,
            final(self).ops == old(self).ops,
            final(self).stage() == (Stage {
                ledger: refreshed(old(self).stage().ledger, old(self).costs.probs@),
                ..old(self).stage()
            }),
    {
        if self.costs.prices.match_price_count >= 128 {
            self.costs.prices.fill_distances_prices(&self.costs.probs);
        }
        if self.costs.prices.align_price_count >= 16 {
            self.costs.prices.fill_align_prices(&self.costs.probs);
        }
    }

    /// Finds the next way.
    #[verifier::rlimit(40)]
    fn next_way(&mut self) -> (path: Vec<Action>)
        requires
            old(self).wf(),
            1 <= old(self).position < old(self).input@.len(),
            old(self).search.at(old(self).position as int),
        ensures
            final(self).wf(),
            final(self).shape() == old(self).shape(),
            final(self).input == old(self).input,
            final(self).position == old(self).position,
            total(plan(path@)) >= 1,
            runs(
                final(self).input@,
                final(self).window@,
                final(self).position as int,
                reps_view(final(self).reps),
                plan(path@),
            ),
            final(self).search.at(old(self).position + total(plan(path@))),
            final(self).ops == old(self).ops,
            final(self).fast == old(self).fast,
            (plan(path@), final(self).search@) == optimum(
                field_of(
                    old(self).shape(),
                    old(self).input@,
                    old(self).fast as int,
                    old(self).stage(),
                ),
                old(self).stage().seeker,
                old(self).stage().h.state,
                distances_of(old(self).stage().h),
            ),
            final(self).stage() == (Stage { seeker: final(self).search@, ..old(self).stage() }),
    {
        let frame = Frame {
            input: self.input,
            start: self.position,
            fast: self.fast,
            costs: &self.costs,
            dict: Ghost(self.window@),
        };
        proof {
            assert(frame.field() =~= field_of(
                self.shape(),
                self.input@,
                self.fast as int,
                self.stage(),
            ));
            assert(distances_of(self.stage().h) == self.reps);
        }
        get_optimum(&frame, &mut self.search, &mut self.opt, self.state, self.reps)
    }

    /// Codes the whole input.
    #[verifier::rlimit(40)]
    fn run(self, write_end_marker: bool) -> (stream: Vec<u8>)
        requires
            self.wf(),
            self.position == 0,
            self.state == 0,
            self.reps == (0u32, 0u32, 0u32, 0u32),
            self.search.at(0),
            self.search.ahead == 0,
            self.ops@ == Seq::<Operation>::empty(),
        ensures
            ({
                let ops = whole_course(self.shape(), self.input@, self.fast as int, self.stage());
                &&& spells(self.shape(), no_history(), ops, self.input@)
                &&& stream@ == coded(self.shape(), ops, write_end_marker)
            }),
    {
        let ghost shape = self.shape();
        let ghost fast = self.fast as int;
        let ghost whole = whole_course(shape, self.input@, fast, self.stage());
        let mut encoder = self;
        encoder.init_prices();
        let size: usize = encoder.input.len();
        if size > 0 {
            encoder.code_first();
        }
        proof {
            if size > 0 {
                assert(encoder.ops@ =~= seq![Operation::Literal(self.input@[0])]);
            } else {
                assert(encoder.ops@ + course(shape, self.input@, fast, encoder.stage()) =~= whole);
            }
        }
        while encoder.position < size
            invariant
                encoder.wf(),
                encoder.shape() == self.shape(),
                encoder.input == self.input,
                encoder.fast == self.fast,
                shape == self.shape(),
                fast == self.fast,
                whole == whole_course(shape, self.input@, fast, self.stage()),
                whole == encoder.ops@ + course(shape, self.input@, fast, encoder.stage()),
                size == self.input@.len(),
                encoder.position < size ==> 1 <= encoder.position,
                encoder.position < size ==> encoder.search.at(encoder.position as int),
            decreases size - encoder.position,
        {
            let ghost before = encoder;
            let path = encoder.next_way();
            encoder.follow(path);
            if encoder.search.ahead == 0 {
                encoder.refresh_prices();
            }
            proof {
                let (ops, after) = next_stage(shape, self.input@, fast, before.stage());
                assert(ops == plan(path@));
                assert(after == encoder.stage());
                let rest = course(shape, self.input@, fast, after);
                assert(before.ops@ + (ops + rest) =~= (before.ops@ + ops) + rest);
            }
        }
        assert(encoder.ops@ =~= whole);
        encoder.finish(write_end_marker)
    }

    /// Codes the first byte, which is always a literal.
    fn code_first(&mut self)
        requires
            old(self).wf(),
            old(self).position == 0,
            old(self).state == 0,
            old(self).reps == (0u32, 0u32, 0u32, 0u32),
            old(self).search.at(0),
            old(self).search.ahead == 0,
            old(self).input@.len() > 0,
        ensures
            final(self).wf(),
            final(self).shape() == old(self).shape(),
            final(self).input == old(self).input,
            final(self).position == 1,
            final(self).search.at(1),
            final(self).fast == old(self).fast,
            final(self).ops@ == old(self).ops@.push(Operation::Literal(old(self).input@[0])),
            final(self).stage() == begun(old(self).shape(), old(self).input@, old(self).stage()),
    {
        self.search.read_match_distances();
        let first = Action::Literal(self.input[0]);
        self.code(first);
        self.search.ahead = 0;
    }

    /// Ends the stream.
    fn finish(self, write_end_marker: bool) -> (stream: Vec<u8>)
        requires
            self.wf(),
            self.position == self.input@.len(),
        ensures
            spells(self.shape(), no_history(), self.ops@, self.input@),
            stream@ == coded(self.shape(), self.ops@, write_end_marker),
    {
        let mut coder = self.coder;
        let mut probs = self.costs.probs;
        let shape = self.costs.shape;
        let ghost h = self.history();
        let ghost ops = self.ops@;
        proof {
            reveal(progress);
            let rest = Seq::<Operation>::empty();
            assert(spells(self.shape(), h, rest, self.input@));
            assert(ops + rest =~= ops);
        }
        if write_end_marker {
            encode_end_marker(
                &mut coder,
                &mut probs,
                &shape,
                self.state,
                self.position,
                Ghost(h),
            );
        }
        coder.finish()
    }
}

/// Encodes `input` as a raw LZMA stream.
pub fn encode(input: &[u8], props: &LzmaProps) -> (stream: Vec<u8>)
    requires
        encodable(*props, input@.len()),
    ensures
        stream@ == coded(
            stream_shape(*props),
            operations_of(stream_shape(*props), input@, *props),
            false,
        ),
        spells(
            stream_shape(*props),
            no_history(),
            operations_of(stream_shape(*props), input@, *props),
            input@,
        ),
        raw_content(stream@, stream_properties(*props), input@.len() as int) == Ok::<
            Seq<u8>,
            DecodeError,
        >(input@),
        stream@[0] == 0,
{
    let encoder = Encoder::new(input, props);
    let stream = encoder.run(false);
    proof {
        let ops = operations_of(stream_shape(*props), input@, *props);
        lemma_coded_round_trip(input@, *props, ops, false);
    }
    stream
}

/// Encodes `input` as a raw LZMA stream that ends with the end marker.
pub fn encode_with_end_marker(input: &[u8], props: &LzmaProps) -> (stream: Vec<u8>)
    requires
        encodable(*props, input@.len()),
    ensures
        stream@ == coded(
            stream_shape(*props),
            operations_of(stream_shape(*props), input@, *props),
            true,
        ),
        spells(
            stream_shape(*props),
            no_history(),
            operations_of(stream_shape(*props), input@, *props),
            input@,
        ),
        raw_content(stream@, stream_properties(*props), input@.len() as int) == Ok::<
            Seq<u8>,
            DecodeError,
        >(input@),
        forall|more: int|
            more > input@.len() ==> #[trigger] raw_content(
                stream@,
                stream_properties(*props),
                more,
            ) == Err::<Seq<u8>, DecodeError>(error_of(Defect::EndMarker)),
        stream@[0] == 0,
{
    let encoder = Encoder::new(input, props);
    let stream = encoder.run(true);
    proof {
        let ops = operations_of(stream_shape(*props), input@, *props);
        lemma_coded_round_trip(input@, *props, ops, true);
        assert forall|more: int| more > input@.len() implies #[trigger] raw_content(
            stream@,
            stream_properties(*props),
            more,
        ) == Err::<Seq<u8>, DecodeError>(error_of(Defect::EndMarker)) by {
            lemma_coded_early_end(input@, *props, ops, more);
        }
    }
    stream
}

} // verus!
