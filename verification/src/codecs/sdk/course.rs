//! The operations that an input is coded as.

use vstd::arithmetic::power2::pow2;
use vstd::prelude::*;

use crate::codecs::lzma::coder::Writer;
use crate::codecs::lzma::operations::{
    advanced, first_writer, no_history, position_state, put_operation, History, Operation, Shape,
};
use crate::codecs::lzma::options::LzmaProps;
use crate::codecs::sdk::choice::{caught_up, optimum, Field, Tariff};
use crate::codecs::sdk::ledger::{
    empty_ledger, first_ledger, match_counted, refreshed, rep_counted, Ledger,
};
use crate::codecs::sdk::matchfinder::first_finder;
use crate::codecs::sdk::search::{after_reading, Seeker};

verus! {

/// The encoder between two operations.
#[verifier::ext_equal]
pub struct Stage {
    pub writer: Writer,
    pub h: History,
    pub ledger: Ledger,
    pub seeker: Seeker,
}

/// The encoder after an operation.
pub open spec fn op_coded(shape: Shape, stage: Stage, op: Operation) -> Stage {
    let writer = put_operation(shape, stage.writer, stage.h, op);
    let pos_state = position_state(shape, stage.h.out.len() as int);
    Stage {
        writer,
        h: advanced(stage.h, op),
        ledger: match op {
            Operation::Rep { .. } => rep_counted(stage.ledger, pos_state, writer.probs),
            Operation::Match { distance, .. } => match_counted(
                stage.ledger,
                pos_state,
                distance,
                writer.probs,
            ),
            _ => stage.ledger,
        },
        seeker: stage.seeker,
    }
}

/// The encoder after several operations.
pub open spec fn all_coded(shape: Shape, stage: Stage, ops: Seq<Operation>) -> Stage
    decreases ops.len(),
{
    if ops.len() == 0 {
        stage
    } else {
        all_coded(shape, op_coded(shape, stage, ops[0]), ops.drop_first())
    }
}

pub open spec fn tariff_of(shape: Shape, stage: Stage) -> Tariff {
    Tariff {
        shape,
        probs: stage.writer.probs,
        aligns: stage.ledger.aligns,
        slots: stage.ledger.slots,
        distances: stage.ledger.distances,
        lens: stage.ledger.lens.rows,
        rep_lens: stage.ledger.rep_lens.rows,
    }
}

/// What the next search goes by.
pub open spec fn field_of(shape: Shape, input: Seq<u8>, fast: int, stage: Stage) -> Field {
    Field { input, start: stage.h.out.len() as int, fast, tariff: tariff_of(shape, stage) }
}

/// The last distances of a history.
pub open spec fn distances_of(h: History) -> (u32, u32, u32, u32) {
    (h.reps[0] as u32, h.reps[1] as u32, h.reps[2] as u32, h.reps[3] as u32)
}

/// The next operations, and the encoder after them.
pub open spec fn next_stage(shape: Shape, input: Seq<u8>, fast: int, stage: Stage) -> (
    Seq<Operation>,
    Stage,
) {
    let (ops, seeker) = optimum(
        field_of(shape, input, fast, stage),
        stage.seeker,
        stage.h.state,
        distances_of(stage.h),
    );
    let coded = all_coded(shape, Stage { seeker, ..stage }, ops);
    (
        ops,
        if seeker.ahead == 0 {
            Stage { ledger: refreshed(coded.ledger, coded.writer.probs), ..coded }
        } else {
            coded
        },
    )
}

/// The operations for the rest of the input.
pub open spec fn course(shape: Shape, input: Seq<u8>, fast: int, stage: Stage) -> Seq<Operation>
    decreases input.len() - stage.h.out.len(),
{
    if stage.h.out.len() >= input.len() {
        Seq::empty()
    } else {
        let (ops, after) = next_stage(shape, input, fast, stage);
        if stage.h.out.len() < after.h.out.len() <= input.len() {
            ops + course(shape, input, fast, after)
        } else {
            ops
        }
    }
}

/// The encoder after the first byte, which is always a literal.
pub open spec fn begun(shape: Shape, input: Seq<u8>, stage: Stage) -> Stage {
    op_coded(
        shape,
        Stage { seeker: caught_up(after_reading(stage.seeker), 1), ..stage },
        Operation::Literal(input[0]),
    )
}

/// The encoder with all prices made.
pub open spec fn priced_up(shape: Shape, stage: Stage) -> Stage {
    Stage { ledger: first_ledger(stage.ledger, stage.writer.probs, pow2(shape.pb)), ..stage }
}

/// The operations for the whole input.
pub open spec fn whole_course(shape: Shape, input: Seq<u8>, fast: int, stage: Stage) -> Seq<Operation> {
    let ready = priced_up(shape, stage);
    if input.len() == 0 {
        Seq::empty()
    } else {
        seq![Operation::Literal(input[0])] + course(
            shape,
            input,
            fast,
            begun(shape, input, ready),
        )
    }
}

/// How many slot pairs a dictionary needs, from `half` on.
pub open spec fn slot_pairs(dict_size: u32, half: nat) -> nat
    decreases 32 - half,
{
    if half < 32 && dict_size > pow2(half) {
        slot_pairs(dict_size, half + 1)
    } else {
        half
    }
}

/// The encoder before anything was done.
pub open spec fn first_stage(shape: Shape, input: Seq<u8>, props: LzmaProps) -> Stage {
    Stage {
        writer: first_writer(shape),
        h: no_history(),
        ledger: empty_ledger(2 * slot_pairs(props.dict_size, 7) as int, props.fb as int),
        seeker: Seeker {
            finder: first_finder(input, props),
            matches: Seq::empty(),
            num_avail: 0,
            longest: 0,
            ahead: 0,
        },
    }
}

/// The operations that an input is coded as.
pub open spec fn operations_of(shape: Shape, input: Seq<u8>, props: LzmaProps) -> Seq<Operation> {
    whole_course(shape, input, props.fb as int, first_stage(shape, input, props))
}

} // verus!
