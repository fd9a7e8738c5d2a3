//! The common buffer that the chunks of an archive share.

use vstd::arithmetic::power2::pow2;
use vstd::prelude::*;

use crate::codecs::dz::decoding::decode_common_payload;
use crate::codecs::dz::error::DzError;
use crate::codecs::dz::fault::DzFault;
use crate::codecs::dz::model::CommonModels;
use crate::codecs::dz::settings::RangeSettings;
use crate::codecs::dz::stream::{
    chunk_holding, common_at, common_tables, payload_size, payload_start, recorded_context,
    recorded_tables, uniform_context, uniform_tables, Common,
};
use crate::codecs::dz::tokens::{sized, tables_fit};

verus! {

/// The contents of a list of byte strings.
pub open spec fn contents(chunks: Seq<Vec<u8>>) -> Seq<Seq<u8>> {
    Seq::new(chunks.len(), |i: int| chunks[i]@)
}

/// The first fault of the chunks from number `n` on.
pub open spec fn chunk_fault(common: Common, n: nat) -> Option<DzFault>
    decreases common.chunks.len() - n,
{
    if n >= common.chunks.len() {
        None
    } else {
        let size = common.chunks[n as int].len();
        if 0 < size < common.settings.prefix_size() {
            Some(
                DzFault::ChunkSmallerThanPrefix {
                    size: size as usize,
                    prefix: common.settings.prefix_size() as usize,
                },
            )
        } else if payload_start(common, n + 1) > usize::MAX {
            Some(DzFault::CommonSizeOverflow)
        } else {
            chunk_fault(common, n + 1)
        }
    }
}

/// What stands in the way of a common buffer.
pub open spec fn common_fault(common: Common) -> Option<DzFault> {
    if !common.settings.valid() {
        Some(DzFault::InvalidSettings)
    } else if common.chunks.len() == 0 {
        Some(DzFault::EmptyCommonBuffer)
    } else {
        chunk_fault(common, 0)
    }
}

/// The common buffer of an archive, in one or more chunks.
#[derive(Debug)]
pub struct DzCommonBuffer {
    chunks: Vec<Vec<u8>>,
    payload_starts: Vec<usize>,
    prefix_size: usize,
    settings: RangeSettings,
}

impl View for DzCommonBuffer {
    type V = Common;

    closed spec fn view(&self) -> Common {
        Common { settings: self.settings, chunks: contents(self.chunks@) }
    }
}

impl DzCommonBuffer {
    #[verifier::type_invariant]
    spec fn sound(self) -> bool {
        &&& self.settings.valid()
        &&& self.prefix_size == self.settings.prefix_size()
        &&& self.chunks@.len() > 0
        &&& self.payload_starts@.len() == self.chunks@.len() + 1
        &&& forall|i: int|
            0 <= i < self.payload_starts@.len() ==> #[trigger] self.payload_starts@[i]
                == payload_start(self@, i as nat)
        &&& forall|i: int|
            0 <= i < self.chunks@.len() ==> {
                ||| (#[trigger] self.chunks@[i])@.len() == 0
                ||| self.chunks@[i]@.len() >= self.prefix_size
            }
    }

    /// Builds the buffer of the given chunks.
    pub fn new(settings: RangeSettings, chunks: Vec<Vec<u8>>) -> (result: Result<
        DzCommonBuffer,
        DzError,
    >)
        ensures
            ({
                let common = Common { settings, chunks: contents(chunks@) };
                match common_fault(common) {
                    None => result matches Ok(buffer) && buffer@ == common,
                    Some(fault) => result matches Err(error) && error@ == fault.report(),
                }
            }),
    {
        match DzCommonBuffer::build(settings, chunks) {
            Ok(buffer) => Ok(buffer),
            Err(fault) => Err(fault.error()),
        }
    }

    /// Builds the buffer of the given chunks.
    pub fn build(settings: RangeSettings, chunks: Vec<Vec<u8>>) -> (result: Result<
        DzCommonBuffer,
        DzFault,
    >)
        ensures
            ({
                let common = Common { settings, chunks: contents(chunks@) };
                match common_fault(common) {
                    None => result matches Ok(buffer) && buffer@ == common,
                    Some(fault) => result == Err::<DzCommonBuffer, DzFault>(fault),
                }
            }),
    {
        let ghost common = Common { settings, chunks: contents(chunks@) };
        if !settings.is_valid() {
            return Err(DzFault::InvalidSettings);
        }
        if chunks.len() == 0 {
            return Err(DzFault::EmptyCommonBuffer);
        }
        let prefix_size: usize = settings.combuf_static_prefix_size();
        let mut payload_starts: Vec<usize> = Vec::with_capacity(1);
        payload_starts.push(0);
        let mut last: usize = 0;
        let mut i: usize = 0;
        while i < chunks.len()
            invariant
                i <= chunks@.len(),
                settings.valid(),
                prefix_size == settings.prefix_size(),
                common == (Common { settings, chunks: contents(chunks@) }),
                chunks@.len() > 0,
                chunk_fault(common, 0) == chunk_fault(common, i as nat),
                payload_starts@.len() == i + 1,
                last == payload_start(common, i as nat),
                forall|k: int|
                    0 <= k <= i ==> #[trigger] payload_starts@[k] == payload_start(
                        common,
                        k as nat,
                    ),
                forall|k: int|
                    0 <= k < i ==> {
                        ||| (#[trigger] chunks@[k])@.len() == 0
                        ||| chunks@[k]@.len() >= prefix_size
                    },
            decreases chunks@.len() - i,
        {
            let size: usize = chunks[i].len();
            assert(common.chunks[i as int].len() == size);
            assert(payload_start(common, (i + 1) as nat) == payload_start(common, i as nat)
                + payload_size(settings, common.chunks[i as int]));
            if size < prefix_size && size != 0 {
                return Err(DzFault::ChunkSmallerThanPrefix { size, prefix: prefix_size });
            }
            if size != 0 {
                let payload: usize = size - prefix_size;
                if payload > usize::MAX - last {
                    return Err(DzFault::CommonSizeOverflow);
                }
                last = last + payload;
            }
            payload_starts.push(last);
            i += 1;
        }
        let ghost starts = payload_starts@;
        let buffer = DzCommonBuffer { chunks, payload_starts, prefix_size, settings };
        Ok(buffer)
    }

    /// The number of bytes that references can point into.
    pub fn payload_len(&self) -> (size: usize)
        ensures
            size == payload_start(self@, self@.chunks.len()),
    {
        proof {
            use_type_invariant(self);
        }
        self.payload_starts[self.payload_starts.len() - 1]
    }

    /// Decodes `length` bytes from an offset on; also tells how far the decoder read.
    pub fn decode_at(&self, absolute_offset: usize, length: usize) -> (result: Result<
        (Vec<u8>, usize),
        DzFault,
    >)
        ensures
            match common_at(self@, absolute_offset as int, length as int) {
                Ok((bytes, consumed)) => result matches Ok((output, count)) && output@ == bytes
                    && count == consumed,
                Err(fault) => result == Err::<(Vec<u8>, usize), DzFault>(fault),
            },
    {
        proof {
            use_type_invariant(self);
        }
        let ghost common = self@;
        let mut index: usize = 0;
        while index < self.chunks.len() && !(self.payload_starts[index] <= absolute_offset
            && absolute_offset < self.payload_starts[index + 1])
            invariant
                index <= self.chunks@.len(),
                common == self@,
                self.payload_starts@.len() == self.chunks@.len() + 1,
                forall|i: int|
                    0 <= i < self.payload_starts@.len() ==> #[trigger] self.payload_starts@[i]
                        == payload_start(common, i as nat),
                chunk_holding(common, absolute_offset as int, 0) == chunk_holding(
                    common,
                    absolute_offset as int,
                    index as nat,
                ),
            decreases self.chunks@.len() - index,
        {
            assert(self.payload_starts@[index as int] == payload_start(common, index as nat));
            assert(self.payload_starts@[index + 1] == payload_start(common, (index + 1) as nat));
            index += 1;
        }
        if index >= self.chunks.len() {
            return Err(
                DzFault::OffsetBeyondBuffer { offset: absolute_offset, size: self.payload_len() },
            );
        }
        let chunk = &self.chunks[index];
        let size: usize = chunk.len();
        proof {
            assert(self.payload_starts@[index as int] == payload_start(common, index as nat));
            assert(self.payload_starts@[index + 1] == payload_start(common, (index + 1) as nat));
            assert(common.chunks[index as int] == chunk@);
            assert(payload_start(common, (index + 1) as nat) == payload_start(
                common,
                index as nat,
            ) + payload_size(self.settings, chunk@));
            assert(size >= self.prefix_size);
        }
        let local_offset: usize = absolute_offset - self.payload_starts[index];
        let start: usize = self.prefix_size + local_offset;
        let payload = vstd::slice::slice_subrange(chunk.as_slice(), start, size);
        assert(payload@ =~= chunk@.skip(start as int));
        proof {
            lemma_common_tables_fit(self.settings, chunk@);
        }
        let initial = if self.prefix_size == 0 {
            match CommonModels::uniform(self.settings) {
                Ok(models) => models,
                Err(fault) => return Err(fault),
            }
        } else {
            let prefix = vstd::slice::slice_subrange(chunk.as_slice(), 0, self.prefix_size);
            assert(prefix@ =~= chunk@.take(self.prefix_size as int));
            match CommonModels::from_static_prefix(prefix, self.settings) {
                Ok(models) => models,
                Err(fault) => return Err(fault),
            }
        };
        decode_common_payload(payload, length, self.settings, &initial)
    }
}

/// The models of a common buffer have the shape that the settings ask for.
pub proof fn lemma_common_tables_fit(settings: RangeSettings, chunk: Seq<u8>)
    requires
        settings.valid(),
        chunk.len() >= settings.prefix_size(),
    ensures
        tables_fit(common_tables(settings, chunk), settings),
{
    let symbols = pow2(settings.offset_table_size as nat);
    if settings.prefix_size() == 0 {
        let tables = uniform_tables(settings);
        assert forall|i: int| 0 <= i < tables.offsets.len() implies sized(
            #[trigger] tables.offsets[i],
            symbols,
        ) by {
            assert(tables.offsets[i] == uniform_context(settings));
        }
    } else {
        let prefix = chunk.take(settings.prefix_size());
        let tables = recorded_tables(prefix, settings);
        let contexts = settings.offset_contexts as int;
        let count = settings.offset_tables as int;
        assert(contexts * count * symbols >= 0) by (nonlinear_arith)
            requires
                contexts >= 0,
                count >= 0,
                symbols >= 0,
        ;
        assert forall|i: int| 0 <= i < tables.offsets.len() implies sized(
            #[trigger] tables.offsets[i],
            symbols,
        ) by {
            let row = tables.offsets[i];
            assert(row == recorded_context(prefix, settings, i));
            assert forall|j: int| 0 <= j < row.len() implies (
            #[trigger] row[j]).frequencies.len() == symbols by {
                crate::codecs::dz::model::lemma_table_end(i, j, contexts, count, symbols as int);
                assert((i * count + j) * symbols >= 0) by (nonlinear_arith)
                    requires
                        i >= 0,
                        j >= 0,
                        count >= 0,
                        symbols >= 0,
                ;
            }
        }
    }
}

} // verus!
