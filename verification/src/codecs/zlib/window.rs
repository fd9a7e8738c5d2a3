//! Comparing and sliding the window of a compressor.

use vstd::prelude::*;
use vstd::slice::slice_subrange;

verus! {

/// The first `n` elements, if there are that many.
pub fn first_chunk<T>(slice: &[T], n: usize) -> (chunk: Option<&[T]>)
    ensures
        slice@.len() < n ==> chunk is None,
        slice@.len() >= n ==> chunk is Some && chunk->Some_0@ == slice@.take(n as int),
{
    if slice.len() < n {
        None
    } else {
        let chunk = slice_subrange(slice, 0, n);
        assert(chunk@ =~= slice@.take(n as int));
        Some(chunk)
    }
}

/// How many of the first 256 bytes agree before the first difference.
pub fn compare256(src0: &[u8], src1: &[u8]) -> (length: usize)
    requires
        src0@.len() >= 256,
        src1@.len() >= 256,
    ensures
        length <= 256,
        src0@.take(length as int) == src1@.take(length as int),
        length < 256 ==> src0@[length as int] != src1@[length as int],
{
    let mut length: usize = 0;
    assert(src0@.take(0) =~= src1@.take(0));
    while length < 256 && src0[length] == src1[length]
        invariant
            length <= 256,
            src0@.len() >= 256,
            src1@.len() >= 256,
            src0@.take(length as int) == src1@.take(length as int),
        decreases 256 - length,
    {
        assert(src0@.take(length + 1) =~= src0@.take(length as int).push(src0@[length as int]));
        assert(src1@.take(length + 1) =~= src1@.take(length as int).push(src1@[length as int]));
        length += 1;
    }
    length
}

/// How many of the first 256 bytes of two slices agree before the first difference.
pub fn compare256_slice(src0: &[u8], src1: &[u8]) -> (length: usize)
    requires
        src0@.len() >= 256,
        src1@.len() >= 256,
    ensures
        length <= 256,
        src0@.take(length as int) == src1@.take(length as int),
        length < 256 ==> src0@[length as int] != src1@[length as int],
{
    compare256(src0, src1)
}

/// How many of the first 256 bytes are `byte` before the first that is not.
pub fn compare256_rle_slice(byte: u8, src: &[u8]) -> (length: usize)
    requires
        src@.len() >= 256,
    ensures
        length <= 256,
        forall|i: int| 0 <= i < length ==> #[trigger] src@[i] == byte,
        length < 256 ==> src@[length as int] != byte,
{
    let mut length: usize = 0;
    while length < 256 && src[length] == byte
        invariant
            length <= 256,
            src@.len() >= 256,
            forall|i: int| 0 <= i < length ==> #[trigger] src@[i] == byte,
        decreases 256 - length,
    {
        length += 1;
    }
    length
}

/// The hash chains of a window.
#[derive(Debug, Clone)]
pub struct State {
    pub w_size: usize,
    pub head: Vec<u16>,
    pub prev: Vec<u16>,
}

/// Positions after the window has moved by `wsize`: those that have left it become zero.
pub open spec fn slid(table: Seq<u16>, wsize: u16) -> Seq<u16> {
    Seq::new(
        table.len(),
        |i: int|
            if table[i] < wsize {
                0u16
            } else {
                (table[i] - wsize) as u16
            },
    )
}

/// Moves all positions of both tables back by the size of the window.
pub fn slide_hash(state: &mut State)
    ensures
        final(state).w_size == old(state).w_size,
        final(state).head@ == slid(old(state).head@, old(state).w_size as u16),
        final(state).prev@ == slid(old(state).prev@, old(state).w_size as u16),
{
    let wsize: u16 = #[verifier::truncate] (state.w_size as u16);
    slide_hash_chain(&mut state.head, wsize);
    slide_hash_chain(&mut state.prev, wsize);
}

/// Moves all positions of a table back by `wsize`.
pub fn slide_hash_chain(table: &mut Vec<u16>, wsize: u16)
    ensures
        final(table)@ == slid(old(table)@, wsize),
{
    let mut i: usize = 0;
    while i < table.len()
        invariant
            i <= table@.len(),
            table@.len() == old(table)@.len(),
            forall|k: int| 0 <= k < i ==> #[trigger] table@[k] == slid(old(table)@, wsize)[k],
            forall|k: int| i <= k < table@.len() ==> #[trigger] table@[k] == old(table)@[k],
        decreases table@.len() - i,
    {
        let entry: u16 = table[i];
        table.set(i, entry.saturating_sub(wsize));
        i += 1;
    }
    assert(table@ =~= slid(old(table)@, wsize));
}

} // verus!
