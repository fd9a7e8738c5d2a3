//! Where the chunks of a new archive lie in its volumes.

use vstd::prelude::*;

use crate::archive::{boundary_after, physical_length};
use crate::compat::{physical, placeholder_length};
use crate::format::Chunk;
use crate::metadata::holds;

verus! {

/// Where a chunk ends.
pub open spec fn chunk_end(chunks: Seq<Chunk>, payloads: Seq<Seq<u8>>, k: int) -> int {
    chunks[k].offset + payloads[k].len()
}

/// A chunk that is written begins where another ends, or the volume ends there.
pub open spec fn followed(
    volumes: Seq<Seq<u8>>,
    chunks: Seq<Chunk>,
    payloads: Seq<Seq<u8>>,
    stamps: Seq<int>,
    now: int,
    a: int,
) -> bool {
    ||| chunk_end(chunks, payloads, a) == volumes[chunks[a].file as int].len()
    ||| exists|b: int|
        0 <= b < chunks.len() && stamps[b] < now && chunks[b].file == chunks[a].file
            && (#[trigger] payloads[b]).len() > 0 && chunks[b].offset == chunk_end(
            chunks,
            payloads,
            a,
        )
}

/// A chunk lies in its volume.
pub open spec fn lies(
    volumes: Seq<Seq<u8>>,
    chunks: Seq<Chunk>,
    payloads: Seq<Seq<u8>>,
    floor: int,
    a: int,
) -> bool {
    &&& chunks[a].file < volumes.len()
    &&& holds(volumes[chunks[a].file as int], chunks[a].offset as int, payloads[a])
    &&& chunks[a].file == 0 ==> chunks[a].offset >= floor
}

/// One chunk ends before the other begins.
pub open spec fn apart(chunks: Seq<Chunk>, payloads: Seq<Seq<u8>>, a: int, b: int) -> bool {
    chunks[a].file == chunks[b].file ==> chunk_end(chunks, payloads, a) <= chunks[b].offset
}

/// The chunks whose turn was before `now` lie one behind the other in their volumes.
pub open spec fn laid(
    volumes: Seq<Seq<u8>>,
    chunks: Seq<Chunk>,
    payloads: Seq<Seq<u8>>,
    stamps: Seq<int>,
    now: int,
    floor: int,
) -> bool {
    &&& payloads.len() == chunks.len()
    &&& stamps.len() == chunks.len()
    &&& volumes.len() > 0
    &&& floor <= volumes[0].len()
    &&& forall|a: int|
        0 <= a < chunks.len() && #[trigger] stamps[a] < now ==> lies(
            volumes,
            chunks,
            payloads,
            floor,
            a,
        ) && followed(volumes, chunks, payloads, stamps, now, a)
    &&& forall|a: int, b: int|
        0 <= a < chunks.len() && 0 <= b < chunks.len() && #[trigger] stamps[a] < #[trigger] stamps[b]
            < now ==> apart(chunks, payloads, a, b)
}

/// A turn in which nothing is written.
pub proof fn lemma_idle(
    volumes: Seq<Seq<u8>>,
    chunks: Seq<Chunk>,
    payloads: Seq<Seq<u8>>,
    stamps: Seq<int>,
    now: int,
    later: int,
    floor: int,
)
    requires
        laid(volumes, chunks, payloads, stamps, now, floor),
        now <= later,
        forall|a: int| 0 <= a < stamps.len() ==> !(now <= #[trigger] stamps[a] < later),
    ensures
        laid(volumes, chunks, payloads, stamps, later, floor),
{
    assert forall|a: int| 0 <= a < chunks.len() && #[trigger] stamps[a] < later implies followed(
        volumes,
        chunks,
        payloads,
        stamps,
        later,
        a,
    ) && lies(volumes, chunks, payloads, floor, a) by {
        assert(stamps[a] < now);
        if chunk_end(chunks, payloads, a) != volumes[chunks[a].file as int].len() {
            let b = choose|b: int|
                0 <= b < chunks.len() && stamps[b] < now && chunks[b].file == chunks[a].file
                    && (#[trigger] payloads[b]).len() > 0 && chunks[b].offset == chunk_end(
                    chunks,
                    payloads,
                    a,
                );
            assert(stamps[b] < later && payloads[b].len() > 0);
        }
    }
    assert forall|a: int, b: int|
        0 <= a < chunks.len() && 0 <= b < chunks.len() && #[trigger] stamps[a] < #[trigger] stamps[b]
            < later implies apart(chunks, payloads, a, b) by {
        assert(stamps[a] < now && stamps[b] < now);
    }
}

/// Writing the chunk whose turn it is to the end of its volume.
pub proof fn lemma_write(
    volumes: Seq<Seq<u8>>,
    chunks: Seq<Chunk>,
    payloads: Seq<Seq<u8>>,
    stamps: Seq<int>,
    floor: int,
    k: int,
    chunk: Chunk,
    payload: Seq<u8>,
)
    requires
        0 <= k < chunks.len(),
        laid(volumes, chunks, payloads, stamps, stamps[k], floor),
        forall|a: int| 0 <= a < stamps.len() && a != k ==> #[trigger] stamps[a] != stamps[k],
        chunk.file < volumes.len(),
        chunk.offset == volumes[chunk.file as int].len(),
    ensures
        laid(
            volumes.update(chunk.file as int, volumes[chunk.file as int] + payload),
            chunks.update(k, chunk),
            payloads.update(k, payload),
            stamps,
            stamps[k] + 1,
            floor,
        ),
{
    let now = stamps[k];
    let v = chunk.file as int;
    let after = volumes.update(v, volumes[v] + payload);
    let list = chunks.update(k, chunk);
    let parts = payloads.update(k, payload);
    assert forall|a: int| 0 <= a < list.len() && #[trigger] stamps[a] < now + 1 implies lies(
        after,
        list,
        parts,
        floor,
        a,
    ) && followed(after, list, parts, stamps, now + 1, a) by {
        if a == k {
            assert(after[v].subrange(
                chunk.offset as int,
                chunk.offset + payload.len(),
            ) =~= payload);
            assert(chunk_end(list, parts, k) == after[v].len());
        } else {
            assert(stamps[a] < now);
            assert(lies(volumes, chunks, payloads, floor, a));
            let f = chunks[a].file as int;
            let start = chunks[a].offset as int;
            let end = start + payloads[a].len();
            assert(after[f].subrange(start, end) =~= volumes[f].subrange(start, end));
            assert(followed(volumes, chunks, payloads, stamps, now, a));
            if chunk_end(chunks, payloads, a) == volumes[f].len() {
                if f == v && payload.len() > 0 {
                    assert(stamps[k] < now + 1 && list[k].file == list[a].file && parts[k].len()
                        > 0 && list[k].offset == chunk_end(list, parts, a));
                } else if f == v {
                    assert(after[v] =~= volumes[v]);
                }
            } else {
                let b = choose|b: int|
                    0 <= b < chunks.len() && stamps[b] < now && chunks[b].file == chunks[a].file
                        && (#[trigger] payloads[b]).len() > 0 && chunks[b].offset == chunk_end(
                        chunks,
                        payloads,
                        a,
                    );
                assert(b != k);
                assert(stamps[b] < now + 1 && list[b].file == list[a].file && parts[b].len() > 0
                    && list[b].offset == chunk_end(list, parts, a));
            }
        }
    }
    assert forall|a: int, b: int|
        0 <= a < list.len() && 0 <= b < list.len() && #[trigger] stamps[a] < #[trigger] stamps[b]
            < now + 1 implies apart(list, parts, a, b) by {
        assert(stamps[a] < now);
        assert(a != k);
        assert(lies(volumes, chunks, payloads, floor, a));
        if b != k {
            assert(apart(chunks, payloads, a, b));
        }
    }
}

/// Writing over what lies before the chunks changes nothing about them.
pub proof fn lemma_overwrite(
    volumes: Seq<Seq<u8>>,
    chunks: Seq<Chunk>,
    payloads: Seq<Seq<u8>>,
    stamps: Seq<int>,
    now: int,
    floor: int,
    first: Seq<u8>,
)
    requires
        laid(volumes, chunks, payloads, stamps, now, floor),
        first.len() == volumes[0].len(),
        forall|i: int| floor <= i < first.len() ==> #[trigger] first[i] == volumes[0][i],
    ensures
        laid(volumes.update(0, first), chunks, payloads, stamps, now, floor),
{
    let after = volumes.update(0, first);
    assert forall|a: int| 0 <= a < chunks.len() && #[trigger] stamps[a] < now implies lies(
        after,
        chunks,
        payloads,
        floor,
        a,
    ) && followed(after, chunks, payloads, stamps, now, a) by {
        assert(lies(volumes, chunks, payloads, floor, a));
        assert(followed(volumes, chunks, payloads, stamps, now, a));
        let f = chunks[a].file as int;
        let start = chunks[a].offset as int;
        let end = start + payloads[a].len();
        if f == 0 {
            assert(after[f].subrange(start, end) =~= volumes[f].subrange(start, end));
        }
    }
}

/// The real length of a chunk is that of what was written for it.
pub proof fn lemma_real_length(
    volumes: Seq<Seq<u8>>,
    chunks: Seq<Chunk>,
    payloads: Seq<Seq<u8>>,
    stamps: Seq<int>,
    now: int,
    floor: int,
    k: int,
)
    requires
        laid(volumes, chunks, payloads, stamps, now, floor),
        0 <= k < chunks.len(),
        forall|a: int| 0 <= a < chunks.len() ==> #[trigger] stamps[a] < now,
        forall|a: int, b: int|
            0 <= a < chunks.len() && 0 <= b < chunks.len() && a != b ==> #[trigger] stamps[a]
                != #[trigger] stamps[b],
        forall|a: int|
            0 <= a < chunks.len() ==> physical(#[trigger] chunks[a]) == (payloads[a].len() > 0),
        forall|a: int| 0 <= a < chunks.len() ==> (#[trigger] payloads[a]).len() <= u32::MAX,
        !placeholder_length(chunks[k]) || !physical(chunks[k]) ==> chunks[k].compressed_length
            == payloads[k].len(),
    ensures
        physical_length(chunks, chunks[k], volumes[chunks[k].file as int].len() as int)
            == payloads[k].len(),
{
    let f = chunks[k].file;
    let size = volumes[f as int].len() as int;
    let end = chunk_end(chunks, payloads, k);
    assert(stamps[k] < now);
    assert(lies(volumes, chunks, payloads, floor, k));
    assert(followed(volumes, chunks, payloads, stamps, now, k));
    if physical(chunks[k]) {
        assert forall|b: int|
            0 <= b < chunks.len() && (#[trigger] chunks[b]).file == f && physical(chunks[b])
                && chunks[k].offset < chunks[b].offset implies end <= chunks[b].offset by {
            assert(stamps[b] < now);
            if stamps[k] < stamps[b] {
                assert(apart(chunks, payloads, k, b));
            } else {
                assert(b != k);
                assert(stamps[b] < stamps[k]);
                assert(apart(chunks, payloads, b, k));
                assert(payloads[b].len() > 0);
            }
        }
        if end == size {
            lemma_boundary(chunks, f, chunks[k].offset, size, end, chunks.len(), -1);
        } else {
            let b = choose|b: int|
                0 <= b < chunks.len() && stamps[b] < now && chunks[b].file == chunks[k].file
                    && (#[trigger] payloads[b]).len() > 0 && chunks[b].offset == chunk_end(
                    chunks,
                    payloads,
                    k,
                );
            assert(physical(chunks[b]));
            lemma_boundary(chunks, f, chunks[k].offset, size, end, chunks.len(), b);
        }
    }
}

/// The nearest boundary, where it is known.
proof fn lemma_boundary(
    chunks: Seq<Chunk>,
    volume: u16,
    offset: u32,
    size: int,
    end: int,
    n: nat,
    b: int,
)
    requires
        n <= chunks.len(),
        offset < end <= size,
        forall|a: int|
            0 <= a < chunks.len() && (#[trigger] chunks[a]).file == volume && physical(chunks[a])
                && offset < chunks[a].offset ==> end <= chunks[a].offset,
        b >= 0 ==> b < chunks.len() && chunks[b].file == volume && physical(chunks[b])
            && chunks[b].offset == end,
        b < 0 ==> end == size,
    ensures
        end <= boundary_after(chunks, volume, offset, size, n) <= size,
        b < n ==> boundary_after(chunks, volume, offset, size, n) == end,
    decreases n,
{
    if n > 0 {
        lemma_boundary(chunks, volume, offset, size, end, (n - 1) as nat, b);
        let chunk = chunks[n - 1];
        if chunk.file == volume && physical(chunk) && offset < chunk.offset {
            assert(end <= chunk.offset);
        }
    }
}

} // verus!
