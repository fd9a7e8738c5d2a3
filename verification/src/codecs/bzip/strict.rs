//! What decoding refuses: streams that are cut off, padded or of another size.

use vstd::prelude::*;

use crate::codecs::bzip::bitstream::{bit_at, bits_at, lemma_pack_holds, lemma_pack_len, pack};
use crate::codecs::bzip::block::{
    coded_at, content_at, field, length_at, lengths_at, map_at, marked, selector_at, selectors_at,
    symbols_at, tree_at, trees_at, used_at,
};
use crate::codecs::bzip::checksum::{combined, crc};
use crate::codecs::bzip::engine::{
    block_at, block_meaning, blocks_at, blocks_bits, bzip_stream, header_ok, lemma_block_position,
    lemma_blocks_position, lemma_blocks_read_back, lemma_stream_read_back, unbzip, STREAM_END_MAGIC,
};
use crate::codecs::bzip::fault::Fault;
use crate::codecs::bzip::huffman::{lemma_symbol_advances, symbol_at, symbol_from};
use crate::codecs::bzip::mtf::{feed, Front};
use crate::codecs::bzip::options::{block_size_ok, decode_workspace_size};
use crate::codecs::bzip::transform::{lemma_lead, lead, repeated, unrle1};

verus! {

/// A bit before the end does not depend on what follows.
proof fn lemma_bit_extend(data: Seq<u8>, more: Seq<u8>, p: int)
    requires
        0 <= p < 8 * data.len(),
    ensures
        bit_at(data + more, p) == bit_at(data, p),
{
    assert((data + more)[p / 8] == data[p / 8]);
}

/// Bits before the end do not depend on what follows.
proof fn lemma_bits_extend(data: Seq<u8>, more: Seq<u8>, p: int, n: nat)
    requires
        0 <= p,
        p + n <= 8 * data.len(),
    ensures
        bits_at(data + more, p, n) == bits_at(data, p, n),
    decreases n,
{
    if n > 0 {
        lemma_bits_extend(data, more, p, (n - 1) as nat);
        lemma_bit_extend(data, more, p + n - 1);
    }
}

proof fn lemma_field_extend(data: Seq<u8>, more: Seq<u8>, p: int, n: nat)
    requires
        0 <= p,
        field(data, p, n) is Ok,
    ensures
        field(data + more, p, n) == field(data, p, n),
        p + n <= 8 * data.len(),
{
    lemma_bits_extend(data, more, p, n);
}

proof fn lemma_symbol_extend(lengths: Seq<u8>, data: Seq<u8>, more: Seq<u8>, p: int, length: nat)
    requires
        0 <= p,
        length >= 1,
        symbol_from(lengths, data, p, length) is Ok,
    ensures
        symbol_from(lengths, data + more, p, length) == symbol_from(lengths, data, p, length),
    decreases 21 - length,
{
    if length <= 20 && p + length <= 8 * data.len() {
        lemma_bits_extend(data, more, p, length);
        if symbol_from(lengths, data, p, length + 1) is Ok {
            lemma_symbol_extend(lengths, data, more, p, length + 1);
        }
    }
}

proof fn lemma_marked_extend(
    data: Seq<u8>,
    more: Seq<u8>,
    q: int,
    group: int,
    low: int,
    used: Seq<u8>,
)
    requires
        0 <= q,
        0 <= low,
        q + 16 <= 8 * data.len(),
    ensures
        marked(data + more, q, group, low, used) == marked(data, q, group, low, used),
    decreases 16 - low,
{
    if low < 16 {
        lemma_bit_extend(data, more, q + low);
        lemma_marked_extend(
            data,
            more,
            q,
            group,
            low + 1,
            if bit_at(data, q + low) {
                used.push((group * 16 + low) as u8)
            } else {
                used
            },
        );
    }
}

proof fn lemma_map_extend(
    data: Seq<u8>,
    more: Seq<u8>,
    p: int,
    q: int,
    group: int,
    used: Seq<u8>,
)
    requires
        0 <= p,
        p + 16 <= q <= 8 * data.len(),
        0 <= group,
        map_at(data, p, q, group, used) is Ok,
    ensures
        map_at(data + more, p, q, group, used) == map_at(data, p, q, group, used),
        map_at(data, p, q, group, used) matches Ok((r, _)) && q <= r <= 8 * data.len(),
    decreases 16 - group,
{
    if group < 16 {
        lemma_bit_extend(data, more, p + group);
        if bit_at(data, p + group) {
            lemma_marked_extend(data, more, q, group, 0, used);
            lemma_map_extend(
                data,
                more,
                p,
                q + 16,
                group + 1,
                marked(data, q, group, 0, used),
            );
        } else {
            lemma_map_extend(data, more, p, q, group + 1, used);
        }
    }
}

proof fn lemma_selector_extend(data: Seq<u8>, more: Seq<u8>, p: int, i: int, groups: int)
    requires
        0 <= p,
        selector_at(data, p, i, groups) is Ok,
    ensures
        selector_at(data + more, p, i, groups) == selector_at(data, p, i, groups),
        selector_at(data, p, i, groups) matches Ok((_, q)) && p < q <= 8 * data.len(),
    decreases groups - i,
{
    lemma_bit_extend(data, more, p);
    if bit_at(data, p) && i + 1 < groups {
        lemma_selector_extend(data, more, p + 1, i + 1, groups);
    }
}

proof fn lemma_selectors_extend(
    data: Seq<u8>,
    more: Seq<u8>,
    p: int,
    count: nat,
    list: Seq<usize>,
    found: Seq<usize>,
)
    requires
        0 <= p <= 8 * data.len(),
        selectors_at(data, p, count, list, found) is Ok,
    ensures
        selectors_at(data + more, p, count, list, found) == selectors_at(
            data,
            p,
            count,
            list,
            found,
        ),
        selectors_at(data, p, count, list, found) matches Ok((q, _)) && p <= q <= 8 * data.len(),
    decreases count,
{
    if count > 0 {
        lemma_selector_extend(data, more, p, 0, list.len() as int);
        let (i, q) = selector_at(data, p, 0, list.len() as int)->Ok_0;
        lemma_selectors_extend(
            data,
            more,
            q,
            (count - 1) as nat,
            crate::codecs::bzip::mtf::fronted(list, i),
            found.push(list[i]),
        );
    }
}

proof fn lemma_length_extend(data: Seq<u8>, more: Seq<u8>, p: int, current: int)
    requires
        0 <= p,
        length_at(data, p, current) is Ok,
    ensures
        length_at(data + more, p, current) == length_at(data, p, current),
        length_at(data, p, current) matches Ok((_, q)) && p < q <= 8 * data.len(),
    decreases 8 * data.len() - p,
{
    lemma_bit_extend(data, more, p);
    if bit_at(data, p) {
        lemma_bit_extend(data, more, p + 1);
        let next = if bit_at(data, p + 1) {
            current - 1
        } else {
            current + 1
        };
        lemma_length_extend(data, more, p + 2, next);
    }
}

proof fn lemma_lengths_extend(
    data: Seq<u8>,
    more: Seq<u8>,
    p: int,
    count: nat,
    current: int,
    lengths: Seq<u8>,
)
    requires
        0 <= p <= 8 * data.len(),
        lengths_at(data, p, count, current, lengths) is Ok,
    ensures
        lengths_at(data + more, p, count, current, lengths) == lengths_at(
            data,
            p,
            count,
            current,
            lengths,
        ),
        lengths_at(data, p, count, current, lengths) matches Ok((q, _)) && p <= q <= 8
            * data.len(),
    decreases count,
{
    if count > 0 {
        lemma_length_extend(data, more, p, current);
        let (length, q) = length_at(data, p, current)->Ok_0;
        lemma_lengths_extend(
            data,
            more,
            q,
            (count - 1) as nat,
            length,
            lengths.push(length as u8),
        );
    }
}

proof fn lemma_trees_extend(
    data: Seq<u8>,
    more: Seq<u8>,
    p: int,
    count: nat,
    alphabet: nat,
    trees: Seq<Seq<u8>>,
)
    requires
        0 <= p <= 8 * data.len(),
        trees_at(data, p, count, alphabet, trees) is Ok,
    ensures
        trees_at(data + more, p, count, alphabet, trees) == trees_at(
            data,
            p,
            count,
            alphabet,
            trees,
        ),
        trees_at(data, p, count, alphabet, trees) matches Ok((q, _)) && p <= q <= 8 * data.len(),
    decreases count,
{
    if count > 0 {
        lemma_field_extend(data, more, p, 5);
        lemma_lengths_extend(
            data,
            more,
            p + 5,
            alphabet,
            field(data, p, 5)->Ok_0,
            Seq::empty(),
        );
        let (q, lengths) = tree_at(data, p, alphabet)->Ok_0;
        lemma_trees_extend(
            data,
            more,
            q,
            (count - 1) as nat,
            alphabet,
            trees.push(lengths),
        );
    }
}

proof fn lemma_symbols_extend(
    data: Seq<u8>,
    more: Seq<u8>,
    p: int,
    trees: Seq<Seq<u8>>,
    selectors: Seq<usize>,
    n: int,
    f: Front,
    limit: int,
)
    requires
        0 <= p,
        symbols_at(data, p, trees, selectors, n, f, limit) is Ok,
    ensures
        symbols_at(data + more, p, trees, selectors, n, f, limit) == symbols_at(
            data,
            p,
            trees,
            selectors,
            n,
            f,
            limit,
        ),
    decreases 8 * data.len() - p,
{
    let lengths = trees[selectors[n / 50] as int];
    lemma_symbol_extend(lengths, data, more, p, 1);
    lemma_symbol_advances(lengths, data, p, 1);
    let (symbol, q) = symbol_at(lengths, data, p)->Ok_0;
    let (g, ended) = feed(f, symbol, limit)->Ok_0;
    if !ended {
        lemma_symbols_extend(data, more, q, trees, selectors, n + 1, g, limit);
    }
}

/// The content of a block is the same with more data behind it.
proof fn lemma_content_extend(data: Seq<u8>, more: Seq<u8>, p: int, limit: int)
    requires
        0 <= p,
        content_at(data, p, limit) is Ok,
    ensures
        content_at(data + more, p, limit) == content_at(data, p, limit),
{
    reveal(content_at);
    reveal(coded_at);
    lemma_map_extend(data, more, p, p + 16, 0, Seq::empty());
    let (a, used) = used_at(data, p)->Ok_0;
    lemma_field_extend(data, more, a, 3);
    lemma_field_extend(data, more, a + 3, 15);
    let groups = field(data, a, 3)->Ok_0;
    let count = field(data, a + 3, 15)->Ok_0;
    let fresh = crate::codecs::bzip::block::fresh_selectors(groups);
    lemma_selectors_extend(data, more, a + 18, count as nat, fresh, Seq::empty());
    let (b, selectors) = selectors_at(data, a + 18, count as nat, fresh, Seq::empty())->Ok_0;
    lemma_trees_extend(data, more, b, groups as nat, used.len() + 2, Seq::empty());
    let (c, trees) = trees_at(data, b, groups as nat, used.len() + 2, Seq::empty())->Ok_0;
    lemma_symbols_extend(
        data,
        more,
        c,
        trees,
        selectors,
        0,
        Front { list: used, out: Seq::empty(), run: 0, weight: 1 },
        limit,
    );
}

/// More room changes nothing about what fits.
proof fn lemma_unrle1_room(code: Seq<u8>, out: Seq<u8>, limit: int, room: int)
    requires
        limit <= room,
        unrle1(code, out, limit) is Ok,
    ensures
        unrle1(code, out, room) == unrle1(code, out, limit),
    decreases code.len(),
{
    if code.len() > 0 {
        let run = lead(code, 1, 4);
        lemma_lead(code, 1, 4);
        let width = if run == 4 {
            5
        } else {
            run
        };
        let count = if run == 4 {
            4 + code[4]
        } else {
            run
        };
        lemma_unrle1_room(
            code.skip(width),
            out + repeated(code[0], count as nat),
            limit,
            room,
        );
    }
}

/// A block is the same with more data behind it and with more room.
proof fn lemma_block_extend(
    body: Seq<u8>,
    more: Seq<u8>,
    p: int,
    capacity: int,
    limit: int,
    room: int,
)
    requires
        0 <= p,
        limit <= room,
        block_at(body, p, capacity, limit) is Ok,
    ensures
        block_at(body + more, p, capacity, room) == block_at(body, p, capacity, limit),
{
    reveal(block_at);
    reveal(block_meaning);
    lemma_field_extend(body, more, p, 32);
    lemma_field_extend(body, more, p + 32, 1);
    lemma_field_extend(body, more, p + 33, 24);
    lemma_content_extend(body, more, p + 57, capacity);
    let (_, column) = content_at(body, p + 57, capacity)->Ok_0;
    let start = field(body, p + 33, 24)->Ok_0;
    let plain = crate::codecs::bzip::bwt::untransformed(column, start);
    let code = if field(body, p + 32, 1)->Ok_0 != 0 {
        crate::codecs::bzip::transform::derandomized(plain, 0, 0)
    } else {
        plain
    };
    lemma_unrle1_room(code, Seq::empty(), limit, room);
}

/// The blocks of a stream are the same with more data behind them and with more room.
proof fn lemma_blocks_extend(
    body: Seq<u8>,
    more: Seq<u8>,
    p: int,
    capacity: int,
    out: Seq<u8>,
    limit: int,
    room: int,
    checksum: u32,
)
    requires
        0 <= p,
        limit <= room,
        blocks_at(body, p, capacity, out, limit, checksum) is Ok,
    ensures
        blocks_at(body + more, p, capacity, out, room, checksum) == blocks_at(
            body,
            p,
            capacity,
            out,
            limit,
            checksum,
        ),
    decreases 8 * body.len() - p,
{
    lemma_field_extend(body, more, p, 48);
    let marker = field(body, p, 48)->Ok_0;
    if marker == STREAM_END_MAGIC {
        lemma_field_extend(body, more, p + 48, 32);
    } else {
        lemma_block_extend(
            body,
            more,
            p + 48,
            capacity,
            limit - out.len(),
            room - out.len(),
        );
        lemma_block_position(body, p + 48, capacity, limit - out.len());
        let (q, block) = block_at(body, p + 48, capacity, limit - out.len())->Ok_0;
        lemma_blocks_extend(
            body,
            more,
            q,
            capacity,
            out + block,
            limit,
            room,
            combined(checksum, crc(block)),
        );
    }
}

/// The blocks of an encoded stream, and where they end.
proof fn lemma_stream_blocks(input: Seq<u8>, block_size: u8)
    requires
        block_size_ok(block_size),
    ensures
        ({
            let body = pack(blocks_bits(input, block_size, 0));
            let end = blocks_bits(input, block_size, 0).len();
            &&& blocks_at(
                body,
                0,
                block_size as int * 100_000,
                Seq::empty(),
                input.len() as int,
                0,
            ) == Ok::<(int, Seq<u8>), Fault>((end as int, input))
            &&& 8 * (body.len() - 1) < end <= 8 * body.len()
        }),
{
    let bits = blocks_bits(input, block_size, 0);
    let body = pack(bits);
    let none = Seq::<u8>::empty();
    lemma_pack_holds(none, bits, none);
    assert(none + pack(bits) + none =~= body);
    lemma_pack_len(bits);
    lemma_blocks_read_back(body, 0, input, block_size, none, input.len() as int, 0);
    assert(none + input =~= input);
    lemma_blocks_position(body, 0, block_size as int * 100_000, none, input.len() as int, 0);
}

/// A stream is refused where another size is expected.
pub proof fn lemma_bzip_other_size(
    input: Seq<u8>,
    block_size: u8,
    expected: usize,
    workspace: usize,
)
    requires
        block_size_ok(block_size),
        input.len() <= usize::MAX,
        expected != input.len(),
        decode_workspace_size(block_size as int) <= workspace,
    ensures
        unbzip(bzip_stream(input, block_size), expected, workspace) is Err,
{
    let data = bzip_stream(input, block_size);
    let none = Seq::<u8>::empty();
    let body = pack(blocks_bits(input, block_size, 0));
    assert(none + data + none =~= data);
    assert(none + input =~= input);
    if expected > input.len() {
        lemma_stream_read_back(
            none,
            input,
            block_size,
            none,
            none,
            expected as int,
            workspace as int,
        );
    } else {
        lemma_stream_blocks(input, block_size);
        lemma_blocks_position(body, 0, block_size as int * 100_000, none, input.len() as int, 0);
        assert(data.skip(0) =~= data);
        assert(data.skip(4) =~= body);
        assert(data[3] == (0x30 + block_size) as u8);
        let capacity = block_size as int * 100_000;
        assert((data[3] - 0x30) * 100_000 == capacity);
        if blocks_at(body, 0, capacity, none, expected as int, 0) is Ok {
            lemma_blocks_extend(
                body,
                none,
                0,
                capacity,
                none,
                expected as int,
                input.len() as int,
                0,
            );
            assert(body + none =~= body);
            let end = blocks_at(body, 0, capacity, none, expected as int, 0)->Ok_0.0;
            assert(4 + (end + 7) / 8 == data.len());
        }
    }
}

/// A stream with something behind it that does not begin a stream is refused, whatever size is
/// expected.
pub proof fn lemma_bzip_padded(
    input: Seq<u8>,
    block_size: u8,
    more: Seq<u8>,
    expected: usize,
    workspace: usize,
)
    requires
        block_size_ok(block_size),
        more.len() > 0,
        !header_ok(more),
        decode_workspace_size(block_size as int) <= workspace,
    ensures
        unbzip(bzip_stream(input, block_size) + more, expected, workspace) is Err,
        input.len() <= expected ==> unbzip(
            bzip_stream(input, block_size) + more,
            expected,
            workspace,
        ) == Err::<Seq<u8>, Fault>(Fault::StreamHeader),
{
    let stream = bzip_stream(input, block_size);
    let data = stream + more;
    let none = Seq::<u8>::empty();
    assert(data.skip(stream.len() as int) =~= more);
    if input.len() <= expected {
        lemma_stream_read_back(
            none,
            input,
            block_size,
            more,
            none,
            expected as int,
            workspace as int,
        );
        assert(none + stream + more =~= data);
    } else {
        let body = pack(blocks_bits(input, block_size, 0));
        let capacity = block_size as int * 100_000;
        lemma_stream_blocks(input, block_size);
        assert(data.skip(0) =~= data);
        assert(data.skip(4) =~= body + more);
        assert(data[3] == (0x30 + block_size) as u8);
        assert((data[3] - 0x30) * 100_000 == capacity);
        if blocks_at(body + more, 0, capacity, none, expected as int, 0) is Ok {
            let size = input.len() as int;
            lemma_blocks_extend(body + more, none, 0, capacity, none, expected as int, size, 0);
            assert(body + more + none =~= body + more);
            lemma_blocks_extend(body, more, 0, capacity, none, size, size, 0);
            let end = blocks_at(body, 0, capacity, none, size, 0)->Ok_0.0;
            lemma_blocks_position(body + more, 0, capacity, none, expected as int, 0);
            assert(4 + (end + 7) / 8 == stream.len());
        }
    }
}

/// A stream that is cut off anywhere is refused, whatever size is expected.
pub proof fn lemma_bzip_truncated(
    input: Seq<u8>,
    block_size: u8,
    n: int,
    expected: usize,
    workspace: usize,
)
    requires
        block_size_ok(block_size),
        0 <= n < bzip_stream(input, block_size).len(),
    ensures
        unbzip(bzip_stream(input, block_size).take(n), expected, workspace) is Err,
{
    let data = bzip_stream(input, block_size);
    let part = data.take(n);
    let none = Seq::<u8>::empty();
    let body = pack(blocks_bits(input, block_size, 0));
    if n >= 4 {
        lemma_stream_blocks(input, block_size);
        let cut = body.take(n - 4);
        let rest = body.skip(n - 4);
        let capacity = block_size as int * 100_000;
        assert(cut + rest =~= body);
        assert(part.skip(0) =~= part);
        assert(part.skip(4) =~= cut);
        assert(part[3] == (0x30 + block_size) as u8);
        assert((part[3] - 0x30) * 100_000 == capacity);
        if blocks_at(cut, 0, capacity, none, expected as int, 0) is Ok {
            let room = if expected < input.len() {
                input.len() as int
            } else {
                expected as int
            };
            lemma_blocks_extend(cut, rest, 0, capacity, none, expected as int, room, 0);
            lemma_blocks_extend(body, none, 0, capacity, none, input.len() as int, room, 0);
            assert(body + none =~= body);
            lemma_blocks_position(cut, 0, capacity, none, expected as int, 0);
        }
    }
}

} // verus!
