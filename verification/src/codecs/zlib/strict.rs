//! What decoding refuses: streams that are cut off, padded, damaged or of another size.

use vstd::arithmetic::power2::lemma2_to64;
use vstd::prelude::*;

use crate::codecs::zlib::bitstream::{
    bits_at, lemma_bits_at_bound, lemma_bits_at_divide, lemma_holds_number, lemma_holds_split,
    lemma_low_bits_len, lemma_pack_holds, lemma_pack_len, low_bits, pack,
};
use crate::codecs::zlib::checksum::adler;
use crate::codecs::zlib::deflate::{deflate, element_bits, header_bits, lemma_elements_read_back};
use crate::codecs::zlib::engine::{big_endian, header_fault, unzlib, zlib_stream};
use crate::codecs::zlib::fault::Fault;
use crate::codecs::zlib::fixed::lemma_fixed_trees;
use crate::codecs::zlib::huffman::{
    codes_fault, lemma_symbol_at, lemma_window_prefix, starts_with, symbol_at,
};
use crate::codecs::zlib::inflate::{
    distance_extra, element_at, elements_at, field, fixed_distances, fixed_literals, inflate,
    lemma_copy_match_len, length_extra,
};

verus! {

/// Bits before the end do not depend on what follows.
proof fn lemma_bits_extend(data: Seq<u8>, more: Seq<u8>, p: int, n: nat)
    requires
        0 <= p,
        p + n <= 8 * data.len(),
    ensures
        bits_at(data + more, p, n) == bits_at(data, p, n),
    decreases n,
{
    if n > 0 {
        lemma_bits_extend(data, more, p + 1, (n - 1) as nat);
        assert((data + more)[p / 8] == data[p / 8]);
    }
}

/// A symbol is the same with more data behind it.
proof fn lemma_symbol_extend(lengths: Seq<u8>, data: Seq<u8>, more: Seq<u8>, p: int)
    requires
        0 <= p,
        codes_fault(lengths) is None,
        symbol_at(lengths, data, p) is Ok,
    ensures
        symbol_at(lengths, data + more, p) == symbol_at(lengths, data, p),
        symbol_at(lengths, data, p) matches Ok((symbol, q)) && p < q <= 8 * data.len() && 0
            <= symbol < lengths.len(),
{
    let window = bits_at(data, p, 15);
    let symbol = choose|s: int| starts_with(lengths, s, window);
    let bits = lengths[symbol] as nat;
    let rest = (15 - bits) as nat;
    let other = bits_at(data + more, p, 15);
    lemma_bits_at_bound(data, p, 15);
    lemma_bits_at_bound(data + more, p, 15);
    lemma_bits_extend(data, more, p, bits);
    lemma_bits_at_divide(data, p, bits, rest);
    lemma_bits_at_divide(data + more, p, bits, rest);
    lemma_window_prefix(lengths, symbol, window, bits);
    lemma_window_prefix(lengths, symbol, other, bits);
    lemma_symbol_at(lengths, data + more, p, symbol);
}

/// A field is the same with more data behind it.
proof fn lemma_field_extend(data: Seq<u8>, more: Seq<u8>, p: int, n: nat)
    requires
        0 <= p,
        field(data, p, n) is Ok,
    ensures
        field(data + more, p, n) == field(data, p, n),
        p + n <= 8 * data.len(),
        field(data, p, n)->Ok_0 >= 0,
{
    lemma_bits_extend(data, more, p, n);
    lemma_bits_at_bound(data, p, n);
}

/// An element is the same with more data behind it and with more room.
proof fn lemma_element_extend(
    data: Seq<u8>,
    more: Seq<u8>,
    p: int,
    out: Seq<u8>,
    limit: int,
    room: int,
    literals: Seq<u8>,
    distances: Seq<u8>,
)
    requires
        0 <= p,
        limit <= room,
        out.len() <= limit,
        codes_fault(literals) is None,
        codes_fault(distances) is None,
        element_at(data, p, out, limit, literals, Some(distances)) is Ok,
    ensures
        element_at(data + more, p, out, room, literals, Some(distances)) == element_at(
            data,
            p,
            out,
            limit,
            literals,
            Some(distances),
        ),
        element_at(data, p, out, limit, literals, Some(distances)) matches Ok((q, longer)) && p
            < q <= 8 * data.len() && (longer matches Some(bytes) ==> bytes.len() <= limit),
{
    lemma_symbol_extend(literals, data, more, p);
    let (symbol, q) = symbol_at(literals, data, p)->Ok_0;
    if symbol > 256 {
        let index = symbol - 257;
        let extra = length_extra(index);
        lemma_field_extend(data, more, q, extra);
        lemma_symbol_extend(distances, data, more, q + extra);
        let (code, r) = symbol_at(distances, data, q + extra)->Ok_0;
        lemma_field_extend(data, more, r, distance_extra(code));
        let length = crate::codecs::zlib::inflate::length_base(index) + field(
            data,
            q,
            extra,
        )->Ok_0;
        let distance = crate::codecs::zlib::inflate::distance_base(code) + field(
            data,
            r,
            distance_extra(code),
        )->Ok_0;
        lemma_copy_match_len(out, distance, length as nat);
    }
}

/// The elements of a block are the same with more data behind them and with more room.
proof fn lemma_elements_extend(
    data: Seq<u8>,
    more: Seq<u8>,
    p: int,
    out: Seq<u8>,
    limit: int,
    room: int,
    literals: Seq<u8>,
    distances: Seq<u8>,
)
    requires
        0 <= p,
        limit <= room,
        out.len() <= limit,
        codes_fault(literals) is None,
        codes_fault(distances) is None,
        elements_at(data, p, out, limit, literals, Some(distances)) is Ok,
    ensures
        elements_at(data + more, p, out, room, literals, Some(distances)) == elements_at(
            data,
            p,
            out,
            limit,
            literals,
            Some(distances),
        ),
        elements_at(data, p, out, limit, literals, Some(distances)) matches Ok((q, longer)) && p
            < q <= 8 * data.len() && longer.len() <= limit,
    decreases 8 * data.len() - p,
{
    lemma_element_extend(data, more, p, out, limit, room, literals, distances);
    if let Ok((q, Some(longer))) = element_at(data, p, out, limit, literals, Some(distances)) {
        lemma_elements_extend(data, more, q, longer, limit, room, literals, distances);
    }
}

/// Where the only block of a stream ends, and what it holds.
proof fn lemma_deflate_block(input: Seq<u8>)
    ensures
        ({
            let data = deflate(input);
            let end = 3 + element_bits(input, 0).len();
            &&& field(data, 0, 1) == Ok::<int, Fault>(1)
            &&& field(data, 1, 2) == Ok::<int, Fault>(1)
            &&& elements_at(
                data,
                3,
                Seq::empty(),
                input.len() as int,
                fixed_literals(),
                Some(fixed_distances()),
            ) == Ok::<(int, Seq<u8>), Fault>((end as int, input))
            &&& 8 * (data.len() - 1) < end <= 8 * data.len()
        }),
{
    let data = deflate(input);
    let bits = header_bits() + element_bits(input, 0);
    lemma_pack_holds(Seq::empty(), bits, Seq::empty());
    assert(Seq::<u8>::empty() + pack(bits) + Seq::<u8>::empty() =~= data);
    lemma_holds_split(data, 0, header_bits(), element_bits(input, 0));
    lemma_holds_split(data, 0, low_bits(1, 1), low_bits(1, 2));
    lemma2_to64();
    lemma_low_bits_len(1, 1);
    lemma_low_bits_len(1, 2);
    lemma_holds_number(data, 0, 1, 1);
    lemma_holds_number(data, 1, 1, 2);
    assert(input.take(0) =~= Seq::<u8>::empty());
    lemma_elements_read_back(data, 3, input, 0);
    lemma_pack_len(bits);
}

/// A raw stream with anything behind it still decodes to the input, given room for it, and not
/// to any other size.
pub proof fn lemma_deflate_padded(input: Seq<u8>, more: Seq<u8>, expected: usize)
    requires
        input.len() <= usize::MAX,
    ensures
        inflate(deflate(input) + more, expected) is Ok <==> expected == input.len(),
        expected == input.len() ==> inflate(deflate(input) + more, expected) == Ok::<
            Seq<u8>,
            Fault,
        >(input),
{
    let data = deflate(input);
    let none = Seq::<u8>::empty();
    let (literals, distances) = (fixed_literals(), fixed_distances());
    lemma_fixed_trees();
    lemma_deflate_block(input);
    lemma_field_extend(data, more, 0, 1);
    lemma_field_extend(data, more, 1, 2);
    if expected >= input.len() {
        lemma_elements_extend(
            data,
            more,
            3,
            none,
            input.len() as int,
            expected as int,
            literals,
            distances,
        );
    } else if elements_at(data + more, 3, none, expected as int, literals, Some(distances)) is Ok {
        lemma_elements_extend(
            data + more,
            none,
            3,
            none,
            expected as int,
            input.len() as int,
            literals,
            distances,
        );
        assert(data + more + none =~= data + more);
        lemma_elements_extend(
            data,
            more,
            3,
            none,
            input.len() as int,
            input.len() as int,
            literals,
            distances,
        );
    }
}

/// A raw stream that is cut off anywhere is refused, whatever size is expected.
pub proof fn lemma_deflate_truncated(input: Seq<u8>, n: int, expected: usize)
    requires
        0 <= n < deflate(input).len(),
    ensures
        inflate(deflate(input).take(n), expected) is Err,
{
    let data = deflate(input);
    let part = data.take(n);
    let rest = data.skip(n);
    let none = Seq::<u8>::empty();
    let (literals, distances) = (fixed_literals(), fixed_distances());
    assert(part + rest =~= data);
    lemma_fixed_trees();
    lemma_deflate_block(input);
    if field(part, 0, 1) is Ok && field(part, 1, 2) is Ok {
        lemma_field_extend(part, rest, 0, 1);
        lemma_field_extend(part, rest, 1, 2);
        if elements_at(part, 3, none, expected as int, literals, Some(distances)) is Ok {
            let room = if expected < input.len() {
                input.len() as int
            } else {
                expected as int
            };
            lemma_elements_extend(
                part,
                rest,
                3,
                none,
                expected as int,
                room,
                literals,
                distances,
            );
            lemma_elements_extend(
                data,
                none,
                3,
                none,
                input.len() as int,
                room,
                literals,
                distances,
            );
            assert(data + none =~= data);
        }
    }
}

/// A zlib stream is refused where another size is expected.
pub proof fn lemma_zlib_other_size(input: Seq<u8>, expected: usize)
    requires
        input.len() <= usize::MAX,
        expected != input.len(),
    ensures
        unzlib(zlib_stream(input), expected) is Err,
{
    let data = zlib_stream(input);
    let none = Seq::<u8>::empty();
    lemma_deflate_padded(input, none, expected);
    assert(deflate(input) + none =~= deflate(input));
    assert(data.subrange(2, data.len() - 4) =~= deflate(input));
}

/// A zlib stream that is cut off anywhere is refused, whatever size is expected.
#[verifier::rlimit(40)]
pub proof fn lemma_zlib_truncated(input: Seq<u8>, n: int, expected: usize)
    requires
        0 <= n < zlib_stream(input).len(),
    ensures
        unzlib(zlib_stream(input).take(n), expected) is Err,
{
    let data = zlib_stream(input);
    let part = data.take(n);
    if n >= 6 {
        assert(data.len() == deflate(input).len() + 6);
        lemma_deflate_truncated(input, n - 6, expected);
        assert(part.subrange(2, part.len() - 4) =~= deflate(input).take(n - 6));
    }
}

/// A zlib stream with another checksum is refused as such.
pub proof fn lemma_zlib_checksum(input: Seq<u8>, checksum: Seq<u8>)
    requires
        input.len() <= usize::MAX,
        checksum.len() == 4,
        checksum != big_endian(adler(input)),
    ensures
        unzlib(
            seq![0x78u8, 0x9cu8] + deflate(input) + checksum,
            input.len() as usize,
        ) == Err::<Seq<u8>, Fault>(Fault::ChecksumMismatch),
{
    let data = seq![0x78u8, 0x9cu8] + deflate(input) + checksum;
    let none = Seq::<u8>::empty();
    lemma_deflate_padded(input, none, input.len() as usize);
    assert(deflate(input) + none =~= deflate(input));
    assert(data.subrange(2, data.len() - 4) =~= deflate(input));
    assert(data.skip(data.len() - 4) =~= checksum);
    assert(header_fault(0x78, 0x9c) is None);
}

/// A zlib stream with something behind it is refused, unless its last bytes happen to be the
/// checksum.
pub proof fn lemma_zlib_padded(input: Seq<u8>, more: Seq<u8>, expected: usize)
    requires
        input.len() <= usize::MAX,
        more.len() > 0,
        (zlib_stream(input) + more).skip((zlib_stream(input) + more).len() - 4) != big_endian(
            adler(input),
        ),
    ensures
        unzlib(zlib_stream(input) + more, expected) is Err,
{
    let data = zlib_stream(input) + more;
    let tail = (big_endian(adler(input)) + more).take(more.len() as int);
    assert(data.subrange(2, data.len() - 4) =~= deflate(input) + tail);
    lemma_deflate_padded(input, tail, expected);
}

} // verus!
