//! The DEFLATE encoder: one final block with the fixed codes.

use vstd::arithmetic::power2::{lemma2_to64, pow2};
use vstd::prelude::*;

use crate::codecs::zlib::bitstream::{
    holds, lemma_bits_at_divide, lemma_holds_number, lemma_holds_split, lemma_low_bits_len,
    lemma_pack_holds, low_bits, pack, BitWriter,
};
use crate::codecs::zlib::fault::Fault;
use crate::codecs::zlib::fixed::lemma_fixed_trees;
use crate::codecs::zlib::huffman::{
    canonical_codes, code_of, codes_fault, lemma_reversed_bound, lemma_symbol_at, reverse_code,
    reversed, symbol_at,
};
use crate::codecs::zlib::inflate::{
    copy_match, distance_base, distance_extra, distance_parameters, element_at, elements_at,
    fixed_distance_lengths, fixed_distances, fixed_literal_lengths, fixed_literals, inflate,
    length_base, length_extra, length_parameters,
};
use crate::codecs::matchfinder::{
    chained, find_match, insert_position, lemma_match_from, lemma_match_limit, match_from,
    new_chains, repeats, SearchLimits,
};
use crate::math::{lemma_pow2_monotonic, power_of_two};

verus! {

/// How far the encoder looks for matches.
pub open spec fn search_limits() -> SearchLimits {
    SearchLimits { length: 258, window: 32768, attempts: 96, nice: 258 }
}

/// The code of `symbol`, most significant bit first.
pub open spec fn symbol_bits(lengths: Seq<u8>, symbol: int) -> Seq<bool> {
    low_bits(
        reversed(code_of(lengths, symbol), lengths[symbol] as nat),
        lengths[symbol] as nat,
    )
}

/// The longest match that length symbol `257 + index` can express.
pub open spec fn length_top(index: int) -> int {
    length_base(index) + pow2(length_extra(index)) - 1
}

/// The largest distance that distance symbol `index` can express.
pub open spec fn distance_top(index: int) -> int {
    distance_base(index) + pow2(distance_extra(index)) - 1
}

/// The first length symbol from `257 + index` on that reaches `length`.
pub open spec fn length_index(length: int, index: int) -> int
    decreases 28 - index,
{
    if index >= 28 || length <= length_top(index) {
        index
    } else {
        length_index(length, index + 1)
    }
}

/// The first distance symbol from `index` on that reaches `distance`.
pub open spec fn distance_index(distance: int, index: int) -> int
    decreases 29 - index,
{
    if index >= 29 || distance <= distance_top(index) {
        index
    } else {
        distance_index(distance, index + 1)
    }
}

/// A match length as length symbol and extra bits.
pub open spec fn length_bits(length: int) -> Seq<bool> {
    let index = length_index(length, 0);
    symbol_bits(fixed_literals(), 257 + index) + low_bits(
        length - length_base(index),
        length_extra(index),
    )
}

/// A match distance as distance symbol and extra bits.
pub open spec fn distance_bits(distance: int) -> Seq<bool> {
    let index = distance_index(distance, 0);
    symbol_bits(fixed_distances(), index) + low_bits(
        distance - distance_base(index),
        distance_extra(index),
    )
}

/// The elements of the block for the input from `position` on, and its end.
pub open spec fn element_bits(input: Seq<u8>, position: int) -> Seq<bool>
    decreases input.len() - position,
{
    if position >= input.len() {
        symbol_bits(fixed_literals(), 256)
    } else {
        let (length, distance) = match_from(input, position, search_limits());
        proof {
            lemma_match_limit(input, position, search_limits());
        }
        if length >= 3 {
            length_bits(length) + (distance_bits(distance) + element_bits(
                input,
                position + length,
            ))
        } else {
            symbol_bits(fixed_literals(), input[position] as int) + element_bits(
                input,
                position + 1,
            )
        }
    }
}

/// The header of a final block with fixed codes.
pub open spec fn header_bits() -> Seq<bool> {
    low_bits(1, 1) + low_bits(1, 2)
}

/// The raw DEFLATE stream that the encoder makes of `input`.
pub open spec fn deflate(input: Seq<u8>) -> Seq<u8> {
    pack(header_bits() + element_bits(input, 0))
}

/// Each length symbol begins where the one before it ends.
proof fn lemma_length_ranges(index: int)
    requires
        0 <= index < 27,
    ensures
        length_top(index) + 1 == length_base(index + 1),
        length_top(27) == 258,
        length_base(0) == 3,
{
    lemma2_to64();
    let e = length_extra(index);
    let f = length_extra(index + 1);
    let m = 4 + index % 4;
    let n = 4 + (index + 1) % 4;
    let pe = pow2(e) as int;
    let pf = pow2(f) as int;
    assert(7 * pow2(length_extra(27)) == 224);
    if index >= 8 {
        assert(1 <= e <= 5);
        assert(pe == 2 || pe == 4 || pe == 8 || pe == 16 || pe == 32);
        if index % 4 == 3 {
            assert(f == e + 1);
            assert(pf == 2 * pe);
            assert(m * pe + pe == n * pf) by (nonlinear_arith)
                requires
                    m == 7,
                    n == 4,
                    pf == 2 * pe,
            ;
        } else {
            assert(f == e);
            assert(m * pe + pe == n * pf) by (nonlinear_arith)
                requires
                    n == m + 1,
                    pf == pe,
            ;
        }
    } else if index == 7 {
        assert(pf == 2);
        assert(4 * pf == 8);
    }
}

/// Each distance symbol begins where the one before it ends.
proof fn lemma_distance_ranges(index: int)
    requires
        0 <= index < 29,
    ensures
        distance_top(index) + 1 == distance_base(index + 1),
        distance_top(29) == 32768,
        distance_base(0) == 1,
{
    lemma2_to64();
    let e = distance_extra(index);
    let f = distance_extra(index + 1);
    let m = 2 + index % 2;
    let n = 2 + (index + 1) % 2;
    let pe = pow2(e) as int;
    let pf = pow2(f) as int;
    assert(3 * pow2(distance_extra(29)) == 24576);
    if index >= 4 {
        if index % 2 == 1 {
            assert(f == e + 1);
            crate::math::lemma_pow2_step(e);
            assert(m * pe + pe == n * pf) by (nonlinear_arith)
                requires
                    m == 3,
                    n == 2,
                    pf == 2 * pe,
            ;
        } else {
            assert(f == e);
            assert(m * pe + pe == n * pf) by (nonlinear_arith)
                requires
                    n == m + 1,
                    pf == pe,
            ;
        }
    } else if index == 3 {
        assert(pf == 2);
        assert(2 * pf == 4);
    }
}

proof fn lemma_length_index(length: int, index: int)
    requires
        0 <= index <= 27,
        length_base(index) <= length <= 258,
    ensures
        index <= length_index(length, index) <= 27,
        length_base(length_index(length, index)) <= length <= length_top(
            length_index(length, index),
        ),
    decreases 27 - index,
{
    lemma_length_ranges(0);
    if index < 27 {
        lemma_length_ranges(index);
        if length > length_top(index) {
            lemma_length_index(length, index + 1);
        }
    }
}

proof fn lemma_distance_index(distance: int, index: int)
    requires
        0 <= index <= 29,
        distance_base(index) <= distance <= 32768,
    ensures
        index <= distance_index(distance, index) <= 29,
        distance_base(distance_index(distance, index)) <= distance <= distance_top(
            distance_index(distance, index),
        ),
    decreases 29 - index,
{
    lemma_distance_ranges(0);
    if index < 29 {
        lemma_distance_ranges(index);
        if distance > distance_top(index) {
            lemma_distance_index(distance, index + 1);
        }
    }
}

/// A symbol that was written is read back.
proof fn lemma_symbol_read_back(lengths: Seq<u8>, data: Seq<u8>, p: int, symbol: int)
    requires
        codes_fault(lengths) is None,
        0 <= symbol < lengths.len(),
        lengths[symbol] > 0,
        holds(data, p, symbol_bits(lengths, symbol)),
    ensures
        symbol_at(lengths, data, p) == Ok::<(int, int), Fault>(
            (symbol, p + symbol_bits(lengths, symbol).len()),
        ),
        symbol_bits(lengths, symbol).len() == lengths[symbol],
{
    let l = lengths[symbol] as nat;
    let code = reversed(code_of(lengths, symbol), l);
    lemma_reversed_bound(code_of(lengths, symbol), l);
    lemma_low_bits_len(code, l);
    lemma_holds_number(data, p, code, l);
    lemma_bits_at_divide(data, p, l, (15 - l) as nat);
    lemma_symbol_at(lengths, data, p, symbol);
}

/// Copying a repetition reproduces the input.
pub proof fn lemma_copy_repeats(input: Seq<u8>, position: int, length: nat, distance: int)
    requires
        repeats(input, position, length as int, distance),
    ensures
        copy_match(input.take(position), distance, length) == input.take(position + length),
    decreases length,
{
    if length > 0 {
        let out = input.take(position);
        assert(input[position + 0] == input[position - distance + 0]);
        assert(out.push(out[out.len() - distance]) =~= input.take(position + 1));
        let rest = (length - 1) as nat;
        assert forall|i: int| 0 <= i < rest implies #[trigger] input[position + 1 + i]
            == input[position + 1 - distance + i] by {
            assert(input[position + (i + 1)] == input[position - distance + (i + 1)]);
        }
        lemma_copy_repeats(input, position + 1, rest, distance);
    }
}

/// A match that was written is read back.
proof fn lemma_match_read_back(
    data: Seq<u8>,
    p: int,
    input: Seq<u8>,
    position: int,
    length: int,
    distance: int,
)
    requires
        3 <= length <= 258,
        distance <= 32768,
        repeats(input, position, length, distance),
        holds(data, p, length_bits(length) + distance_bits(distance)),
    ensures
        element_at(
            data,
            p,
            input.take(position),
            input.len() as int,
            fixed_literals(),
            Some(fixed_distances()),
        ) == Ok::<(int, Option<Seq<u8>>), Fault>(
            (
                p + (length_bits(length) + distance_bits(distance)).len(),
                Some(input.take(position + length)),
            ),
        ),
{
    lemma_fixed_trees();
    lemma_length_ranges(0);
    lemma_distance_ranges(0);
    lemma_length_index(length, 0);
    lemma_distance_index(distance, 0);
    let i = length_index(length, 0);
    let d = distance_index(distance, 0);
    let (lb, db) = (length_bits(length), distance_bits(distance));
    lemma_holds_split(data, p, lb, db);
    let ls = symbol_bits(fixed_literals(), 257 + i);
    let lx = low_bits(length - length_base(i), length_extra(i));
    lemma_holds_split(data, p, ls, lx);
    lemma_symbol_read_back(fixed_literals(), data, p, 257 + i);
    lemma_holds_number(data, p + ls.len(), length - length_base(i), length_extra(i));
    lemma_low_bits_len(length - length_base(i), length_extra(i));
    let q = p + lb.len();
    let ds = symbol_bits(fixed_distances(), d);
    let dx = low_bits(distance - distance_base(d), distance_extra(d));
    lemma_holds_split(data, q, ds, dx);
    lemma_symbol_read_back(fixed_distances(), data, q, d);
    lemma_holds_number(data, q + ds.len(), distance - distance_base(d), distance_extra(d));
    lemma_low_bits_len(distance - distance_base(d), distance_extra(d));
    lemma_copy_repeats(input, position, length as nat, distance);
}

/// The elements of a block are read back.
pub proof fn lemma_elements_read_back(data: Seq<u8>, p: int, input: Seq<u8>, position: int)
    requires
        0 <= position <= input.len(),
        holds(data, p, element_bits(input, position)),
    ensures
        elements_at(
            data,
            p,
            input.take(position),
            input.len() as int,
            fixed_literals(),
            Some(fixed_distances()),
        ) == Ok::<(int, Seq<u8>), Fault>((p + element_bits(input, position).len(), input)),
    decreases input.len() - position,
{
    lemma_fixed_trees();
    if position == input.len() {
        lemma_symbol_read_back(fixed_literals(), data, p, 256);
        assert(input.take(position) =~= input);
    } else {
        lemma_match_from(input, position, search_limits());
        let (length, distance) = match_from(input, position, search_limits());
        if length >= 3 {
            let (lb, db) = (length_bits(length), distance_bits(distance));
            let rest = element_bits(input, position + length);
            assert(element_bits(input, position) =~= (lb + db) + rest);
            lemma_holds_split(data, p, lb + db, rest);
            lemma_match_read_back(data, p, input, position, length, distance);
            lemma_elements_read_back(data, p + (lb + db).len(), input, position + length);
        } else {
            let symbol = input[position] as int;
            let sb = symbol_bits(fixed_literals(), symbol);
            let rest = element_bits(input, position + 1);
            lemma_holds_split(data, p, sb, rest);
            lemma_symbol_read_back(fixed_literals(), data, p, symbol);
            assert(input.take(position).push(symbol as u8) =~= input.take(position + 1));
            lemma_elements_read_back(data, p + sb.len(), input, position + 1);
        }
    }
}

/// Decoding what was encoded gives back the input: raw DEFLATE loses nothing.
pub proof fn lemma_deflate_round_trip(input: Seq<u8>)
    requires
        input.len() <= usize::MAX,
    ensures
        inflate(deflate(input), input.len() as usize) == Ok::<Seq<u8>, Fault>(input),
{
    let data = deflate(input);
    let bits = header_bits() + element_bits(input, 0);
    lemma_pack_holds(Seq::empty(), bits, Seq::empty());
    assert(Seq::<u8>::empty() + pack(bits) + Seq::<u8>::empty() =~= data);
    lemma_holds_split(data, 0, header_bits(), element_bits(input, 0));
    lemma_holds_split(data, 0, low_bits(1, 1), low_bits(1, 2));
    lemma2_to64();
    lemma_low_bits_len(1, 1);
    lemma_low_bits_len(1, 2);
    lemma_holds_number(data, 0, 1, 1);
    lemma_holds_number(data, 1, 1, 2);
    assert(input.take(0) =~= Seq::<u8>::empty());
    lemma_elements_read_back(data, 3, input, 0);
}

/// Writes the code of `symbol`.
fn write_symbol(writer: &mut BitWriter, symbol: usize, codes: &Vec<u16>, lengths: &Vec<u8>)
    requires
        old(writer).wf(),
        symbol < lengths@.len(),
        codes_fault(lengths@) is None,
        lengths@[symbol as int] > 0,
        codes@.len() == lengths@.len(),
        forall|s: int|
            0 <= s < lengths@.len() && lengths@[s] > 0 ==> #[trigger] codes@[s] == code_of(
                lengths@,
                s,
            ),
    ensures
        final(writer).wf(),
        final(writer).base() == old(writer).base(),
        final(writer).sent() == old(writer).sent() + symbol_bits(lengths@, symbol as int),
{
    let length: u8 = lengths[symbol];
    proof {
        lemma_reversed_bound(code_of(lengths@, symbol as int), length as nat);
    }
    writer.write_bits(reverse_code(codes[symbol], length) as u64, length as usize);
}

/// Writes a match length.
fn write_length(writer: &mut BitWriter, length: usize, codes: &Vec<u16>, lengths: &Vec<u8>)
    requires
        old(writer).wf(),
        3 <= length <= 258,
        lengths@ == fixed_literals(),
        codes@.len() == lengths@.len(),
        forall|s: int|
            0 <= s < lengths@.len() && lengths@[s] > 0 ==> #[trigger] codes@[s] == code_of(
                lengths@,
                s,
            ),
    ensures
        final(writer).wf(),
        final(writer).base() == old(writer).base(),
        final(writer).sent() == old(writer).sent() + length_bits(length as int),
{
    proof {
        lemma_fixed_trees();
        lemma_length_ranges(0);
        lemma_length_index(length as int, 0);
        lemma2_to64();
    }
    let mut index: usize = 0;
    let mut parameters: (usize, usize) = length_parameters(0);
    while index < 28 && length >= parameters.0 + power_of_two(parameters.1) as usize
        invariant
            index <= 27,
            parameters.0 == length_base(index as int),
            parameters.1 == length_extra(index as int),
            parameters.0 <= 258,
            parameters.1 <= 5,
            pow2(parameters.1 as nat) <= 32,
            length_index(length as int, 0) == length_index(length as int, index as int),
            length_index(length as int, 0) <= 27,
            length_base(index as int) <= length <= 258,
        decreases 28 - index,
    {
        proof {
            if index == 27 {
                lemma_length_ranges(0);
            } else {
                lemma_length_ranges(index as int);
            }
        }
        index += 1;
        parameters = length_parameters(index);
        proof {
            lemma2_to64();
            lemma_pow2_monotonic(parameters.1 as nat, 5);
        }
    }
    assert(index == length_index(length as int, 0));
    let (base, extra) = parameters;
    let ghost before = writer.sent();
    write_symbol(writer, 257 + index, codes, lengths);
    writer.write_bits((length - base) as u64, extra);
    assert(writer.sent() =~= before + length_bits(length as int));
}

/// Writes a match distance.
fn write_distance(writer: &mut BitWriter, distance: usize, codes: &Vec<u16>, lengths: &Vec<u8>)
    requires
        old(writer).wf(),
        1 <= distance <= 32768,
        lengths@ == fixed_distances(),
        codes@.len() == lengths@.len(),
        forall|s: int|
            0 <= s < lengths@.len() && lengths@[s] > 0 ==> #[trigger] codes@[s] == code_of(
                lengths@,
                s,
            ),
    ensures
        final(writer).wf(),
        final(writer).base() == old(writer).base(),
        final(writer).sent() == old(writer).sent() + distance_bits(distance as int),
{
    proof {
        lemma_fixed_trees();
        lemma_distance_ranges(0);
        lemma_distance_index(distance as int, 0);
        lemma2_to64();
    }
    let mut index: usize = 0;
    let mut parameters: (usize, usize) = distance_parameters(0);
    while index < 29 && distance >= parameters.0 + power_of_two(parameters.1) as usize
        invariant
            index <= 29,
            parameters.0 == distance_base(index as int),
            parameters.1 == distance_extra(index as int),
            parameters.0 <= 24577,
            parameters.1 <= 13,
            pow2(parameters.1 as nat) <= 8192,
            distance_index(distance as int, 0) == distance_index(distance as int, index as int),
            distance_base(index as int) <= distance <= 32768,
        decreases 29 - index,
    {
        proof {
            lemma_distance_ranges(index as int);
        }
        index += 1;
        parameters = distance_parameters(index);
        proof {
            lemma2_to64();
            lemma_pow2_monotonic(parameters.1 as nat, 13);
        }
    }
    assert(index == distance_index(distance as int, 0));
    let (base, extra) = parameters;
    let ghost before = writer.sent();
    write_symbol(writer, index, codes, lengths);
    writer.write_bits((distance - base) as u64, extra);
    assert(writer.sent() =~= before + distance_bits(distance as int));
}

/// Appends the raw DEFLATE stream of `input` to `output`.
pub fn encode_raw_appending(input: &[u8], output: Vec<u8>) -> (result: Vec<u8>)
    ensures
        result@ == output@ + deflate(input@),
{
    proof {
        lemma_fixed_trees();
    }
    let litlen = fixed_literal_lengths();
    let distance = fixed_distance_lengths();
    let lit_codes = match canonical_codes(litlen.as_slice()) {
        Ok(codes) => codes,
        Err(_) => Vec::new(),
    };
    let dist_codes = match canonical_codes(distance.as_slice()) {
        Ok(codes) => codes,
        Err(_) => Vec::new(),
    };
    let mut writer = BitWriter::with_output(output);
    proof {
        lemma2_to64();
    }
    // One final block with the fixed codes.
    writer.write_bits(1, 1);
    writer.write_bits(1, 2);
    assert(writer.sent() =~= header_bits());
    let limits = SearchLimits { length: 258, window: 32768, attempts: 96, nice: 258 };
    let (mut head, mut previous) = new_chains(input.len(), Ghost(input@));
    let mut position: usize = 0;
    let ghost whole = header_bits() + element_bits(input@, 0);
    while position < input.len()
        invariant
            position <= input@.len(),
            writer.wf(),
            writer.base() == output@,
            limits == search_limits(),
            litlen@ == fixed_literals(),
            distance@ == fixed_distances(),
            codes_fault(litlen@) is None,
            codes_fault(distance@) is None,
            lit_codes@.len() == litlen@.len(),
            forall|s: int|
                0 <= s < litlen@.len() && litlen@[s] > 0 ==> #[trigger] lit_codes@[s] == code_of(
                    litlen@,
                    s,
                ),
            dist_codes@.len() == distance@.len(),
            forall|s: int|
                0 <= s < distance@.len() && distance@[s] > 0 ==> #[trigger] dist_codes@[s]
                    == code_of(distance@, s),
            chained(input@, position as int, head@, previous@),
            whole == writer.sent() + element_bits(input@, position as int),
        decreases input.len() - position,
    {
        let ghost sent = writer.sent();
        let (length, back) = find_match(input, position, limits, &head, &previous);
        insert_position(input, position, &mut head, &mut previous);
        if length >= 3 {
            write_length(&mut writer, length, &lit_codes, &litlen);
            write_distance(&mut writer, back, &dist_codes, &distance);
            let end: usize = position + length;
            let mut next: usize = position + 1;
            while next < end
                invariant
                    next <= end <= input@.len(),
                    chained(input@, next as int, head@, previous@),
                decreases end - next,
            {
                insert_position(input, next, &mut head, &mut previous);
                next += 1;
            }
            assert(whole =~= writer.sent() + element_bits(input@, end as int));
            position = end;
        } else {
            write_symbol(&mut writer, input[position] as usize, &lit_codes, &litlen);
            assert(whole =~= writer.sent() + element_bits(input@, position + 1));
            position += 1;
        }
    }
    write_symbol(&mut writer, 256, &lit_codes, &litlen);
    assert(whole =~= writer.sent());
    writer.finish()
}

/// Encodes `input` as a raw DEFLATE stream, reusing the storage of `output`.
pub fn encode_raw_with_buffer(input: &[u8], output: Vec<u8>) -> (result: Vec<u8>)
    ensures
        result@ == deflate(input@),
{
    let mut output = output;
    output.clear();
    let result = encode_raw_appending(input, output);
    assert(result@ =~= deflate(input@));
    result
}

} // verus!
