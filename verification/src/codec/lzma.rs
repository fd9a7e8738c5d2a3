//! LZMA chunks in the frame of stand-alone streams.

use vstd::prelude::*;
use vstd::string::*;

use crate::codec::error::{engine_trouble, CodecError, CodecTrouble};
use crate::codec::flags::Codec;
use crate::codec::limits::CodecLimits;
use crate::codecs::lzma;
use crate::codecs::lzma::codec::{decoded, decoder_refusal};
use crate::codecs::lzma::engine::lemma_lzma_round_trip;
use crate::codecs::lzma::options::{
    lemma_properties_round_trip, model_workspace_size, properties_of, property_bytes,
    DecoderOptions, LzmaProps,
};
use crate::codecs::text::{append_decimal, append_wide, decimal};

verus! {

/// The properties of all LZMA chunks: a dictionary of 64 KiB.
pub open spec fn chunk_properties() -> LzmaProps {
    LzmaProps { lc: 3, lp: 0, pb: 2, dict_size: 0x10000, fb: 32, mc: 32 }
}

/// A number in eight bytes, the lowest first.
pub open spec fn little_endian(value: u64) -> Seq<u8> {
    seq![
        (value % 0x100) as u8,
        (value / 0x100 % 0x100) as u8,
        (value / 0x1_0000 % 0x100) as u8,
        (value / 0x100_0000 % 0x100) as u8,
        (value / 0x1_0000_0000 % 0x100) as u8,
        (value / 0x100_0000_0000 % 0x100) as u8,
        (value / 0x1_0000_0000_0000 % 0x100) as u8,
        (value / 0x100_0000_0000_0000) as u8,
    ]
}

/// The number in eight bytes, the lowest first.
pub open spec fn number_at(data: Seq<u8>, i: int) -> int {
    data[i] + 0x100 * data[i + 1] + 0x1_0000 * data[i + 2] + 0x100_0000 * data[i + 3]
        + 0x1_0000_0000 * data[i + 4] + 0x100_0000_0000 * data[i + 5] + 0x1_0000_0000_0000 * data[i
        + 6] + 0x100_0000_0000_0000 * data[i + 7]
}

/// The stored bytes of an LZMA chunk: properties, length and stream. An empty input is stored
/// as nothing.
pub open spec fn lzma_chunk(input: Seq<u8>) -> Result<Seq<u8>, CodecTrouble> {
    if input.len() == 0 {
        Ok(seq![])
    } else {
        match lzma::unlimited_encoding(input, chunk_properties()) {
            Err(fault) => Err(
                CodecTrouble::InvalidData { codec: Codec::Lzma, message: fault.report().text },
            ),
            Ok(stream) => Ok(
                property_bytes(chunk_properties()) + little_endian(input.len() as u64) + stream,
            ),
        }
    }
}

/// The frame declares another length than the chunk.
pub open spec fn mismatch_text(expected: usize, declared: int) -> Seq<char> {
    "decompressed length mismatch: chunk expects "@ + decimal(expected as nat)
        + ", header declares "@ + decimal(declared as nat)
}

/// What an LZMA chunk decodes to.
pub open spec fn lzma_content(data: Seq<u8>, expected: usize, limits: CodecLimits) -> Result<
    Seq<u8>,
    CodecTrouble,
> {
    if data.len() == 0 && expected == 0 {
        Ok(seq![])
    } else if data.len() < 13 {
        Err(
            CodecTrouble::InvalidData {
                codec: Codec::Lzma,
                message: "truncated LZMA-alone header"@,
            },
        )
    } else if number_at(data, 5) != u64::MAX && number_at(data, 5) != expected {
        Err(
            CodecTrouble::InvalidData {
                codec: Codec::Lzma,
                message: mismatch_text(expected, number_at(data, 5)),
            },
        )
    } else if data[0] >= 225 {
        Err(
            engine_trouble(
                Codec::Lzma,
                crate::codecs::lzma::fault::Fault::PropertiesOption.report(),
            ),
        )
    } else {
        engine_content(
            data.skip(13),
            properties_of(data.take(5), 32, 32).with_dictionary(),
            expected,
            limits,
        )
    }
}

/// The bytes of a number add up to it.
pub proof fn lemma_digits(v: int)
    requires
        0 <= v < 0x1_0000_0000_0000_0000,
    ensures
        v % 0x100 + 0x100 * (v / 0x100 % 0x100) + 0x1_0000 * (v / 0x1_0000 % 0x100) + 0x100_0000
            * (v / 0x100_0000 % 0x100) + 0x1_0000_0000 * (v / 0x1_0000_0000 % 0x100)
            + 0x100_0000_0000 * (v / 0x100_0000_0000 % 0x100) + 0x1_0000_0000_0000 * (v
            / 0x1_0000_0000_0000 % 0x100) + 0x100_0000_0000_0000 * (v / 0x100_0000_0000_0000) == v,
        v / 0x100_0000_0000_0000 < 0x100,
{
    let a = v / 0x100;
    let b = v / 0x1_0000;
    let c = v / 0x100_0000;
    let d = v / 0x1_0000_0000;
    let e = v / 0x100_0000_0000;
    let f = v / 0x1_0000_0000_0000;
    let g = v / 0x100_0000_0000_0000;
    assert(b == a / 0x100);
    assert(c == b / 0x100);
    assert(d == c / 0x100);
    assert(e == d / 0x100);
    assert(f == e / 0x100);
    assert(g == f / 0x100);
}

/// The parts of the frame.
proof fn lemma_frame(head: Seq<u8>, value: u64, stream: Seq<u8>)
    requires
        head.len() == 5,
    ensures
        (head + little_endian(value) + stream).len() == 13 + stream.len(),
        (head + little_endian(value) + stream).take(5) == head,
        (head + little_endian(value) + stream)[0] == head[0],
        (head + little_endian(value) + stream).skip(13) == stream,
        number_at(head + little_endian(value) + stream, 5) == value,
{
    let data = head + little_endian(value) + stream;
    let count = little_endian(value);
    lemma_digits(value as int);
    assert(data.take(5) =~= head);
    assert(data.skip(13) =~= stream);
    assert(data[5] == count[0] && data[6] == count[1] && data[7] == count[2] && data[8] == count[3]
        && data[9] == count[4] && data[10] == count[5] && data[11] == count[6] && data[12]
        == count[7]);
}

/// The result of decoding a stream under given properties.
pub open spec fn engine_content(
    stream: Seq<u8>,
    properties: LzmaProps,
    expected: usize,
    limits: CodecLimits,
) -> Result<Seq<u8>, CodecTrouble> {
    let options = DecoderOptions {
        properties,
        expected_size: expected,
        limits: limits.engine_limits(),
    };
    match decoder_refusal(options) {
        Some(fault) => Err(engine_trouble(Codec::Lzma, fault.report())),
        None => match decoded(options, stream) {
            Ok(bytes) => Ok(bytes),
            Err(fault) => Err(engine_trouble(Codec::Lzma, fault.report())),
        },
    }
}

proof fn lemma_chunk_properties()
    ensures
        chunk_properties().valid(),
        chunk_properties().contexts_ok(),
        chunk_properties().with_dictionary() == chunk_properties(),
        model_workspace_size(chunk_properties()) <= 0x10_0000,
{
    vstd::arithmetic::power2::lemma2_to64();
}

/// The stream of a chunk decodes to what went in.
proof fn lemma_engine(input: Seq<u8>, limits: CodecLimits)
    requires
        limits.ample(),
        input.len() <= usize::MAX,
        lzma::unlimited_encoding(input, chunk_properties()) matches Ok(stream) && stream.len()
            <= usize::MAX,
    ensures
        engine_content(
            lzma::unlimited_encoding(input, chunk_properties())->Ok_0,
            chunk_properties(),
            input.len() as usize,
            limits,
        ) == Ok::<Seq<u8>, CodecTrouble>(input),
{
    lemma_chunk_properties();
    lemma_lzma_round_trip(input, chunk_properties());
}

/// An LZMA chunk decodes to what went in.
pub proof fn lemma_lzma_chunk(input: Seq<u8>, limits: CodecLimits)
    requires
        limits.ample(),
        input.len() <= usize::MAX,
        lzma_chunk(input) matches Ok(data) && data.len() <= usize::MAX,
    ensures
        lzma_content(lzma_chunk(input)->Ok_0, input.len() as usize, limits) == Ok::<
            Seq<u8>,
            CodecTrouble,
        >(input),
{
    if input.len() == 0 {
        assert(input =~= seq![]);
    } else {
        let props = chunk_properties();
        lemma_chunk_properties();
        lemma_properties_round_trip(props);
        lemma_frame(
            property_bytes(props),
            input.len() as u64,
            lzma::unlimited_encoding(input, props)->Ok_0,
        );
        lemma_engine(input, limits);
    }
}

/// Writes an LZMA stream behind its properties and the length of the input.
pub fn encode(input: &[u8]) -> (result: Result<Vec<u8>, CodecError>)
    ensures
        match lzma_chunk(input@) {
            Ok(data) => result matches Ok(output) && output@ == data,
            Err(trouble) => result matches Err(error) && error@ == trouble,
        },
{
    let mut output: Vec<u8> = Vec::new();
    if input.len() == 0 {
        assert(output@ =~= seq![]);
        return Ok(output);
    }
    let properties = LzmaProps { lc: 3, lp: 0, pb: 2, dict_size: 0x10000, fb: 32, mc: 32 };
    proof {
        vstd::arithmetic::power2::lemma2_to64();
        assert(properties.with_dictionary() == properties);
    }
    let raw = match lzma::encode_with_end_marker(input, &properties) {
        Ok(raw) => raw,
        Err(error) => return Err(CodecError::invalid(Codec::Lzma, error.as_str())),
    };
    let head = match lzma::decoder_props(&properties) {
        Ok(head) => head,
        Err(error) => return Err(CodecError::invalid(Codec::Lzma, error.as_str())),
    };
    let value: u64 = input.len() as u64;
    let count: [u8; 8] = [
        (value % 0x100) as u8,
        (value / 0x100 % 0x100) as u8,
        (value / 0x1_0000 % 0x100) as u8,
        (value / 0x100_0000 % 0x100) as u8,
        (value / 0x1_0000_0000 % 0x100) as u8,
        (value / 0x100_0000_0000 % 0x100) as u8,
        (value / 0x1_0000_0000_0000 % 0x100) as u8,
        (value / 0x100_0000_0000_0000) as u8,
    ];
    output.extend_from_slice(head.as_slice());
    output.extend_from_slice(count.as_slice());
    output.extend_from_slice(raw.as_slice());
    proof {
        let whole = property_bytes(chunk_properties()) + little_endian(input@.len() as u64)
            + raw@;
        assert(count@ =~= little_endian(value));
        assert(output@ =~= whole);
    }
    Ok(output)
}

/// The number in eight bytes, the lowest first.
fn read_number(input: &[u8], i: usize) -> (value: u64)
    requires
        i + 8 <= input@.len(),
        i <= 0x1000,
    ensures
        value == number_at(input@, i as int),
{
    input[i] as u64 + 0x100 * input[i + 1] as u64 + 0x1_0000 * input[i + 2] as u64 + 0x100_0000
        * input[i + 3] as u64 + 0x1_0000_0000 * input[i + 4] as u64 + 0x100_0000_0000 * input[i
        + 5] as u64 + 0x1_0000_0000_0000 * input[i + 6] as u64 + 0x100_0000_0000_0000 * input[i
        + 7] as u64
}

/// Decodes a chunk into the storage of an earlier output.
pub fn decode_with_buffer(
    input: &[u8],
    expected_length: usize,
    limits: CodecLimits,
    output: Vec<u8>,
) -> (result: Result<Vec<u8>, CodecError>)
    ensures
        match lzma_content(input@, expected_length, limits) {
            Ok(bytes) => result matches Ok(output) && output@ == bytes,
            Err(trouble) => result matches Err(error) && error@ == trouble,
        },
{
    let size: usize = input.len();
    if size == 0 && expected_length == 0 {
        let mut output = output;
        output.clear();
        assert(output@ =~= seq![]);
        return Ok(output);
    }
    if size < 13 {
        return Err(CodecError::invalid(Codec::Lzma, "truncated LZMA-alone header"));
    }
    let declared: u64 = read_number(input, 5);
    if declared != u64::MAX && declared != expected_length as u64 {
        let mut message = "decompressed length mismatch: chunk expects ".to_owned();
        append_decimal(&mut message, expected_length);
        message.append(", header declares ");
        append_wide(&mut message, declared);
        return Err(CodecError::InvalidData { codec: Codec::Lzma, message });
    }
    let properties: [u8; 5] = [input[0], input[1], input[2], input[3], input[4]];
    assert(properties@ =~= input@.take(5));
    let options = match DecoderOptions::from_decoder_properties(properties, expected_length) {
        Ok(options) => options,
        Err(error) => return Err(
            CodecError::engine(Codec::Lzma, error.kind(), error.message()),
        ),
    };
    let options = DecoderOptions {
        properties: options.properties,
        expected_size: options.expected_size,
        limits: limits.for_engine(),
    };
    let mut decoder = match lzma::Decoder::with_output(options, output) {
        Ok(decoder) => decoder,
        Err(error) => return Err(
            CodecError::engine(Codec::Lzma, error.kind(), error.message()),
        ),
    };
    let stream = vstd::slice::slice_subrange(input, 13, size);
    assert(stream@ =~= input@.skip(13));
    match decoder.decode(stream) {
        Ok(_) => {},
        Err(error) => return Err(
            CodecError::engine(Codec::Lzma, error.kind(), error.message()),
        ),
    }
    Ok(decoder.take_output())
}

/// Decodes a chunk.
pub fn decode(input: &[u8], expected_length: usize, limits: CodecLimits) -> (result: Result<
    Vec<u8>,
    CodecError,
>)
    ensures
        match lzma_content(input@, expected_length, limits) {
            Ok(bytes) => result matches Ok(output) && output@ == bytes,
            Err(trouble) => result matches Err(error) && error@ == trouble,
        },
{
    decode_with_buffer(input, expected_length, limits, Vec::new())
}

} // verus!
