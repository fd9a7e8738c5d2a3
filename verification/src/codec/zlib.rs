//! DEFLATE chunks in a shortened gzip frame.

use vstd::prelude::*;

use crate::codec::error::{engine_trouble, CodecError, CodecTrouble};
use crate::codec::flags::Codec;
use crate::codec::limits::CodecLimits;
use crate::codecs::zlib;
use crate::codecs::zlib::codec::{decoded, decoder_refusal};
use crate::codecs::zlib::deflate::{deflate, lemma_deflate_round_trip};
use crate::codecs::zlib::options::{DecoderOptions, StreamFormat};

verus! {

/// The ten bytes before the stream: DEFLATE, no optional fields, no time, NTFS.
pub open spec fn gzip_header() -> Seq<u8> {
    seq![0x1f, 0x8b, 8, 0, 0, 0, 0, 0, 0, 11]
}

/// The stored bytes of a DEFLATE chunk: a gzip header and a raw stream, without the checksum
/// and the length that would follow. An empty input is stored as nothing.
pub open spec fn zlib_chunk(input: Seq<u8>) -> Seq<u8> {
    if input.len() == 0 {
        seq![]
    } else {
        gzip_header() + deflate(input)
    }
}

/// The first zero from `i` on, or the end.
pub open spec fn zero_from(data: Seq<u8>, i: int) -> int
    decreases data.len() - i,
{
    if i >= data.len() || data[i] == 0 {
        i
    } else {
        zero_from(data, i + 1)
    }
}

/// Where the text at `i` ends, behind its zero.
pub open spec fn text_end(data: Seq<u8>, i: int, fault: Seq<char>) -> Result<int, Seq<char>> {
    if zero_from(data, i) < data.len() {
        Ok(zero_from(data, i) + 1)
    } else {
        Err(fault)
    }
}

/// Behind the extra field, if there is one.
pub open spec fn after_extra(data: Seq<u8>, i: int) -> Result<int, Seq<char>> {
    if data[3] & 0x04 == 0 {
        Ok(i)
    } else if i + 2 > data.len() {
        Err("truncated gzip extra-field length"@)
    } else if i + 2 + data[i] + 256 * data[i + 1] > data.len() {
        Err("truncated gzip extra field"@)
    } else {
        Ok(i + 2 + data[i] + 256 * data[i + 1])
    }
}

pub open spec fn after_name(data: Seq<u8>, i: int) -> Result<int, Seq<char>> {
    if data[3] & 0x08 == 0 {
        Ok(i)
    } else {
        text_end(data, i, "unterminated gzip file name"@)
    }
}

pub open spec fn after_comment(data: Seq<u8>, i: int) -> Result<int, Seq<char>> {
    if data[3] & 0x10 == 0 {
        Ok(i)
    } else {
        text_end(data, i, "unterminated gzip comment"@)
    }
}

pub open spec fn after_checksum(data: Seq<u8>, i: int) -> Result<int, Seq<char>> {
    if data[3] & 0x02 == 0 {
        Ok(i)
    } else if i + 2 > data.len() {
        Err("truncated gzip header checksum"@)
    } else {
        Ok(i + 2)
    }
}

/// Where the stream behind a gzip header begins.
pub open spec fn gzip_payload(data: Seq<u8>) -> Result<int, Seq<char>> {
    if data.len() < 10 {
        Err("truncated gzip header"@)
    } else if data[2] != 8 {
        Err("gzip stream does not use DEFLATE"@)
    } else if data[3] & 0xe0 != 0 {
        Err("gzip header uses reserved flags"@)
    } else {
        match after_extra(data, 10) {
            Err(fault) => Err(fault),
            Ok(i) => match after_name(data, i) {
                Err(fault) => Err(fault),
                Ok(i) => match after_comment(data, i) {
                    Err(fault) => Err(fault),
                    Ok(i) => after_checksum(data, i),
                },
            },
        }
    }
}

/// What an engine makes of a stream.
pub open spec fn engine_content(
    data: Seq<u8>,
    expected: usize,
    format: StreamFormat,
    limits: CodecLimits,
) -> Result<Seq<u8>, CodecTrouble> {
    let options = DecoderOptions {
        format,
        expected_size: expected,
        limits: limits.engine_limits(),
    };
    match decoder_refusal(options) {
        Some(fault) => Err(engine_trouble(Codec::Zlib, fault.report())),
        None => match decoded(options, data) {
            Ok(bytes) => Ok(bytes),
            Err(fault) => Err(engine_trouble(Codec::Zlib, fault.report())),
        },
    }
}

/// What a DEFLATE chunk decodes to: a gzip frame or a zlib stream.
pub open spec fn zlib_content(data: Seq<u8>, expected: usize, limits: CodecLimits) -> Result<
    Seq<u8>,
    CodecTrouble,
> {
    if data.len() == 0 && expected == 0 {
        Ok(seq![])
    } else if data.len() >= 2 && data[0] == 0x1f && data[1] == 0x8b {
        match gzip_payload(data) {
            Err(message) => Err(CodecTrouble::InvalidData { codec: Codec::Zlib, message }),
            Ok(i) => engine_content(data.skip(i), expected, StreamFormat::RawDeflate, limits),
        }
    } else {
        engine_content(data, expected, StreamFormat::Zlib, limits)
    }
}

/// The stream begins behind the ten bytes.
proof fn lemma_header(stream: Seq<u8>)
    ensures
        gzip_payload(gzip_header() + stream) == Ok::<int, Seq<char>>(10),
        (gzip_header() + stream)[0] == 0x1f,
        (gzip_header() + stream)[1] == 0x8b,
        (gzip_header() + stream).skip(10) == stream,
{
    let data = gzip_header() + stream;
    assert(data[0] == 0x1f && data[1] == 0x8b && data[2] == 8 && data[3] == 0);
    assert(0u8 & 0xe0 == 0 && 0u8 & 0x04 == 0 && 0u8 & 0x08 == 0 && 0u8 & 0x10 == 0 && 0u8 & 0x02
        == 0) by (bit_vector);
    assert(data.skip(10) =~= stream);
}

/// A raw stream decodes to what went in.
proof fn lemma_engine(input: Seq<u8>, limits: CodecLimits)
    requires
        limits.ample(),
        input.len() <= usize::MAX,
        deflate(input).len() <= usize::MAX,
    ensures
        engine_content(
            deflate(input),
            input.len() as usize,
            StreamFormat::RawDeflate,
            limits,
        ) == Ok::<Seq<u8>, CodecTrouble>(input),
{
    lemma_deflate_round_trip(input);
}

/// A DEFLATE chunk decodes to what went in.
pub proof fn lemma_zlib_chunk(input: Seq<u8>, limits: CodecLimits)
    requires
        limits.ample(),
        input.len() <= usize::MAX,
        zlib_chunk(input).len() <= usize::MAX,
    ensures
        zlib_content(zlib_chunk(input), input.len() as usize, limits) == Ok::<
            Seq<u8>,
            CodecTrouble,
        >(input),
{
    if input.len() == 0 {
        assert(input =~= seq![]);
    } else {
        lemma_header(deflate(input));
        lemma_engine(input, limits);
    }
}

/// Writes a gzip header and a raw DEFLATE stream.
pub fn encode(input: &[u8]) -> (output: Vec<u8>)
    ensures
        output@ == zlib_chunk(input@),
{
    let mut output: Vec<u8> = Vec::new();
    if input.len() == 0 {
        assert(output@ =~= seq![]);
        return output;
    }
    let raw = zlib::encode_raw(input);
    let header: [u8; 10] = [0x1f, 0x8b, 8, 0, 0, 0, 0, 0, 0, 11];
    output.extend_from_slice(header.as_slice());
    output.extend_from_slice(raw.as_slice());
    assert(output@ =~= gzip_header() + deflate(input@));
    output
}

/// Decodes a chunk into the storage of an earlier output.
pub fn decode_with_buffer(
    input: &[u8],
    expected_length: usize,
    limits: CodecLimits,
    output: Vec<u8>,
) -> (result: Result<Vec<u8>, CodecError>)
    ensures
        match zlib_content(input@, expected_length, limits) {
            Ok(bytes) => result matches Ok(output) && output@ == bytes,
            Err(trouble) => result matches Err(error) && error@ == trouble,
        },
{
    if input.len() == 0 && expected_length == 0 {
        let mut output = output;
        output.clear();
        assert(output@ =~= seq![]);
        return Ok(output);
    }
    if input.len() >= 2 && input[0] == 0x1f && input[1] == 0x8b {
        let size: usize = input.len();
        match gzip_payload_offset(input) {
            Ok(start) => {
                let payload = vstd::slice::slice_subrange(input, start, size);
                assert(payload@ =~= input@.skip(start as int));
                decode_engine(payload, expected_length, StreamFormat::RawDeflate, limits, output)
            },
            Err(message) => Err(CodecError::InvalidData { codec: Codec::Zlib, message }),
        }
    } else {
        decode_engine(input, expected_length, StreamFormat::Zlib, limits, output)
    }
}

fn decode_engine(
    input: &[u8],
    expected_length: usize,
    format: StreamFormat,
    limits: CodecLimits,
    output: Vec<u8>,
) -> (result: Result<Vec<u8>, CodecError>)
    ensures
        match engine_content(input@, expected_length, format, limits) {
            Ok(bytes) => result matches Ok(output) && output@ == bytes,
            Err(trouble) => result matches Err(error) && error@ == trouble,
        },
{
    let options = DecoderOptions {
        format,
        expected_size: expected_length,
        limits: limits.for_engine(),
    };
    let mut decoder = match zlib::Decoder::with_output(options, output) {
        Ok(decoder) => decoder,
        Err(error) => return Err(
            CodecError::engine(Codec::Zlib, error.kind(), error.message()),
        ),
    };
    match decoder.decode(input) {
        Ok(_) => {},
        Err(error) => return Err(
            CodecError::engine(Codec::Zlib, error.kind(), error.message()),
        ),
    }
    Ok(decoder.take_output())
}

/// Where the stream behind a gzip header begins.
fn gzip_payload_offset(input: &[u8]) -> (result: Result<usize, String>)
    ensures
        match gzip_payload(input@) {
            Ok(start) => result matches Ok(offset) && offset == start && start <= input@.len(),
            Err(message) => result matches Err(text) && text@ == message,
        },
{
    let size: usize = input.len();
    if size < 10 {
        return Err("truncated gzip header".to_owned());
    }
    if input[2] != 8 {
        return Err("gzip stream does not use DEFLATE".to_owned());
    }
    let flags: u8 = input[3];
    if flags & 0xe0 != 0 {
        return Err("gzip header uses reserved flags".to_owned());
    }
    let mut offset: usize = 10;
    if flags & 0x04 != 0 {
        if size - offset < 2 {
            return Err("truncated gzip extra-field length".to_owned());
        }
        let length: usize = input[offset] as usize + 256 * input[offset + 1] as usize;
        if size - offset - 2 < length {
            return Err("truncated gzip extra field".to_owned());
        }
        offset = offset + 2 + length;
    }
    if flags & 0x08 != 0 {
        match skip_c_string(input, offset) {
            Some(end) => {
                offset = end;
            },
            None => return Err("unterminated gzip file name".to_owned()),
        }
    }
    if flags & 0x10 != 0 {
        match skip_c_string(input, offset) {
            Some(end) => {
                offset = end;
            },
            None => return Err("unterminated gzip comment".to_owned()),
        }
    }
    if flags & 0x02 != 0 {
        if size - offset < 2 {
            return Err("truncated gzip header checksum".to_owned());
        }
        offset = offset + 2;
    }
    Ok(offset)
}

/// Where the text at `offset` ends, behind its zero.
fn skip_c_string(input: &[u8], offset: usize) -> (end: Option<usize>)
    requires
        offset <= input@.len(),
    ensures
        match end {
            Some(end) => zero_from(input@, offset as int) < input@.len() && end == zero_from(
                input@,
                offset as int,
            ) + 1,
            None => zero_from(input@, offset as int) >= input@.len(),
        },
{
    let size: usize = input.len();
    let mut i: usize = offset;
    while i < size && input[i] != 0
        invariant
            offset <= i <= size,
            size == input@.len(),
            zero_from(input@, offset as int) == zero_from(input@, i as int),
        decreases size - i,
    {
        i += 1;
    }
    if i < size {
        Some(i + 1)
    } else {
        None
    }
}

} // verus!
