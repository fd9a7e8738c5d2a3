//! The zlib frame around a raw DEFLATE stream.

use vstd::prelude::*;

use crate::codecs::zlib::checksum::{adler, adler32};
use crate::codecs::zlib::deflate::{deflate, encode_raw_appending, lemma_deflate_round_trip};
use crate::codecs::zlib::fault::Fault;
use crate::codecs::zlib::inflate::{decode_raw_with_buffer, inflate};

verus! {

/// The four bytes of `value`, most significant first.
pub open spec fn big_endian(value: u32) -> Seq<u8> {
    seq![
        (value / 0x100_0000) as u8,
        (value / 0x1_0000 % 0x100) as u8,
        (value / 0x100 % 0x100) as u8,
        (value % 0x100) as u8,
    ]
}

/// The zlib stream that the encoder makes of `input`: a header for a 32 KiB window, the raw
/// stream and the checksum of the input.
pub open spec fn zlib_stream(input: Seq<u8>) -> Seq<u8> {
    seq![0x78u8, 0x9cu8] + deflate(input) + big_endian(adler(input))
}

/// Why the two header bytes are refused, if they are.
pub open spec fn header_fault(cmf: u8, flg: u8) -> Option<Fault> {
    if cmf % 16 != 8 || cmf / 16 > 7 {
        Some(Fault::UnsupportedMethod)
    } else if (cmf as int * 256 + flg) % 31 != 0 {
        Some(Fault::HeaderChecksum)
    } else if flg / 32 % 2 != 0 {
        Some(Fault::PresetDictionary)
    } else {
        None
    }
}

/// What the zlib stream `data` decodes to, given that it must be `expected` bytes.
pub open spec fn unzlib(data: Seq<u8>, expected: usize) -> Result<Seq<u8>, Fault> {
    if data.len() < 6 {
        Err(Fault::TruncatedZlib)
    } else {
        match header_fault(data[0], data[1]) {
            Some(fault) => Err(fault),
            None => match inflate(data.subrange(2, data.len() - 4), expected) {
                Err(fault) => Err(fault),
                Ok(out) => if big_endian(adler(out)) != data.skip(data.len() - 4) {
                    Err(Fault::ChecksumMismatch)
                } else {
                    Ok(out)
                },
            },
        }
    }
}

/// Decoding what was encoded gives back the input: zlib streams lose nothing.
pub proof fn lemma_zlib_round_trip(input: Seq<u8>)
    requires
        input.len() <= usize::MAX,
    ensures
        unzlib(zlib_stream(input), input.len() as usize) == Ok::<Seq<u8>, Fault>(input),
{
    let data = zlib_stream(input);
    lemma_deflate_round_trip(input);
    assert(data.subrange(2, data.len() - 4) =~= deflate(input));
    assert(data.skip(data.len() - 4) =~= big_endian(adler(input)));
    assert(header_fault(0x78, 0x9c) is None);
}

/// Encodes `input` as a zlib stream, reusing the storage of `output`.
pub fn encode_zlib_with_buffer(input: &[u8], output: Vec<u8>) -> (result: Vec<u8>)
    ensures
        result@ == zlib_stream(input@),
{
    let mut output = output;
    output.clear();
    output.push(0x78);
    output.push(0x9c);
    let mut output = encode_raw_appending(input, output);
    let checksum: u32 = adler32(input);
    output.push((checksum / 0x100_0000) as u8);
    output.push((checksum / 0x1_0000 % 0x100) as u8);
    output.push((checksum / 0x100 % 0x100) as u8);
    output.push((checksum % 0x100) as u8);
    assert(output@ =~= zlib_stream(input@));
    output
}

/// Decodes a zlib stream to exactly `expected_length` bytes and compares its checksum. The
/// storage of `output` is reused.
pub fn decode_zlib_with_buffer(input: &[u8], expected_length: usize, output: Vec<u8>) -> (result:
    Result<Vec<u8>, Fault>)
    ensures
        match unzlib(input@, expected_length) {
            Ok(out) => result is Ok && result->Ok_0@ == out,
            Err(fault) => result == Err::<Vec<u8>, Fault>(fault),
        },
{
    if input.len() < 6 {
        return Err(Fault::TruncatedZlib);
    }
    let cmf: u8 = input[0];
    let flg: u8 = input[1];
    if cmf % 16 != 8 || cmf / 16 > 7 {
        return Err(Fault::UnsupportedMethod);
    }
    if (cmf as u32 * 256 + flg as u32) % 31 != 0 {
        return Err(Fault::HeaderChecksum);
    }
    if flg / 32 % 2 != 0 {
        return Err(Fault::PresetDictionary);
    }
    let payload_end: usize = input.len() - 4;
    let payload = vstd::slice::slice_subrange(input, 2, payload_end);
    let output = match decode_raw_with_buffer(payload, expected_length, output) {
        Ok(output) => output,
        Err(fault) => return Err(fault),
    };
    let actual: u32 = adler32(output.as_slice());
    let same: bool = input[payload_end] == (actual / 0x100_0000) as u8 && input[payload_end + 1]
        == (actual / 0x1_0000 % 0x100) as u8 && input[payload_end + 2] == (actual / 0x100
        % 0x100) as u8 && input[payload_end + 3] == (actual % 0x100) as u8;
    proof {
        let trailer = input@.skip(input@.len() - 4);
        let wanted = big_endian(adler(output@));
        if same {
            assert(wanted =~= trailer);
        } else if wanted == trailer {
            assert(wanted[0] == trailer[0] && wanted[1] == trailer[1] && wanted[2] == trailer[2]
                && wanted[3] == trailer[3]);
        }
    }
    if !same {
        return Err(Fault::ChecksumMismatch);
    }
    Ok(output)
}

} // verus!
