//! The strict decoder of raw LZMA streams.

use vstd::prelude::*;
use vstd::string::*;

use crate::codecs::lzma::decoding::{decode_operations, StreamShape};
use crate::codecs::lzma::operations::{
    first_reader, no_history, steps, Defect, Shape,
};
use crate::codecs::lzma::options::properties_of;
use crate::codecs::lzma::range::{first_place, RangeDecoder};
use crate::codecs::text::{append_decimal, decimal};

verus! {

/// Why a raw stream is refused. Distances are counted from one.
#[derive(Debug, Clone, Copy, PartialEq, Eq, Structural)]
pub enum DecodeError {
    InvalidProperties,
    InvalidRangeCode,
    TruncatedInput,
    InvalidDistance { distance: u32, output_position: usize },
    MatchExceedsOutput { match_length: usize, remaining: usize },
    UnexpectedEndMarker,
}

/// The description of an error.
pub open spec fn error_text(error: DecodeError) -> Seq<char> {
    match error {
        DecodeError::InvalidProperties => "invalid LZMA decoder properties"@,
        DecodeError::InvalidRangeCode => "invalid LZMA range-code prefix"@,
        DecodeError::TruncatedInput => "truncated LZMA input"@,
        DecodeError::InvalidDistance { distance, output_position } => "invalid LZMA distance "@
            + decimal(distance as nat) + " at output position "@ + decimal(output_position as nat),
        DecodeError::MatchExceedsOutput { match_length, remaining } => "LZMA match length "@
            + decimal(match_length as nat) + " exceeds "@ + decimal(remaining as nat)
            + " remaining output bytes"@,
        DecodeError::UnexpectedEndMarker =>
            "LZMA end marker appeared before the expected output length"@,
    }
}

impl DecodeError {
    /// The human-readable description of the error.
    pub fn message(&self) -> (text: String)
        ensures
            text@ == error_text(*self),
    {
        match *self {
            DecodeError::InvalidProperties => "invalid LZMA decoder properties".to_owned(),
            DecodeError::InvalidRangeCode => "invalid LZMA range-code prefix".to_owned(),
            DecodeError::TruncatedInput => "truncated LZMA input".to_owned(),
            DecodeError::InvalidDistance { distance, output_position } => {
                let mut text = "invalid LZMA distance ".to_owned();
                append_decimal(&mut text, distance as usize);
                text.append(" at output position ");
                append_decimal(&mut text, output_position);
                text
            },
            DecodeError::MatchExceedsOutput { match_length, remaining } => {
                let mut text = "LZMA match length ".to_owned();
                append_decimal(&mut text, match_length);
                text.append(" exceeds ");
                append_decimal(&mut text, remaining);
                text.append(" remaining output bytes");
                text
            },
            DecodeError::UnexpectedEndMarker => {
                "LZMA end marker appeared before the expected output length".to_owned()
            },
        }
    }
}

/// The error that a defect of a stream is reported as.
pub open spec fn error_of(defect: Defect) -> DecodeError {
    match defect {
        Defect::Truncated => DecodeError::TruncatedInput,
        Defect::LiteralDistance { distance, position } => DecodeError::InvalidDistance {
            distance: distance as u32,
            output_position: position,
        },
        Defect::MatchDistance { distance, position } => DecodeError::InvalidDistance {
            distance: distance as u32,
            output_position: position,
        },
        Defect::MatchExceedsOutput { length, remaining } => DecodeError::MatchExceedsOutput {
            match_length: length,
            remaining,
        },
        Defect::EndMarker => DecodeError::UnexpectedEndMarker,
    }
}

/// The shape that five property bytes stand for; the dictionary is at least one byte.
pub open spec fn recorded_shape(properties: Seq<u8>) -> Shape {
    let props = properties_of(properties, 0, 0);
    Shape {
        lc: props.lc as nat,
        lp: props.lp as nat,
        pb: props.pb as nat,
        dict: if props.dict_size == 0 {
            1
        } else {
            props.dict_size as int
        },
    }
}

/// What a raw stream decodes to, given that it must be `expected` bytes.
pub open spec fn raw_content(data: Seq<u8>, properties: Seq<u8>, expected: int) -> Result<
    Seq<u8>,
    DecodeError,
> {
    if properties[0] >= 225 {
        Err(DecodeError::InvalidProperties)
    } else if data.len() < 5 {
        Err(DecodeError::TruncatedInput)
    } else {
        match first_place(data) {
            None => Err(DecodeError::InvalidRangeCode),
            Some(place) => match steps(
                recorded_shape(properties),
                first_reader(recorded_shape(properties), true, data, place),
                no_history(),
                expected,
            ) {
                Err(defect) => Err(error_of(defect)),
                Ok(out) => Ok(out),
            },
        }
    }
}

fn report_defect(defect: Defect) -> (error: DecodeError)
    ensures
        error == error_of(defect),
{
    match defect {
        Defect::Truncated => DecodeError::TruncatedInput,
        Defect::LiteralDistance { distance, position } => DecodeError::InvalidDistance {
            distance: #[verifier::truncate] (distance as u32),
            output_position: position,
        },
        Defect::MatchDistance { distance, position } => DecodeError::InvalidDistance {
            distance: #[verifier::truncate] (distance as u32),
            output_position: position,
        },
        Defect::MatchExceedsOutput { length, remaining } => DecodeError::MatchExceedsOutput {
            match_length: length,
            remaining,
        },
        Defect::EndMarker => DecodeError::UnexpectedEndMarker,
    }
}

/// Decodes a raw stream into exactly `out_len` bytes, with the five property bytes of its
/// encoder.
pub fn decode_raw(input: &[u8], props: &[u8; 5], out_len: usize) -> (result: Result<
    Vec<u8>,
    DecodeError,
>)
    ensures
        match raw_content(input@, props@, out_len as int) {
            Ok(out) => result is Ok && result->Ok_0@ == out,
            Err(error) => result == Err::<Vec<u8>, DecodeError>(error),
        },
{
    if props[0] >= 225 {
        return Err(DecodeError::InvalidProperties);
    }
    let lc: u32 = (props[0] % 9) as u32;
    let lp: u32 = (props[0] / 9 % 5) as u32;
    let pb: u32 = (props[0] / 9 / 5) as u32;
    let dict_size: u32 = props[1] as u32 + props[2] as u32 * 0x100 + props[3] as u32 * 0x1_0000
        + props[4] as u32 * 0x100_0000;
    let shape = StreamShape {
        lc,
        lp,
        pb,
        dict_size: if dict_size == 0 {
            1
        } else {
            dict_size
        },
    };
    assert(shape.shape() == recorded_shape(props@));
    if input.len() < 5 {
        return Err(DecodeError::TruncatedInput);
    }
    let decoder = match RangeDecoder::new(input, true) {
        Some(decoder) => decoder,
        None => return Err(DecodeError::InvalidRangeCode),
    };
    let output: Vec<u8> = Vec::with_capacity(out_len);
    assert(output@ =~= Seq::<u8>::empty());
    match decode_operations(decoder, &shape, out_len, output) {
        Ok(output) => Ok(output),
        Err(defect) => Err(report_defect(defect)),
    }
}

} // verus!
