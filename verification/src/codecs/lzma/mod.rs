//! LZMA1 streams.

pub mod codec;
pub mod coder;
pub mod decoding;
pub mod encoding;
pub mod engine;
pub mod fault;
pub mod laws;
pub mod operations;
pub mod options;
pub mod range;
pub mod symbols;

pub use crate::codecs::error::{Error, ErrorKind};
pub use crate::codecs::zlib::options::ResourceLimits;
pub use codec::{decode, encode, Decoder, Encoder};
pub use options::{DecoderOptions, EncoderOptions, LzmaProps};

use vstd::prelude::*;

verus! {

/// Another name for the error of a decoder.
pub type DecodeError = Error;

/// The five property bytes, after validation.
pub fn decoder_props(props: &LzmaProps) -> (bytes: Result<[u8; 5], Error>)
    ensures
        props.contexts_ok() ==> bytes is Ok && bytes->Ok_0@ == options::property_bytes(
            props.with_dictionary(),
        ),
        !props.contexts_ok() ==> bytes is Err && bytes->Err_0@
            == fault::Fault::ContextOptions.report(),
{
    props.decoder_properties()
}

/// The result of encoding without limits.
pub open spec fn unlimited_encoding(input: Seq<u8>, props: LzmaProps) -> Result<
    Seq<u8>,
    fault::Fault,
> {
    if !props.contexts_ok() {
        Err(fault::Fault::ContextOptions)
    } else {
        codec::encoded(
            EncoderOptions {
                properties: props.with_dictionary(),
                limits: ResourceLimits::no_limits(),
            },
            input,
        )
    }
}

/// Encodes `input` as a raw stream with an end marker.
pub fn encode_with_end_marker(input: &[u8], props: &LzmaProps) -> (result: Result<Vec<u8>, Error>)
    ensures
        match unlimited_encoding(input@, *props) {
            Ok(stream) => result is Ok && result->Ok_0@ == stream,
            Err(fault) => result is Err && result->Err_0@ == fault.report(),
        },
{
    encode(
        input,
        &EncoderOptions { properties: *props, limits: ResourceLimits::unlimited() },
    )
}

/// Encodes `input` as a raw stream with an end marker, after validating the properties.
pub fn encode_checked(input: &[u8], props: &LzmaProps) -> (result: Result<Vec<u8>, Error>)
    ensures
        match unlimited_encoding(input@, *props) {
            Ok(stream) => result is Ok && result->Ok_0@ == stream,
            Err(fault) => result is Err && result->Err_0@ == fault.report(),
        },
{
    encode_with_end_marker(input, props)
}

/// Decodes a raw stream to exactly `expected_size` bytes.
pub fn decode_raw(input: &[u8], properties: &[u8; 5], expected_size: usize) -> (result: Result<
    Vec<u8>,
    Error,
>)
    ensures
        properties@[0] >= 225 ==> result is Err && result->Err_0@
            == fault::Fault::PropertiesOption.report(),
        properties@[0] < 225 ==> match engine::unlzma(input@, properties@, expected_size as int) {
            Ok(content) => result is Ok && result->Ok_0@ == content,
            Err(fault) => result is Err && result->Err_0@ == fault.report(),
        },
{
    let options = match DecoderOptions::from_decoder_properties(*properties, expected_size) {
        Ok(options) => options,
        Err(error) => return Err(error),
    };
    proof {
        let props = options.properties;
        assert(props.with_dictionary() == props);
        codec::lemma_content_ignores_effort(input@, props, 0, 0, expected_size as int);
        assert(options::properties_of(properties@, 0, 0).with_dictionary() == (LzmaProps {
            fb: 0,
            mc: 0,
            ..props
        }));
        assert(options::model_workspace_size(props) <= usize::MAX) by {
            vstd::arithmetic::power2::lemma2_to64();
            crate::math::lemma_pow2_monotonic((props.lc + props.lp) as nat, 12);
        }
    }
    assert(input@.len() == input.len());
    decode(input, &options)
}

} // verus!
