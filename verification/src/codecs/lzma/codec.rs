//! Reusable LZMA encoders and decoders with resource limits.

use vstd::prelude::*;

use crate::codecs::error::Error;
use crate::codecs::lzma::engine::{
    content, decode_raw_with_buffer, encode_checked_with_buffer, lemma_lzma_round_trip, lzma_stream,
};
use crate::codecs::lzma::fault::Fault;
use crate::codecs::lzma::options::{
    encode_workspace, encode_workspace_size, lemma_properties_round_trip, model_workspace,
    model_workspace_size, property_bytes, DecoderOptions, EncoderOptions, LzmaProps,
};

verus! {

/// Why a request to encode `input` is refused before any work, if it is.
pub open spec fn encode_refusal(options: EncoderOptions, input: Seq<u8>) -> Option<Fault> {
    let workspace = encode_workspace_size(input.len() as int, options.properties);
    if input.len() > options.limits.max_input_size {
        Some(Fault::InputLimit)
    } else if workspace > usize::MAX {
        Some(Fault::WorkspaceOverflow)
    } else if workspace > options.limits.max_workspace_size {
        Some(Fault::WorkspaceLimit)
    } else {
        None
    }
}

/// The result of encoding `input` under options with valid properties.
pub open spec fn encoded(options: EncoderOptions, input: Seq<u8>) -> Result<Seq<u8>, Fault> {
    match encode_refusal(options, input) {
        Some(fault) => Err(fault),
        None => {
            let stream = lzma_stream(input, options.properties);
            if stream.len() > options.limits.max_output_size {
                Err(Fault::OutputLimit)
            } else {
                Ok(stream)
            }
        },
    }
}

/// Why decoder options are refused, if they are.
pub open spec fn decoder_refusal(options: DecoderOptions) -> Option<Fault> {
    if !options.properties.contexts_ok() {
        Some(Fault::ContextOptions)
    } else if options.expected_size > options.limits.max_output_size {
        Some(Fault::DeclaredOutputLimit)
    } else if model_workspace_size(options.properties) > options.limits.max_workspace_size {
        Some(Fault::WorkspaceLimit)
    } else {
        None
    }
}

/// The result of decoding `data` under options with valid properties.
pub open spec fn decoded(options: DecoderOptions, data: Seq<u8>) -> Result<Seq<u8>, Fault> {
    if data.len() > options.limits.max_input_size {
        Err(Fault::InputLimit)
    } else {
        content(data, options.properties, options.expected_size as int)
    }
}

/// Only the context bits and the dictionary matter to a decoder, not the search effort.
pub proof fn lemma_content_ignores_effort(data: Seq<u8>, props: LzmaProps, fb: u32, mc: u32, n: int)
    ensures
        content(data, LzmaProps { fb, mc, ..props }, n) == content(data, props, n),
{
    assert((LzmaProps { fb, mc, ..props }).shape() == props.shape());
}

/// A decoder with the same properties gives back every input that an encoder took, whatever
/// the limits of both, as long as neither refuses.
pub proof fn lemma_codec_round_trip(
    encoder: EncoderOptions,
    decoder: DecoderOptions,
    input: Seq<u8>,
)
    requires
        encoder.properties == decoder.properties,
        encoder.properties.valid(),
        decoder.expected_size == input.len(),
        encoded(encoder, input) is Ok,
        encoded(encoder, input)->Ok_0.len() <= decoder.limits.max_input_size,
    ensures
        decoded(decoder, encoded(encoder, input)->Ok_0) == Ok::<Seq<u8>, Fault>(input),
{
    lemma_lzma_round_trip(input, encoder.properties);
}

#[derive(Debug)]
pub struct Encoder {
    options: EncoderOptions,
    output: Vec<u8>,
}

impl Encoder {
    /// The options, with the properties as they are after validation.
    pub closed spec fn options(&self) -> EncoderOptions {
        self.options
    }

    /// What the last request left behind.
    pub closed spec fn kept(&self) -> Seq<u8> {
        self.output@
    }

    pub open spec fn wf(&self) -> bool {
        self.options().properties.valid()
    }

    pub fn new(options: EncoderOptions) -> (encoder: Result<Self, Error>)
        ensures
            options.properties.contexts_ok() ==> encoder is Ok && encoder->Ok_0.options() == (
            EncoderOptions { properties: options.properties.with_dictionary(), ..options })
                && encoder->Ok_0.kept() == Seq::<u8>::empty() && encoder->Ok_0.wf(),
            !options.properties.contexts_ok() ==> encoder is Err && encoder->Err_0@
                == Fault::ContextOptions.report(),
    {
        let properties = match options.properties.validate() {
            Ok(properties) => properties,
            Err(error) => return Err(error),
        };
        let encoder = Encoder {
            options: EncoderOptions { properties, limits: options.limits },
            output: Vec::new(),
        };
        assert(encoder.output@ =~= Seq::<u8>::empty());
        Ok(encoder)
    }

    /// Encodes `input`. A request refused before any work leaves the last output in place; one
    /// whose output is too large leaves that output.
    pub fn encode(&mut self, input: &[u8]) -> (result: Result<&[u8], Error>)
        requires
            old(self).wf(),
        ensures
            final(self).wf(),
            final(self).options() == old(self).options(),
            match encoded(old(self).options(), input@) {
                Ok(stream) => result is Ok && result->Ok_0@ == stream,
                Err(fault) => result is Err && result->Err_0@ == fault.report(),
            },
            final(self).kept() == (if encode_refusal(old(self).options(), input@) is Some {
                old(self).kept()
            } else {
                lzma_stream(input@, old(self).options().properties)
            }),
    {
        match check_input(input.len(), self.options.limits.max_input_size) {
            Ok(()) => {},
            Err(fault) => return Err(fault.error()),
        }
        let workspace: usize = match encode_workspace(input.len(), self.options.properties) {
            Some(workspace) => workspace,
            None => return Err(Fault::WorkspaceOverflow.error()),
        };
        match check_workspace(workspace, self.options.limits.max_workspace_size) {
            Ok(()) => {},
            Err(fault) => return Err(fault.error()),
        }
        let output = self.take_output();
        match encode_checked_with_buffer(input, &self.options.properties, output) {
            Ok(stream) => {
                self.output = stream;
            },
            Err(fault) => return Err(fault.error()),
        }
        match check_output(self.output.len(), self.options.limits.max_output_size) {
            Ok(()) => {},
            Err(fault) => return Err(fault.error()),
        }
        Ok(self.output.as_slice())
    }

    pub fn output(&self) -> (output: &[u8])
        ensures
            output@ == self.kept(),
    {
        self.output.as_slice()
    }

    pub fn take_output(&mut self) -> (output: Vec<u8>)
        ensures
            output@ == old(self).kept(),
            final(self).kept() == Seq::<u8>::empty(),
            final(self).options() == old(self).options(),
    {
        let mut output: Vec<u8> = Vec::new();
        core::mem::swap(&mut output, &mut self.output);
        assert(self.output@ =~= Seq::<u8>::empty());
        output
    }
}

#[derive(Debug)]
pub struct Decoder {
    options: DecoderOptions,
    output: Vec<u8>,
}

impl Decoder {
    /// The options, with the properties as they are after validation.
    pub closed spec fn options(&self) -> DecoderOptions {
        self.options
    }

    /// What the last request left behind.
    pub closed spec fn kept(&self) -> Seq<u8> {
        self.output@
    }

    pub open spec fn wf(&self) -> bool {
        self.options().properties.valid()
    }

    pub fn new(options: DecoderOptions) -> (decoder: Result<Self, Error>)
        ensures
            match decoder_refusal(options) {
                Some(fault) => decoder is Err && decoder->Err_0@ == fault.report(),
                None => decoder is Ok && decoder->Ok_0.wf() && decoder->Ok_0.options() == (
                DecoderOptions { properties: options.properties.with_dictionary(), ..options })
                    && decoder->Ok_0.kept() == Seq::<u8>::empty(),
            },
    {
        Self::with_output(options, Vec::new())
    }

    /// A decoder that reuses the storage of `output`.
    pub fn with_output(options: DecoderOptions, output: Vec<u8>) -> (decoder: Result<Self, Error>)
        ensures
            match decoder_refusal(options) {
                Some(fault) => decoder is Err && decoder->Err_0@ == fault.report(),
                None => decoder is Ok && decoder->Ok_0.wf() && decoder->Ok_0.options() == (
                DecoderOptions { properties: options.properties.with_dictionary(), ..options })
                    && decoder->Ok_0.kept() == Seq::<u8>::empty(),
            },
    {
        let properties = match options.properties.validate() {
            Ok(properties) => properties,
            Err(error) => return Err(error),
        };
        if options.expected_size > options.limits.max_output_size {
            return Err(Fault::DeclaredOutputLimit.error());
        }
        let workspace: usize = model_workspace(properties);
        match check_workspace(workspace, options.limits.max_workspace_size) {
            Ok(()) => {},
            Err(fault) => return Err(fault.error()),
        }
        let mut output = output;
        output.clear();
        assert(output@ =~= Seq::<u8>::empty());
        Ok(
            Decoder {
                options: DecoderOptions {
                    properties,
                    expected_size: options.expected_size,
                    limits: options.limits,
                },
                output,
            },
        )
    }

    /// Decodes `input`. One that is too long leaves the last output in place, any other failure
    /// leaves none.
    pub fn decode(&mut self, input: &[u8]) -> (result: Result<&[u8], Error>)
        requires
            old(self).wf(),
        ensures
            final(self).wf(),
            final(self).options() == old(self).options(),
            match decoded(old(self).options(), input@) {
                Ok(content) => result is Ok && result->Ok_0@ == content && final(self).kept()
                    == content,
                Err(fault) => result is Err && result->Err_0@ == fault.report()
                    && final(self).kept() == (if input@.len()
                    > old(self).options().limits.max_input_size {
                    old(self).kept()
                } else {
                    Seq::empty()
                }),
            },
    {
        match check_input(input.len(), self.options.limits.max_input_size) {
            Ok(()) => {},
            Err(fault) => return Err(fault.error()),
        }
        let properties = match self.options.properties.decoder_properties() {
            Ok(properties) => properties,
            Err(error) => return Err(error),
        };
        proof {
            let props = self.options.properties;
            assert(props.with_dictionary() == props);
            let plain = LzmaProps { fb: 0, mc: 0, ..props };
            lemma_properties_round_trip(plain);
            assert(property_bytes(plain) =~= property_bytes(props));
            lemma_content_ignores_effort(input@, props, 0, 0, self.options.expected_size as int);
        }
        let output = self.take_output();
        match decode_raw_with_buffer(input, &properties, self.options.expected_size, output) {
            Ok(content) => {
                self.output = content;
            },
            Err(fault) => return Err(fault.error()),
        }
        Ok(self.output.as_slice())
    }

    pub fn output(&self) -> (output: &[u8])
        ensures
            output@ == self.kept(),
    {
        self.output.as_slice()
    }

    pub fn take_output(&mut self) -> (output: Vec<u8>)
        ensures
            output@ == old(self).kept(),
            final(self).kept() == Seq::<u8>::empty(),
            final(self).options() == old(self).options(),
    {
        let mut output: Vec<u8> = Vec::new();
        core::mem::swap(&mut output, &mut self.output);
        assert(self.output@ =~= Seq::<u8>::empty());
        output
    }
}

/// Encodes `input` under `options`.
pub fn encode(input: &[u8], options: &EncoderOptions) -> (result: Result<Vec<u8>, Error>)
    ensures
        !options.properties.contexts_ok() ==> result is Err && result->Err_0@
            == Fault::ContextOptions.report(),
        options.properties.contexts_ok() ==> match encoded(
            EncoderOptions { properties: options.properties.with_dictionary(), ..*options },
            input@,
        ) {
            Ok(stream) => result is Ok && result->Ok_0@ == stream,
            Err(fault) => result is Err && result->Err_0@ == fault.report(),
        },
{
    let mut encoder = match Encoder::new(*options) {
        Ok(encoder) => encoder,
        Err(error) => return Err(error),
    };
    match encoder.encode(input) {
        Ok(_) => {},
        Err(error) => return Err(error),
    }
    Ok(encoder.take_output())
}

/// Decodes `input` under `options`.
pub fn decode(input: &[u8], options: &DecoderOptions) -> (result: Result<Vec<u8>, Error>)
    ensures
        match decoder_refusal(*options) {
            Some(fault) => result is Err && result->Err_0@ == fault.report(),
            None => match decoded(
                DecoderOptions { properties: options.properties.with_dictionary(), ..*options },
                input@,
            ) {
                Ok(content) => result is Ok && result->Ok_0@ == content,
                Err(fault) => result is Err && result->Err_0@ == fault.report(),
            },
        },
{
    let mut decoder = match Decoder::new(*options) {
        Ok(decoder) => decoder,
        Err(error) => return Err(error),
    };
    match decoder.decode(input) {
        Ok(_) => {},
        Err(error) => return Err(error),
    }
    Ok(decoder.take_output())
}

fn check_input(actual: usize, limit: usize) -> (result: Result<(), Fault>)
    ensures
        result == (if actual > limit {
            Err::<(), Fault>(Fault::InputLimit)
        } else {
            Ok(())
        }),
{
    if actual > limit {
        return Err(Fault::InputLimit);
    }
    Ok(())
}

fn check_output(actual: usize, limit: usize) -> (result: Result<(), Fault>)
    ensures
        result == (if actual > limit {
            Err::<(), Fault>(Fault::OutputLimit)
        } else {
            Ok(())
        }),
{
    if actual > limit {
        return Err(Fault::OutputLimit);
    }
    Ok(())
}

fn check_workspace(actual: usize, limit: usize) -> (result: Result<(), Fault>)
    ensures
        result == (if actual > limit {
            Err::<(), Fault>(Fault::WorkspaceLimit)
        } else {
            Ok(())
        }),
{
    if actual > limit {
        return Err(Fault::WorkspaceLimit);
    }
    Ok(())
}

} // verus!
