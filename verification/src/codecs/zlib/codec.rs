//! Reusable encoders and decoders with resource limits.

use vstd::prelude::*;

use crate::codecs::error::Error;
use crate::codecs::zlib::deflate::{deflate, encode_raw_with_buffer, lemma_deflate_round_trip};
use crate::codecs::zlib::engine::{
    decode_zlib_with_buffer, encode_zlib_with_buffer, lemma_zlib_round_trip, unzlib, zlib_stream,
};
use crate::codecs::zlib::fault::Fault;
use crate::codecs::zlib::inflate::{decode_raw_with_buffer, inflate};
use crate::codecs::zlib::options::{
    decode_workspace, decode_workspace_size, encode_workspace, encode_workspace_size,
    DecoderOptions, EncoderOptions, StreamFormat,
};

verus! {

/// The stream of `input` in the given format.
pub open spec fn stream_of(format: StreamFormat, input: Seq<u8>) -> Seq<u8> {
    match format {
        StreamFormat::RawDeflate => deflate(input),
        StreamFormat::Zlib => zlib_stream(input),
    }
}

/// What the stream `data` of the given format decodes to.
pub open spec fn stream_content(format: StreamFormat, data: Seq<u8>, expected: usize) -> Result<
    Seq<u8>,
    Fault,
> {
    match format {
        StreamFormat::RawDeflate => inflate(data, expected),
        StreamFormat::Zlib => unzlib(data, expected),
    }
}

/// Why a request to encode `input` is refused before any work, if it is.
pub open spec fn encode_refusal(options: EncoderOptions, input: Seq<u8>) -> Option<Fault> {
    if input.len() > options.limits.max_input_size {
        Some(Fault::InputLimit)
    } else if encode_workspace_size(input.len() as int) > usize::MAX {
        Some(Fault::WorkspaceOverflow)
    } else if encode_workspace_size(input.len() as int) > options.limits.max_workspace_size {
        Some(Fault::WorkspaceLimit)
    } else {
        None
    }
}

/// The result of encoding `input` under `options`.
pub open spec fn encoded(options: EncoderOptions, input: Seq<u8>) -> Result<Seq<u8>, Fault> {
    match encode_refusal(options, input) {
        Some(fault) => Err(fault),
        None => {
            let stream = stream_of(options.format, input);
            if stream.len() > options.limits.max_output_size {
                Err(Fault::OutputLimit)
            } else {
                Ok(stream)
            }
        },
    }
}

/// Why decoder options are refused, if they are.
pub open spec fn decoder_refusal(options: DecoderOptions) -> Option<Fault> {
    if options.expected_size > options.limits.max_output_size {
        Some(Fault::DeclaredOutputLimit)
    } else if decode_workspace_size() > options.limits.max_workspace_size {
        Some(Fault::WorkspaceLimit)
    } else {
        None
    }
}

/// The result of decoding `data` under `options` that a decoder accepted.
pub open spec fn decoded(options: DecoderOptions, data: Seq<u8>) -> Result<Seq<u8>, Fault> {
    if data.len() > options.limits.max_input_size {
        Err(Fault::InputLimit)
    } else {
        stream_content(options.format, data, options.expected_size)
    }
}

/// A decoder for the same format gives back every input that an encoder took, whatever the
/// limits of both, as long as neither refuses.
pub proof fn lemma_codec_round_trip(
    encoder: EncoderOptions,
    decoder: DecoderOptions,
    input: Seq<u8>,
)
    requires
        encoder.format == decoder.format,
        decoder.expected_size == input.len(),
        encoded(encoder, input) is Ok,
        encoded(encoder, input)->Ok_0.len() <= decoder.limits.max_input_size,
    ensures
        decoded(decoder, encoded(encoder, input)->Ok_0) == Ok::<Seq<u8>, Fault>(input),
{
    lemma_deflate_round_trip(input);
    lemma_zlib_round_trip(input);
}

#[derive(Debug)]
pub struct Encoder {
    options: EncoderOptions,
    output: Vec<u8>,
}

impl Encoder {
    pub closed spec fn options(&self) -> EncoderOptions {
        self.options
    }

    /// What the last request left behind.
    pub closed spec fn kept(&self) -> Seq<u8> {
        self.output@
    }

    pub fn new(options: EncoderOptions) -> (encoder: Result<Self, Error>)
        ensures
            encoder is Ok,
            encoder->Ok_0.options() == options,
            encoder->Ok_0.kept() == Seq::<u8>::empty(),
    {
        let encoder = Encoder { options, output: Vec::new() };
        assert(encoder.output@ =~= Seq::<u8>::empty());
        Ok(encoder)
    }

    /// Encodes `input`. A request refused before any work leaves the last output in place; one
    /// whose output is too large leaves that output.
    pub fn encode(&mut self, input: &[u8]) -> (result: Result<&[u8], Error>)
        ensures
            final(self).options() == old(self).options(),
            match encoded(old(self).options(), input@) {
                Ok(stream) => result is Ok && result->Ok_0@ == stream,
                Err(fault) => result is Err && result->Err_0@ == fault.report(),
            },
            final(self).kept() == (if encode_refusal(old(self).options(), input@) is Some {
                old(self).kept()
            } else {
                stream_of(old(self).options().format, input@)
            }),
    {
        match check_input(input.len(), self.options.limits.max_input_size) {
            Ok(()) => {},
            Err(fault) => return Err(fault.error()),
        }
        let workspace: usize = match encode_workspace(input.len()) {
            Some(workspace) => workspace,
            None => return Err(Fault::WorkspaceOverflow.error()),
        };
        match check_workspace(workspace, self.options.limits.max_workspace_size) {
            Ok(()) => {},
            Err(fault) => return Err(fault.error()),
        }
        let output = self.take_output();
        self.output =
        match self.options.format {
            StreamFormat::RawDeflate => encode_raw_with_buffer(input, output),
            StreamFormat::Zlib => encode_zlib_with_buffer(input, output),
        };
        match check_output(self.output.len(), self.options.limits.max_output_size) {
            Ok(()) => {},
            Err(fault) => return Err(fault.error()),
        }
        Ok(self.output.as_slice())
    }

    pub fn output(&self) -> (output: &[u8])
        ensures
            output@ == self.kept(),
    {
        self.output.as_slice()
    }

    pub fn take_output(&mut self) -> (output: Vec<u8>)
        ensures
            output@ == old(self).kept(),
            final(self).kept() == Seq::<u8>::empty(),
            final(self).options() == old(self).options(),
    {
        let mut output: Vec<u8> = Vec::new();
        core::mem::swap(&mut output, &mut self.output);
        assert(self.output@ =~= Seq::<u8>::empty());
        output
    }
}

#[derive(Debug)]
pub struct Decoder {
    options: DecoderOptions,
    output: Vec<u8>,
}

impl Decoder {
    pub closed spec fn options(&self) -> DecoderOptions {
        self.options
    }

    /// What the last request left behind.
    pub closed spec fn kept(&self) -> Seq<u8> {
        self.output@
    }

    pub fn new(options: DecoderOptions) -> (decoder: Result<Self, Error>)
        ensures
            match decoder_refusal(options) {
                Some(fault) => decoder is Err && decoder->Err_0@ == fault.report(),
                None => decoder is Ok && decoder->Ok_0.options() == options
                    && decoder->Ok_0.kept() == Seq::<u8>::empty(),
            },
    {
        Self::with_output(options, Vec::new())
    }

    /// A decoder that reuses the storage of `output`.
    pub fn with_output(options: DecoderOptions, output: Vec<u8>) -> (decoder: Result<Self, Error>)
        ensures
            match decoder_refusal(options) {
                Some(fault) => decoder is Err && decoder->Err_0@ == fault.report(),
                None => decoder is Ok && decoder->Ok_0.options() == options
                    && decoder->Ok_0.kept() == Seq::<u8>::empty(),
            },
    {
        if options.expected_size > options.limits.max_output_size {
            return Err(Fault::DeclaredOutputLimit.error());
        }
        match check_workspace(decode_workspace(), options.limits.max_workspace_size) {
            Ok(()) => {},
            Err(fault) => return Err(fault.error()),
        }
        let mut output = output;
        output.clear();
        assert(output@ =~= Seq::<u8>::empty());
        Ok(Decoder { options, output })
    }

    /// Decodes `input`. One that is too long leaves the last output in place, any other failure
    /// leaves none.
    pub fn decode(&mut self, input: &[u8]) -> (result: Result<&[u8], Error>)
        ensures
            final(self).options() == old(self).options(),
            match decoded(old(self).options(), input@) {
                Ok(content) => result is Ok && result->Ok_0@ == content && final(self).kept()
                    == content,
                Err(fault) => result is Err && result->Err_0@ == fault.report()
                    && final(self).kept() == (if input@.len()
                    > old(self).options().limits.max_input_size {
                    old(self).kept()
                } else {
                    Seq::empty()
                }),
            },
    {
        match check_input(input.len(), self.options.limits.max_input_size) {
            Ok(()) => {},
            Err(fault) => return Err(fault.error()),
        }
        let output = self.take_output();
        let content = match self.options.format {
            StreamFormat::RawDeflate => decode_raw_with_buffer(
                input,
                self.options.expected_size,
                output,
            ),
            StreamFormat::Zlib => decode_zlib_with_buffer(
                input,
                self.options.expected_size,
                output,
            ),
        };
        match content {
            Ok(content) => {
                self.output = content;
            },
            Err(fault) => return Err(fault.error()),
        }
        Ok(self.output.as_slice())
    }

    pub fn output(&self) -> (output: &[u8])
        ensures
            output@ == self.kept(),
    {
        self.output.as_slice()
    }

    pub fn take_output(&mut self) -> (output: Vec<u8>)
        ensures
            output@ == old(self).kept(),
            final(self).kept() == Seq::<u8>::empty(),
            final(self).options() == old(self).options(),
    {
        let mut output: Vec<u8> = Vec::new();
        core::mem::swap(&mut output, &mut self.output);
        assert(self.output@ =~= Seq::<u8>::empty());
        output
    }
}

/// Encodes `input` under `options`.
pub fn encode(input: &[u8], options: &EncoderOptions) -> (result: Result<Vec<u8>, Error>)
    ensures
        match encoded(*options, input@) {
            Ok(stream) => result is Ok && result->Ok_0@ == stream,
            Err(fault) => result is Err && result->Err_0@ == fault.report(),
        },
{
    let mut encoder = match Encoder::new(*options) {
        Ok(encoder) => encoder,
        Err(error) => return Err(error),
    };
    match encoder.encode(input) {
        Ok(_) => {},
        Err(error) => return Err(error),
    }
    Ok(encoder.take_output())
}

/// Decodes `input` under `options`.
pub fn decode(input: &[u8], options: &DecoderOptions) -> (result: Result<Vec<u8>, Error>)
    ensures
        match decoder_refusal(*options) {
            Some(fault) => result is Err && result->Err_0@ == fault.report(),
            None => match decoded(*options, input@) {
                Ok(content) => result is Ok && result->Ok_0@ == content,
                Err(fault) => result is Err && result->Err_0@ == fault.report(),
            },
        },
{
    let mut decoder = match Decoder::new(*options) {
        Ok(decoder) => decoder,
        Err(error) => return Err(error),
    };
    match decoder.decode(input) {
        Ok(_) => {},
        Err(error) => return Err(error),
    }
    Ok(decoder.take_output())
}

fn check_input(actual: usize, limit: usize) -> (result: Result<(), Fault>)
    ensures
        result == (if actual > limit {
            Err::<(), Fault>(Fault::InputLimit)
        } else {
            Ok(())
        }),
{
    if actual > limit {
        return Err(Fault::InputLimit);
    }
    Ok(())
}

fn check_output(actual: usize, limit: usize) -> (result: Result<(), Fault>)
    ensures
        result == (if actual > limit {
            Err::<(), Fault>(Fault::OutputLimit)
        } else {
            Ok(())
        }),
{
    if actual > limit {
        return Err(Fault::OutputLimit);
    }
    Ok(())
}

fn check_workspace(actual: usize, limit: usize) -> (result: Result<(), Fault>)
    ensures
        result == (if actual > limit {
            Err::<(), Fault>(Fault::WorkspaceLimit)
        } else {
            Ok(())
        }),
{
    if actual > limit {
        return Err(Fault::WorkspaceLimit);
    }
    Ok(())
}

} // verus!
