//! Reusable BZip2 encoders and decoders with resource limits.

use vstd::prelude::*;

use crate::codecs::bzip::engine::{
    bzip_stream, decode_with_buffer, encode_with_buffer, lemma_bzip_round_trip, unbzip,
};
use crate::codecs::bzip::fault::Fault;
use crate::codecs::bzip::options::{
    block_size_ok, decode_workspace_size, encode_workspace, encode_workspace_size, DecoderOptions,
    EncoderOptions,
};
use crate::codecs::error::Error;

verus! {

/// Why a request to encode `input` is refused before any work, if it is.
pub open spec fn encode_refusal(options: EncoderOptions, input: Seq<u8>) -> Option<Fault> {
    if input.len() > options.limits.max_input_size {
        Some(Fault::InputLimit)
    } else if encode_workspace_size(input.len() as int, options.block_size)
        > options.limits.max_workspace_size {
        Some(Fault::WorkspaceLimit)
    } else {
        None
    }
}

/// The result of encoding `input` under options with a valid block size.
pub open spec fn encoded(options: EncoderOptions, input: Seq<u8>) -> Result<Seq<u8>, Fault> {
    match encode_refusal(options, input) {
        Some(fault) => Err(fault),
        None => {
            let stream = bzip_stream(input, options.block_size);
            if stream.len() > options.limits.max_output_size {
                Err(Fault::OutputLimit)
            } else {
                Ok(stream)
            }
        },
    }
}

/// Why decoder options are refused, if they are.
pub open spec fn decoder_refusal(options: DecoderOptions) -> Option<Fault> {
    if options.expected_size > options.limits.max_output_size {
        Some(Fault::DeclaredOutputLimit)
    } else {
        None
    }
}

/// The result of decoding `data` under `options` that a decoder accepted.
pub open spec fn decoded(options: DecoderOptions, data: Seq<u8>) -> Result<Seq<u8>, Fault> {
    if data.len() > options.limits.max_input_size {
        Err(Fault::InputLimit)
    } else {
        unbzip(data, options.expected_size, options.limits.max_workspace_size)
    }
}

/// A decoder with enough working memory gives back every input that an encoder took, whatever
/// the other limits of both, as long as neither refuses.
pub proof fn lemma_codec_round_trip(
    encoder: EncoderOptions,
    decoder: DecoderOptions,
    input: Seq<u8>,
)
    requires
        block_size_ok(encoder.block_size),
        decoder.expected_size == input.len(),
        decode_workspace_size(encoder.block_size as int) <= decoder.limits.max_workspace_size,
        encoded(encoder, input) is Ok,
        encoded(encoder, input)->Ok_0.len() <= decoder.limits.max_input_size,
    ensures
        decoded(decoder, encoded(encoder, input)->Ok_0) == Ok::<Seq<u8>, Fault>(input),
{
    lemma_bzip_round_trip(input, encoder.block_size, decoder.limits.max_workspace_size);
}

#[derive(Debug)]
pub struct Encoder {
    options: EncoderOptions,
    output: Vec<u8>,
}

impl Encoder {
    pub closed spec fn options(&self) -> EncoderOptions {
        self.options
    }

    /// What the last request left behind.
    pub closed spec fn kept(&self) -> Seq<u8> {
        self.output@
    }

    pub open spec fn wf(&self) -> bool {
        block_size_ok(self.options().block_size)
    }

    pub fn new(options: EncoderOptions) -> (encoder: Result<Self, Error>)
        ensures
            block_size_ok(options.block_size) ==> encoder is Ok && encoder->Ok_0.wf()
                && encoder->Ok_0.options() == options && encoder->Ok_0.kept() == Seq::<
                u8,
            >::empty(),
            !block_size_ok(options.block_size) ==> encoder is Err && encoder->Err_0@
                == Fault::BlockSizeOption.report(),
    {
        let options = match options.validate() {
            Ok(options) => options,
            Err(error) => return Err(error),
        };
        let encoder = Encoder { options, output: Vec::new() };
        assert(encoder.output@ =~= Seq::<u8>::empty());
        Ok(encoder)
    }

    /// Encodes `input`. A request refused before any work leaves the last output in place; one
    /// whose output is too large leaves that output.
    pub fn encode(&mut self, input: &[u8]) -> (result: Result<&[u8], Error>)
        requires
            old(self).wf(),
        ensures
            final(self).wf(),
            final(self).options() == old(self).options(),
            match encoded(old(self).options(), input@) {
                Ok(stream) => result is Ok && result->Ok_0@ == stream,
                Err(fault) => result is Err && result->Err_0@ == fault.report(),
            },
            final(self).kept() == (if encode_refusal(old(self).options(), input@) is Some {
                old(self).kept()
            } else {
                bzip_stream(input@, old(self).options().block_size)
            }),
    {
        match check_input(input.len(), self.options.limits.max_input_size) {
            Ok(()) => {},
            Err(fault) => return Err(fault.error()),
        }
        let workspace: usize = encode_workspace(input.len(), self.options.block_size);
        match check_workspace(workspace, self.options.limits.max_workspace_size) {
            Ok(()) => {},
            Err(fault) => return Err(fault.error()),
        }
        let output = self.take_output();
        match encode_with_buffer(input, self.options.block_size, output) {
            Ok(stream) => {
                self.output = stream;
            },
            Err(fault) => return Err(fault.error()),
        }
        match check_output(self.output.len(), self.options.limits.max_output_size) {
            Ok(()) => {},
            Err(fault) => return Err(fault.error()),
        }
        Ok(self.output.as_slice())
    }

    pub fn output(&self) -> (output: &[u8])
        ensures
            output@ == self.kept(),
    {
        self.output.as_slice()
    }

    pub fn take_output(&mut self) -> (output: Vec<u8>)
        ensures
            output@ == old(self).kept(),
            final(self).kept() == Seq::<u8>::empty(),
            final(self).options() == old(self).options(),
    {
        let mut output: Vec<u8> = Vec::new();
        core::mem::swap(&mut output, &mut self.output);
        assert(self.output@ =~= Seq::<u8>::empty());
        output
    }
}

#[derive(Debug)]
pub struct Decoder {
    options: DecoderOptions,
    output: Vec<u8>,
}

impl Decoder {
    pub closed spec fn options(&self) -> DecoderOptions {
        self.options
    }

    /// What the last request left behind.
    pub closed spec fn kept(&self) -> Seq<u8> {
        self.output@
    }

    pub fn new(options: DecoderOptions) -> (decoder: Result<Self, Error>)
        ensures
            match decoder_refusal(options) {
                Some(fault) => decoder is Err && decoder->Err_0@ == fault.report(),
                None => decoder is Ok && decoder->Ok_0.options() == options
                    && decoder->Ok_0.kept() == Seq::<u8>::empty(),
            },
    {
        Self::with_output(options, Vec::new())
    }

    /// A decoder that reuses the storage of `output`.
    pub fn with_output(options: DecoderOptions, output: Vec<u8>) -> (decoder: Result<Self, Error>)
        ensures
            match decoder_refusal(options) {
                Some(fault) => decoder is Err && decoder->Err_0@ == fault.report(),
                None => decoder is Ok && decoder->Ok_0.options() == options
                    && decoder->Ok_0.kept() == Seq::<u8>::empty(),
            },
    {
        if options.expected_size > options.limits.max_output_size {
            return Err(Fault::DeclaredOutputLimit.error());
        }
        let mut output = output;
        output.clear();
        assert(output@ =~= Seq::<u8>::empty());
        Ok(Decoder { options, output })
    }

    /// Decodes `input`. One that is too long leaves the last output in place, any other failure
    /// leaves none.
    pub fn decode(&mut self, input: &[u8]) -> (result: Result<&[u8], Error>)
        ensures
            final(self).options() == old(self).options(),
            match decoded(old(self).options(), input@) {
                Ok(content) => result is Ok && result->Ok_0@ == content && final(self).kept()
                    == content,
                Err(fault) => result is Err && result->Err_0@ == fault.report()
                    && final(self).kept() == (if input@.len()
                    > old(self).options().limits.max_input_size {
                    old(self).kept()
                } else {
                    Seq::empty()
                }),
            },
    {
        match check_input(input.len(), self.options.limits.max_input_size) {
            Ok(()) => {},
            Err(fault) => return Err(fault.error()),
        }
        let output = self.take_output();
        let content = decode_with_buffer(
            input,
            self.options.expected_size,
            output,
            self.options.limits.max_workspace_size,
        );
        match content {
            Ok(content) => {
                self.output = content;
            },
            Err(fault) => return Err(fault.error()),
        }
        Ok(self.output.as_slice())
    }

    pub fn output(&self) -> (output: &[u8])
        ensures
            output@ == self.kept(),
    {
        self.output.as_slice()
    }

    pub fn take_output(&mut self) -> (output: Vec<u8>)
        ensures
            output@ == old(self).kept(),
            final(self).kept() == Seq::<u8>::empty(),
            final(self).options() == old(self).options(),
    {
        let mut output: Vec<u8> = Vec::new();
        core::mem::swap(&mut output, &mut self.output);
        assert(self.output@ =~= Seq::<u8>::empty());
        output
    }
}

/// Encodes `input` under `options`.
pub fn encode(input: &[u8], options: &EncoderOptions) -> (result: Result<Vec<u8>, Error>)
    ensures
        !block_size_ok(options.block_size) ==> result is Err && result->Err_0@
            == Fault::BlockSizeOption.report(),
        block_size_ok(options.block_size) ==> match encoded(*options, input@) {
            Ok(stream) => result is Ok && result->Ok_0@ == stream,
            Err(fault) => result is Err && result->Err_0@ == fault.report(),
        },
{
    let mut encoder = match Encoder::new(*options) {
        Ok(encoder) => encoder,
        Err(error) => return Err(error),
    };
    match encoder.encode(input) {
        Ok(_) => {},
        Err(error) => return Err(error),
    }
    Ok(encoder.take_output())
}

/// Decodes `input` under `options`.
pub fn decode(input: &[u8], options: &DecoderOptions) -> (result: Result<Vec<u8>, Error>)
    ensures
        match decoder_refusal(*options) {
            Some(fault) => result is Err && result->Err_0@ == fault.report(),
            None => match decoded(*options, input@) {
                Ok(content) => result is Ok && result->Ok_0@ == content,
                Err(fault) => result is Err && result->Err_0@ == fault.report(),
            },
        },
{
    let mut decoder = match Decoder::new(*options) {
        Ok(decoder) => decoder,
        Err(error) => return Err(error),
    };
    match decoder.decode(input) {
        Ok(_) => {},
        Err(error) => return Err(error),
    }
    Ok(decoder.take_output())
}

fn check_input(actual: usize, limit: usize) -> (result: Result<(), Fault>)
    ensures
        result == (if actual > limit {
            Err::<(), Fault>(Fault::InputLimit)
        } else {
            Ok(())
        }),
{
    if actual > limit {
        return Err(Fault::InputLimit);
    }
    Ok(())
}

fn check_output(actual: usize, limit: usize) -> (result: Result<(), Fault>)
    ensures
        result == (if actual > limit {
            Err::<(), Fault>(Fault::OutputLimit)
        } else {
            Ok(())
        }),
{
    if actual > limit {
        return Err(Fault::OutputLimit);
    }
    Ok(())
}

fn check_workspace(actual: usize, limit: usize) -> (result: Result<(), Fault>)
    ensures
        result == (if actual > limit {
            Err::<(), Fault>(Fault::WorkspaceLimit)
        } else {
            Ok(())
        }),
{
    if actual > limit {
        return Err(Fault::WorkspaceLimit);
    }
    Ok(())
}

} // verus!
