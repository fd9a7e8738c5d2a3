//! Reusable DZ encoders and decoders with resource limits.

use vstd::prelude::*;

use crate::codecs::dz::chunk::{compress_chunk_with_output, dz_stream};
use crate::codecs::dz::decoding::{common_view, decompress_chunk_with_output};
use crate::codecs::dz::error::DzError;
use crate::codecs::dz::fault::DzFault;
use crate::codecs::dz::options::{
    encode_workspace, encode_workspace_size, estimate_models, model_workspace, DecoderOptions,
    EncoderOptions,
};
use crate::codecs::dz::stream::undz;

verus! {

/// Why a request to encode an input of the given size is refused before any work, if it is.
pub open spec fn encode_refusal(options: EncoderOptions, size: int) -> Option<DzFault> {
    if size > options.limits.max_input_size {
        Some(DzFault::InputLimit)
    } else if model_workspace(options.settings, false) > usize::MAX {
        Some(DzFault::ModelOverflow)
    } else if encode_workspace(size, options.settings) > usize::MAX {
        Some(DzFault::WorkspaceOverflow)
    } else if encode_workspace(size, options.settings) > options.limits.max_workspace_size {
        Some(DzFault::WorkspaceLimit)
    } else {
        None
    }
}

/// Why decoder options are refused, if they are.
pub open spec fn decoder_refusal(options: DecoderOptions<'_>) -> Option<DzFault> {
    let workspace = model_workspace(options.settings, options.common_buffer is Some);
    if !options.settings.valid() {
        Some(DzFault::InvalidSettings)
    } else if options.expected_size > options.limits.max_output_size {
        Some(DzFault::DeclaredOutputLimit)
    } else if workspace > usize::MAX {
        Some(DzFault::ModelOverflow)
    } else if workspace > options.limits.max_workspace_size {
        Some(DzFault::WorkspaceLimit)
    } else {
        None
    }
}

/// The result of decoding under accepted options.
pub open spec fn decoded(options: DecoderOptions<'_>, data: Seq<u8>) -> Result<Seq<u8>, DzFault> {
    if data.len() > options.limits.max_input_size {
        Err(DzFault::InputLimit)
    } else {
        undz(
            data,
            options.expected_size as int,
            options.settings,
            common_view(options.common_buffer),
        )
    }
}

/// The result of encoding an input that is not refused.
pub open spec fn encoded(options: EncoderOptions, input: Seq<u8>) -> Result<Seq<u8>, DzFault> {
    match dz_stream(input, options.settings) {
        Err(fault) => Err(fault),
        Ok(stream) => if stream.len() > options.limits.max_output_size {
            Err(DzFault::OutputLimit)
        } else {
            Ok(stream)
        },
    }
}

/// A stream that an encoder may give for an input.
pub open spec fn encodes(options: EncoderOptions, input: Seq<u8>, stream: Seq<u8>) -> bool {
    &&& encode_refusal(options, input.len() as int) is None
    &&& stream.len() <= options.limits.max_output_size
    &&& undz(stream, input.len() as int, options.settings, None) == Ok::<Seq<u8>, DzFault>(input)
}

/// A decoder with the same settings gives back what an encoder took.
pub proof fn lemma_codec_round_trip(
    encoder: EncoderOptions,
    decoder: DecoderOptions<'_>,
    input: Seq<u8>,
    stream: Seq<u8>,
)
    requires
        encodes(encoder, input, stream),
        decoder.settings == encoder.settings,
        decoder.common_buffer is None,
        decoder.expected_size == input.len(),
        stream.len() <= decoder.limits.max_input_size,
    ensures
        decoded(decoder, stream) == Ok::<Seq<u8>, DzFault>(input),
{
}

/// An encoder that keeps its output storage.
#[derive(Debug)]
pub struct Encoder {
    options: EncoderOptions,
    output: Vec<u8>,
}

impl Encoder {
    pub closed spec fn options(&self) -> EncoderOptions {
        self.options
    }

    /// What the last request left behind.
    pub closed spec fn kept(&self) -> Seq<u8> {
        self.output@
    }

    pub open spec fn wf(&self) -> bool {
        self.options().settings.valid()
    }

    pub fn new(options: EncoderOptions) -> (result: Result<Self, DzError>)
        ensures
            match result {
                Ok(encoder) => options.settings.valid() && encoder.wf() && encoder.options()
                    == options && encoder.kept() == Seq::<u8>::empty(),
                Err(error) => !options.settings.valid() && error@
                    == DzFault::InvalidSettings.report(),
            },
    {
        if !options.settings.is_valid() {
            return Err(DzFault::InvalidSettings.error());
        }
        let encoder = Encoder { options, output: Vec::new() };
        assert(encoder.output@ =~= Seq::<u8>::empty());
        Ok(encoder)
    }

    /// Encodes an input. It is refused where a limit is passed; otherwise it fails only where a
    /// distance alphabet runs dry.
    pub fn encode(&mut self, input: &[u8]) -> (result: Result<&[u8], DzError>)
        requires
            old(self).wf(),
        ensures
            final(self).wf(),
            final(self).options() == old(self).options(),
            encode_refusal(old(self).options(), input@.len() as int) is None ==> match encoded(
                old(self).options(),
                input@,
            ) {
                Ok(bytes) => result matches Ok(stream) && stream@ == bytes,
                Err(fault) => result matches Err(error) && error@ == fault.report(),
            },
            match encode_refusal(old(self).options(), input@.len() as int) {
                Some(fault) => {
                    &&& result matches Err(error) && error@ == fault.report()
                    &&& final(self).kept() == old(self).kept()
                },
                None => match result {
                    Ok(stream) => encodes(old(self).options(), input@, stream@) && final(self).kept() == stream@,
                    Err(error) => {
                        ||| error@ == DzFault::OutputLimit.report() && final(self).kept().len()
                            > old(self).options().limits.max_output_size && undz(
                            final(self).kept(),
                            input@.len() as int,
                            old(self).options().settings,
                            None,
                        ) == Ok::<Seq<u8>, DzFault>(input@)
                        ||| error@ == DzFault::Collapsed.report() && !old(self).options().settings.lively()
                    },
                },
            },
    {
        if input.len() > self.options.limits.max_input_size {
            return Err(DzFault::InputLimit.error());
        }
        let workspace: usize = match encode_workspace_size(input.len(), self.options.settings) {
            Ok(workspace) => workspace,
            Err(fault) => return Err(fault.error()),
        };
        if workspace > self.options.limits.max_workspace_size {
            return Err(DzFault::WorkspaceLimit.error());
        }
        let mut storage: Vec<u8> = Vec::new();
        core::mem::swap(&mut storage, &mut self.output);
        match compress_chunk_with_output(input, self.options.settings, storage) {
            Ok(stream) => {
                self.output = stream;
            },
            Err(fault) => return Err(fault.error()),
        }
        if self.output.len() > self.options.limits.max_output_size {
            return Err(DzFault::OutputLimit.error());
        }
        Ok(self.output.as_slice())
    }

    /// What the last request left behind.
    pub fn output(&self) -> (output: &[u8])
        ensures
            output@ == self.kept(),
    {
        self.output.as_slice()
    }

    /// Takes what the last request left behind.
    pub fn take_output(&mut self) -> (output: Vec<u8>)
        ensures
            output@ == old(self).kept(),
            final(self).kept() == Seq::<u8>::empty(),
            final(self).options() == old(self).options(),
    {
        let mut output: Vec<u8> = Vec::new();
        core::mem::swap(&mut output, &mut self.output);
        assert(self.output@ =~= Seq::<u8>::empty());
        output
    }
}

/// A decoder that keeps its output storage.
#[derive(Debug)]
pub struct Decoder<'a> {
    options: DecoderOptions<'a>,
    output: Vec<u8>,
}

impl<'a> Decoder<'a> {
    pub closed spec fn options(&self) -> DecoderOptions<'a> {
        self.options
    }

    /// What the last request left behind.
    pub closed spec fn kept(&self) -> Seq<u8> {
        self.output@
    }

    pub open spec fn wf(&self) -> bool {
        decoder_refusal(self.options()) is None
    }

    pub fn new(options: DecoderOptions<'a>) -> (result: Result<Self, DzError>)
        ensures
            match decoder_refusal(options) {
                None => result matches Ok(decoder) && decoder.wf() && decoder.options() == options
                    && decoder.kept() == Seq::<u8>::empty(),
                Some(fault) => result matches Err(error) && error@ == fault.report(),
            },
    {
        Decoder::with_output(options, Vec::new())
    }

    /// A decoder that writes into the storage of an earlier output.
    pub fn with_output(options: DecoderOptions<'a>, output: Vec<u8>) -> (result: Result<
        Self,
        DzError,
    >)
        ensures
            match decoder_refusal(options) {
                None => result matches Ok(decoder) && decoder.wf() && decoder.options() == options
                    && decoder.kept() == Seq::<u8>::empty(),
                Some(fault) => result matches Err(error) && error@ == fault.report(),
            },
    {
        if !options.settings.is_valid() {
            return Err(DzFault::InvalidSettings.error());
        }
        if options.expected_size > options.limits.max_output_size {
            return Err(DzFault::DeclaredOutputLimit.error());
        }
        let workspace: usize = match estimate_models(
            options.settings,
            options.common_buffer.is_some(),
        ) {
            Ok(workspace) => workspace,
            Err(fault) => return Err(fault.error()),
        };
        if workspace > options.limits.max_workspace_size {
            return Err(DzFault::WorkspaceLimit.error());
        }
        let mut output = output;
        output.clear();
        let decoder = Decoder { options, output };
        assert(decoder.output@ =~= Seq::<u8>::empty());
        Ok(decoder)
    }

    /// Decodes a chunk.
    pub fn decode(&mut self, input: &[u8]) -> (result: Result<&[u8], DzError>)
        requires
            old(self).wf(),
        ensures
            final(self).wf(),
            final(self).options() == old(self).options(),
            match decoded(old(self).options(), input@) {
                Ok(bytes) => {
                    &&& result matches Ok(output) && output@ == bytes
                    &&& final(self).kept() == bytes
                },
                Err(fault) => result matches Err(error) && error@ == fault.report(),
            },
    {
        if input.len() > self.options.limits.max_input_size {
            return Err(DzFault::InputLimit.error());
        }
        let mut storage: Vec<u8> = Vec::new();
        core::mem::swap(&mut storage, &mut self.output);
        match decompress_chunk_with_output(
            input,
            self.options.expected_size,
            self.options.settings,
            self.options.common_buffer,
            storage,
        ) {
            Ok(output) => {
                self.output = output;
            },
            Err(fault) => return Err(fault.error()),
        }
        Ok(self.output.as_slice())
    }

    /// What the last request left behind.
    pub fn output(&self) -> (output: &[u8])
        ensures
            output@ == self.kept(),
    {
        self.output.as_slice()
    }

    /// Takes what the last request left behind.
    pub fn take_output(&mut self) -> (output: Vec<u8>)
        ensures
            output@ == old(self).kept(),
            final(self).kept() == Seq::<u8>::empty(),
            final(self).options() == old(self).options(),
    {
        let mut output: Vec<u8> = Vec::new();
        core::mem::swap(&mut output, &mut self.output);
        assert(self.output@ =~= Seq::<u8>::empty());
        output
    }
}

/// Encodes an input once.
pub fn encode(input: &[u8], options: EncoderOptions) -> (result: Result<Vec<u8>, DzError>)
    ensures
        options.settings.valid() && encode_refusal(options, input@.len() as int) is None
            ==> match encoded(options, input@) {
            Ok(bytes) => result matches Ok(stream) && stream@ == bytes,
            Err(fault) => result matches Err(error) && error@ == fault.report(),
        },
        match result {
            Ok(stream) => options.settings.valid() && encodes(options, input@, stream@),
            Err(error) => {
                ||| !options.settings.valid() && error@ == DzFault::InvalidSettings.report()
                ||| options.settings.valid() && (encode_refusal(
                    options,
                    input@.len() as int,
                ) matches Some(fault) && error@ == fault.report())
                ||| options.settings.valid() && error@ == DzFault::OutputLimit.report()
                    && options.limits.max_output_size < usize::MAX
                ||| options.settings.valid() && error@ == DzFault::Collapsed.report()
                    && !options.settings.lively()
            },
        },
{
    let mut encoder = match Encoder::new(options) {
        Ok(encoder) => encoder,
        Err(error) => return Err(error),
    };
    match encoder.encode(input) {
        Ok(_) => {},
        Err(error) => {
            let size: usize = encoder.output().len();
            assert(size <= usize::MAX);
            return Err(error);
        },
    }
    Ok(encoder.take_output())
}

/// Decodes a chunk once.
pub fn decode<'a>(input: &[u8], options: DecoderOptions<'a>) -> (result: Result<Vec<u8>, DzError>)
    ensures
        match decoder_refusal(options) {
            Some(fault) => result matches Err(error) && error@ == fault.report(),
            None => match decoded(options, input@) {
                Ok(bytes) => result matches Ok(output) && output@ == bytes,
                Err(fault) => result matches Err(error) && error@ == fault.report(),
            },
        },
{
    let mut decoder = match Decoder::new(options) {
        Ok(decoder) => decoder,
        Err(error) => return Err(error),
    };
    match decoder.decode(input) {
        Ok(_) => {},
        Err(error) => return Err(error),
    }
    Ok(decoder.take_output())
}

} // verus!
