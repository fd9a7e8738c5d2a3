//! Native DZ chunks.

use vstd::prelude::*;

use crate::codec::error::{CodecError, CodecTrouble};
use crate::codec::flags::Codec;
use crate::codec::limits::CodecLimits;
use crate::codecs::dz;
use crate::codecs::dz::chunk::dz_stream;
use crate::codecs::dz::analysis::files;
use crate::codecs::dz::archive::{
    archive_decodes, archive_streams, request_fault, streams_of, DzEncoderOptions, EncodedDzArchive,
};
use crate::codecs::dz::common::{common_fault, contents};
use crate::codecs::dz::fault::DzFault;
use crate::codecs::dz::options::{DecoderOptions, ResourceLimits};
use crate::codecs::dz::stream::{undz, Common};
use crate::error::{invalid_archive, DzipError, Trouble};

pub use crate::codecs::dz::{DzCommonBuffer, RangeSettings};

verus! {

/// Archive-wide settings of the DZ encoder.
#[derive(Debug, Clone, Copy, PartialEq, Eq, Structural)]
pub struct DzOptions {
    pub settings: RangeSettings,
    pub max_mem_usage: i32,
    pub use_combuf: bool,
    pub preprocess: bool,
    pub trim_reference_factor: i32,
    pub max_common_match: usize,
}

impl Default for DzOptions {
    fn default() -> (options: DzOptions)
        ensures
            options.max_mem_usage == -1,
            !options.use_combuf,
            options.preprocess,
            options.trim_reference_factor == 20,
            options.max_common_match == usize::MAX,
            options.settings == RangeSettings::usual(),
            options.settings.valid(),
    {
        DzOptions {
            settings: RangeSettings::default(),
            max_mem_usage: -1,
            use_combuf: false,
            preprocess: true,
            trim_reference_factor: 20,
            max_common_match: usize::MAX,
        }
    }
}

impl DzOptions {
    /// The options as the engine takes them.
    pub open spec fn engine(self) -> DzEncoderOptions {
        DzEncoderOptions {
            settings: self.settings,
            max_mem_usage: self.max_mem_usage,
            use_combuf: self.use_combuf,
            preprocess: self.preprocess,
            trim_reference_factor: self.trim_reference_factor,
            max_common_match: self.max_common_match,
        }
    }

    /// The options as the engine takes them.
    pub fn to_engine(&self) -> (options: DzEncoderOptions)
        ensures
            options == self.engine(),
    {
        DzEncoderOptions {
            settings: self.settings,
            max_mem_usage: self.max_mem_usage,
            use_combuf: self.use_combuf,
            preprocess: self.preprocess,
            trim_reference_factor: self.trim_reference_factor,
            max_common_match: self.max_common_match,
        }
    }
}

/// What all DZ chunks of an archive are decoded with.
#[derive(Debug)]
pub struct DzDecodeContext {
    pub settings: RangeSettings,
    retained_bytes: usize,
    common_buffer: Option<DzCommonBuffer>,
}

/// How a fault of the engine is passed on.
pub open spec fn dz_trouble(fault: DzFault) -> CodecTrouble {
    CodecTrouble::InvalidData { codec: Codec::Dz, message: fault.text() }
}

/// The size of all chunks together.
pub open spec fn retained(chunks: Seq<Seq<u8>>, n: nat) -> int
    decreases n,
{
    if n == 0 {
        0
    } else {
        retained(chunks, (n - 1) as nat) + chunks[n - 1].len()
    }
}

/// What stands in the way of a context.
pub open spec fn context_trouble(settings: RangeSettings, chunks: Seq<Seq<u8>>) -> Option<Trouble> {
    if retained(chunks, chunks.len()) > usize::MAX {
        Some(Trouble::InvalidArchive("COMBUF size overflow"@))
    } else if chunks.len() == 0 {
        None
    } else {
        match common_fault(Common { settings, chunks }) {
            Some(fault) => Some(Trouble::Codec(dz_trouble(fault))),
            None => None,
        }
    }
}

pub proof fn lemma_retained_grows(chunks: Seq<Seq<u8>>, a: nat, b: nat)
    requires
        a <= b,
    ensures
        retained(chunks, a) <= retained(chunks, b),
    decreases b,
{
    if a < b {
        lemma_retained_grows(chunks, a, (b - 1) as nat);
    }
}

impl DzDecodeContext {
    /// The settings of the models.
    pub closed spec fn models(&self) -> RangeSettings {
        self.settings
    }

    /// The common buffer, if there is one.
    pub closed spec fn common(&self) -> Option<Common> {
        match self.common_buffer {
            Some(buffer) => Some(buffer@),
            None => None,
        }
    }

    /// The number of bytes that the context holds.
    pub closed spec fn held(&self) -> usize {
        self.retained_bytes
    }

    /// The context of the stored parts of the common buffer.
    pub fn from_encoded_chunks(settings: RangeSettings, chunks: Vec<Vec<u8>>) -> (result: Result<
        DzDecodeContext,
        DzipError,
    >)
        ensures
            match context_trouble(settings, contents(chunks@)) {
                Some(trouble) => result matches Err(error) && error@ == trouble,
                None => result matches Ok(context) && {
                    &&& context.models() == settings
                    &&& context.held() == retained(contents(chunks@), chunks@.len())
                    &&& context.common() == (if chunks@.len() == 0 {
                        None
                    } else {
                        Some(Common { settings, chunks: contents(chunks@) })
                    })
                },
            },
    {
        let ghost all = contents(chunks@);
        let mut total: usize = 0;
        let mut i: usize = 0;
        while i < chunks.len()
            invariant
                i <= chunks@.len(),
                all == contents(chunks@),
                total == retained(all, i as nat),
            decreases chunks@.len() - i,
        {
            let size: usize = chunks[i].len();
            assert(all[i as int].len() == size);
            if size > usize::MAX - total {
                proof {
                    lemma_retained_grows(all, (i + 1) as nat, all.len());
                }
                return Err(invalid_archive("COMBUF size overflow"));
            }
            total = total + size;
            i += 1;
        }
        if chunks.len() == 0 {
            return Ok(DzDecodeContext { settings, retained_bytes: total, common_buffer: None });
        }
        match DzCommonBuffer::build(settings, chunks) {
            Ok(buffer) => Ok(
                DzDecodeContext { settings, retained_bytes: total, common_buffer: Some(buffer) },
            ),
            Err(fault) => Err(engine_error(fault.error())),
        }
    }

    pub fn has_common_buffer(&self) -> (has: bool)
        ensures
            has == (self.common() is Some),
    {
        self.common_buffer.is_some()
    }

    /// The number of bytes that the context holds.
    pub fn retained_bytes(&self) -> (size: usize)
        ensures
            size == self.held(),
    {
        self.retained_bytes
    }
}

/// What the engine reported.
fn engine_error(error: dz::DzError) -> (result: DzipError)
    ensures
        result@ == Trouble::Codec(
            CodecTrouble::InvalidData { codec: Codec::Dz, message: error@.text },
        ),
{
    DzipError::Codec(CodecError::invalid(Codec::Dz, error.message()))
}

/// The fault that refuses a decoder of these dimensions, if any does.
pub open spec fn dz_refusal(
    settings: RangeSettings,
    has_common: bool,
    expected: usize,
    limits: CodecLimits,
) -> Option<DzFault> {
    let workspace = crate::codecs::dz::options::model_workspace(settings, has_common);
    if !settings.valid() {
        Some(DzFault::InvalidSettings)
    } else if expected > limits.max_output_size {
        Some(DzFault::DeclaredOutputLimit)
    } else if workspace > usize::MAX {
        Some(DzFault::ModelOverflow)
    } else if workspace > limits.max_workspace_size {
        Some(DzFault::WorkspaceLimit)
    } else {
        None
    }
}

/// What a DZ chunk decodes to.
pub open spec fn dz_content(
    data: Seq<u8>,
    expected: usize,
    settings: RangeSettings,
    common: Option<Common>,
    limits: CodecLimits,
) -> Result<Seq<u8>, CodecTrouble> {
    match dz_refusal(settings, common is Some, expected, limits) {
        Some(fault) => Err(dz_trouble(fault)),
        None => if data.len() > limits.max_input_size {
            Err(dz_trouble(DzFault::InputLimit))
        } else {
            match undz(data, expected as int, settings, common) {
                Ok(bytes) => Ok(bytes),
                Err(fault) => Err(dz_trouble(fault)),
            }
        },
    }
}

/// Compresses a chunk that stands alone.
pub fn encode(input: &[u8], settings: RangeSettings) -> (result: Result<Vec<u8>, DzipError>)
    ensures
        match dz_stream(input@, settings) {
            Ok(bytes) => result matches Ok(data) && data@ == bytes,
            Err(fault) => result matches Err(error) && error@ == Trouble::Codec(
                dz_trouble(fault),
            ),
        },
        match result {
            Ok(data) => settings.valid() && undz(data@, input@.len() as int, settings, None) == Ok::<
                Seq<u8>,
                DzFault,
            >(input@),
            Err(error) => if settings.valid() {
                error@ == Trouble::Codec(dz_trouble(DzFault::Collapsed)) && !settings.lively()
            } else {
                error@ == Trouble::Codec(dz_trouble(DzFault::InvalidSettings))
            },
        },
{
    match dz::compress_chunk(input, settings) {
        Ok(data) => Ok(data),
        Err(error) => Err(engine_error(error)),
    }
}

/// Decodes a chunk into the storage of an earlier output.
pub fn decode_with_buffer(
    input: &[u8],
    expected_length: usize,
    context: &DzDecodeContext,
    limits: CodecLimits,
    output: Vec<u8>,
) -> (result: Result<Vec<u8>, DzipError>)
    ensures
        match dz_content(input@, expected_length, context.models(), context.common(), limits) {
            Ok(bytes) => result matches Ok(output) && output@ == bytes,
            Err(trouble) => result matches Err(error) && error@ == Trouble::Codec(trouble),
        },
{
    let options = DecoderOptions {
        settings: context.settings,
        expected_size: expected_length,
        common_buffer: context.common_buffer.as_ref(),
        limits: ResourceLimits {
            max_input_size: limits.max_input_size,
            max_output_size: limits.max_output_size,
            max_workspace_size: limits.max_workspace_size,
        },
    };
    let mut decoder = match dz::Decoder::with_output(options, output) {
        Ok(decoder) => decoder,
        Err(error) => return Err(engine_error(error)),
    };
    match decoder.decode(input) {
        Ok(_) => {},
        Err(error) => return Err(engine_error(error)),
    }
    Ok(decoder.take_output())
}

/// Compresses all DZ chunks of an archive.
pub fn encode_archive(inputs: &[&[u8]], options: &DzOptions) -> (result: Result<
    EncodedDzArchive,
    DzipError,
>)
    ensures
        match request_fault(files(inputs@), options.engine()) {
            Some(fault) => result matches Err(error) && error@ == Trouble::Codec(
                dz_trouble(fault),
            ),
            None => {
                &&& match archive_streams(files(inputs@), options.engine()) {
                    Ok(streams) => result matches Ok(encoded) && streams_of(encoded) == streams,
                    Err(fault) => result matches Err(error) && error@ == Trouble::Codec(
                        dz_trouble(fault),
                    ),
                }
                &&& match result {
                    Ok(encoded) => archive_decodes(encoded, files(inputs@), options.engine()),
                    Err(error) => !options.use_combuf ==> error@ == Trouble::Codec(
                        dz_trouble(DzFault::Collapsed),
                    ) && !options.settings.lively(),
                }
            },
        },
{
    let engine = options.to_engine();
    match dz::compress_archive_slices(inputs, &engine) {
        Ok(encoded) => Ok(encoded),
        Err(error) => Err(engine_error(error)),
    }
}

} // verus!
