//! Options and resource limits of the DZ codec.

use vstd::arithmetic::power2::pow2;
use vstd::prelude::*;

use crate::codecs::dz::common::DzCommonBuffer;
use crate::codecs::dz::error::DzError;
use crate::codecs::dz::fault::DzFault;
use crate::codecs::dz::settings::{table_symbols, RangeSettings, TOP_SYMBOLS};

verus! {

#[derive(Debug, Clone, Copy, PartialEq, Eq, Structural)]
pub struct ResourceLimits {
    pub max_input_size: usize,
    pub max_output_size: usize,
    pub max_workspace_size: usize,
}

impl ResourceLimits {
    /// Limits that no request exceeds.
    pub open spec fn no_limits() -> ResourceLimits {
        ResourceLimits {
            max_input_size: usize::MAX,
            max_output_size: usize::MAX,
            max_workspace_size: usize::MAX,
        }
    }

    /// Limits that no request exceeds.
    pub fn unlimited() -> (limits: ResourceLimits)
        ensures
            limits == ResourceLimits::no_limits(),
    {
        ResourceLimits {
            max_input_size: usize::MAX,
            max_output_size: usize::MAX,
            max_workspace_size: usize::MAX,
        }
    }
}

impl Default for ResourceLimits {
    fn default() -> (limits: Self)
        ensures
            limits == ResourceLimits::no_limits(),
    {
        ResourceLimits::unlimited()
    }
}

#[derive(Debug, Clone, Copy, PartialEq, Eq, Structural)]
pub struct EncoderOptions {
    pub settings: RangeSettings,
    pub limits: ResourceLimits,
}

impl Default for EncoderOptions {
    fn default() -> (options: Self)
        ensures
            options.settings == RangeSettings::usual(),
            options.settings.valid(),
            options.limits == ResourceLimits::no_limits(),
    {
        EncoderOptions {
            settings: RangeSettings::default(),
            limits: ResourceLimits::unlimited(),
        }
    }
}

#[derive(Debug, Clone, Copy)]
pub struct DecoderOptions<'a> {
    pub settings: RangeSettings,
    pub expected_size: usize,
    pub common_buffer: Option<&'a DzCommonBuffer>,
    pub limits: ResourceLimits,
}

impl<'a> DecoderOptions<'a> {
    /// Options for a chunk of `expected_size` bytes that stands alone, without limits.
    pub fn new(settings: RangeSettings, expected_size: usize) -> (options: Self)
        ensures
            options.settings == settings,
            options.expected_size == expected_size,
            options.common_buffer is None,
            options.limits == ResourceLimits::no_limits(),
    {
        DecoderOptions {
            settings,
            expected_size,
            common_buffer: None,
            limits: ResourceLimits::unlimited(),
        }
    }
}

/// The number of symbols of all models together.
pub open spec fn model_symbols(settings: RangeSettings, has_combuf: bool) -> int {
    TOP_SYMBOLS + settings.offset_contexts * settings.offset_tables * pow2(
        settings.offset_table_size as nat,
    ) + (if has_combuf {
        pow2(settings.ref_length_table_size as nat) + settings.ref_length_tables * pow2(
            settings.ref_length_table_size as nat,
        ) + settings.ref_offset_tables * pow2(settings.ref_offset_table_size as nat) + 10
    } else {
        0
    })
}

/// The memory that the models are estimated to take: six bytes for each symbol, and 64 bytes
/// for each model.
pub open spec fn model_workspace(settings: RangeSettings, has_combuf: bool) -> int {
    6 * model_symbols(settings, has_combuf) + (settings.offset_contexts * settings.offset_tables
        + 16) * 64
}

/// The memory that encoding is estimated to take.
pub open spec fn encode_workspace(input_size: int, settings: RangeSettings) -> int {
    2 * model_workspace(settings, false) + 32 * input_size + 0x4_0000
}

/// The memory that the models are estimated to take.
pub fn model_workspace_size(settings: RangeSettings, has_combuf: bool) -> (result: Result<
    usize,
    DzError,
>)
    ensures
        if !settings.valid() {
            result matches Err(error) && error@ == DzFault::InvalidSettings.report()
        } else if model_workspace(settings, has_combuf) > usize::MAX {
            result matches Err(error) && error@ == DzFault::ModelOverflow.report()
        } else {
            result matches Ok(size) && size == model_workspace(settings, has_combuf)
        },
{
    match estimate_models(settings, has_combuf) {
        Ok(size) => Ok(size),
        Err(fault) => Err(fault.error()),
    }
}

/// The memory that the models are estimated to take.
pub fn estimate_models(settings: RangeSettings, has_combuf: bool) -> (result: Result<
    usize,
    DzFault,
>)
    ensures
        if !settings.valid() {
            result == Err::<usize, DzFault>(DzFault::InvalidSettings)
        } else if model_workspace(settings, has_combuf) > usize::MAX {
            result == Err::<usize, DzFault>(DzFault::ModelOverflow)
        } else {
            result matches Ok(size) && size == model_workspace(settings, has_combuf)
        },
{
    if !settings.is_valid() {
        return Err(DzFault::InvalidSettings);
    }
    let offset_symbols: u64 = table_symbols(settings.offset_table_size) as u64;
    let length_symbols: u64 = table_symbols(settings.ref_length_table_size) as u64;
    let spot_symbols: u64 = table_symbols(settings.ref_offset_table_size) as u64;
    let contexts: u64 = settings.offset_contexts as u64;
    let tables: u64 = settings.offset_tables as u64;
    let lengths: u64 = settings.ref_length_tables as u64;
    let spots: u64 = settings.ref_offset_tables as u64;
    proof {
        assert(contexts * tables <= 0xfe01) by (nonlinear_arith)
            requires
                contexts <= 255,
                tables <= 255,
        ;
        let models = contexts * tables;
        assert(models * offset_symbols <= 0xfe01 * 0x8000) by (nonlinear_arith)
            requires
                0 <= models <= 0xfe01,
                offset_symbols <= 0x8000,
        ;
        assert(lengths * length_symbols <= 255 * 0x8000) by (nonlinear_arith)
            requires
                lengths <= 255,
                length_symbols <= 0x8000,
        ;
        assert(spots * spot_symbols <= 255 * 0x8000) by (nonlinear_arith)
            requires
                spots <= 255,
                spot_symbols <= 0x8000,
        ;
    }
    let models: u64 = contexts * tables;
    let mut symbols: u64 = TOP_SYMBOLS as u64 + models * offset_symbols;
    if has_combuf {
        symbols = symbols + length_symbols + lengths * length_symbols + spots * spot_symbols + 10;
    }
    let bytes: u64 = 6 * symbols + (models + 16) * 64;
    if bytes > usize::MAX as u64 {
        return Err(DzFault::ModelOverflow);
    }
    Ok(bytes as usize)
}

/// The memory that encoding is estimated to take.
pub fn encode_workspace_size(input_size: usize, settings: RangeSettings) -> (result: Result<
    usize,
    DzFault,
>)
    ensures
        if !settings.valid() {
            result == Err::<usize, DzFault>(DzFault::InvalidSettings)
        } else if model_workspace(settings, false) > usize::MAX {
            result == Err::<usize, DzFault>(DzFault::ModelOverflow)
        } else if encode_workspace(input_size as int, settings) > usize::MAX {
            result == Err::<usize, DzFault>(DzFault::WorkspaceOverflow)
        } else {
            result matches Ok(size) && size == encode_workspace(input_size as int, settings)
        },
{
    let models: usize = match estimate_models(settings, false) {
        Ok(models) => models,
        Err(fault) => return Err(fault),
    };
    let total: u128 = 2 * models as u128 + 32 * input_size as u128 + 0x4_0000;
    if total > usize::MAX as u128 {
        return Err(DzFault::WorkspaceOverflow);
    }
    Ok(total as usize)
}

} // verus!
