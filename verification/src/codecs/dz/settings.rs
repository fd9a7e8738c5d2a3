//! The parameters of the DZ models.

use vstd::arithmetic::power2::pow2;
use vstd::prelude::*;

use crate::codecs::dz::error::DzError;
use crate::codecs::dz::fault::DzFault;
use crate::math::{lemma_pow2_monotonic, power_of_two};

verus! {

/// The common buffer begins with a table of recorded frequencies.
pub const USE_COMBUF_STATIC_TABLES: u8 = 1;

/// The size of the alphabet of literals, lengths and the end.
pub const TOP_SYMBOLS: usize = 514;

/// The parameters of the DZ models, as an archive stores them.
#[derive(Debug, Clone, Copy, PartialEq, Eq, Structural)]
pub struct RangeSettings {
    pub win_size: u8,
    pub flags: u8,
    pub offset_table_size: u8,
    pub offset_tables: u8,
    pub offset_contexts: u8,
    pub ref_length_table_size: u8,
    pub ref_length_tables: u8,
    pub ref_offset_table_size: u8,
    pub ref_offset_tables: u8,
    pub big_min_match: u8,
}

impl Default for RangeSettings {
    fn default() -> (settings: RangeSettings)
        ensures
            settings == RangeSettings::usual(),
    {
        RangeSettings {
            win_size: 17,
            flags: USE_COMBUF_STATIC_TABLES,
            offset_table_size: 8,
            offset_tables: 3,
            offset_contexts: 4,
            ref_length_table_size: 5,
            ref_length_tables: 3,
            ref_offset_table_size: 8,
            ref_offset_tables: 3,
            big_min_match: 32,
        }
    }
}

impl RangeSettings {
    /// The settings that are used where none are given.
    pub open spec fn usual() -> RangeSettings {
        RangeSettings {
            win_size: 17,
            flags: USE_COMBUF_STATIC_TABLES,
            offset_table_size: 8,
            offset_tables: 3,
            offset_contexts: 4,
            ref_length_table_size: 5,
            ref_length_tables: 3,
            ref_offset_table_size: 8,
            ref_offset_tables: 3,
            big_min_match: 32,
        }
    }

    /// The models that every chunk needs exist, and no table passes 32768 symbols.
    pub open spec fn valid(self) -> bool {
        &&& 1 <= self.offset_table_size <= 15
        &&& 1 <= self.offset_tables
        &&& 1 <= self.offset_contexts
        &&& self.ref_length_table_size <= 15
        &&& self.ref_offset_table_size <= 15
    }

    /// Frequency tables stand before the payload of a common buffer.
    pub open spec fn has_static_tables(self) -> bool {
        self.flags % 2 == 1
    }

    /// The size of the recorded frequency tables.
    pub open spec fn prefix_size(self) -> int {
        if self.has_static_tables() {
            TOP_SYMBOLS + self.offset_contexts * self.offset_tables * pow2(
                self.offset_table_size as nat,
            )
        } else {
            0
        }
    }

    /// What stands in the way of references into a common buffer.
    pub open spec fn reference_fault(self) -> Option<DzFault> {
        if !self.has_static_tables() {
            Some(DzFault::StaticTablesRequired)
        } else if self.ref_length_table_size == 0 || self.ref_offset_table_size == 0
            || self.ref_length_tables == 0 || self.ref_offset_tables == 0 {
            Some(DzFault::ReferenceModelsRequired)
        } else if self.big_min_match == 0 {
            Some(DzFault::ZeroMinMatch)
        } else {
            None
        }
    }

    /// The models of local matches never run dry: each has more symbols than its increment.
    /// Without room for a continuation, local matches are not used at all.
    pub open spec fn lively(self) -> bool {
        self.offset_table_size == 1 || 34 + 4 * (self.offset_tables - 1) <= pow2(
            self.offset_table_size as nat,
        )
    }

    /// Tells whether the models can be built.
    pub fn is_valid(&self) -> (valid: bool)
        ensures
            valid == self.valid(),
    {
        1 <= self.offset_table_size && self.offset_table_size <= 15 && 1 <= self.offset_tables
            && 1 <= self.offset_contexts && self.ref_length_table_size <= 15
            && self.ref_offset_table_size <= 15
    }

    /// Refuses settings for which the models cannot be built.
    pub fn validate(self) -> (result: Result<RangeSettings, DzError>)
        ensures
            match result {
                Ok(settings) => self.valid() && settings == self,
                Err(error) => !self.valid() && error@ == DzFault::InvalidSettings.report(),
            },
    {
        if self.is_valid() {
            Ok(self)
        } else {
            Err(DzFault::InvalidSettings.error())
        }
    }

    /// The size of the recorded frequency tables at the start of a common buffer.
    pub fn combuf_static_prefix_size(&self) -> (size: usize)
        requires
            self.valid(),
        ensures
            size == self.prefix_size(),
            size <= 0x8000_0000,
    {
        if self.flags % 2 == 0 {
            return 0;
        }
        let symbols: usize = table_symbols(self.offset_table_size);
        proof {
            assert(self.offset_contexts * self.offset_tables <= 255 * 255) by (nonlinear_arith)
                requires
                    self.offset_contexts <= 255,
                    self.offset_tables <= 255,
            ;
        }
        let tables: usize = self.offset_contexts as usize * self.offset_tables as usize;
        proof {
            assert(tables * symbols <= 255 * 255 * 0x8000) by (nonlinear_arith)
                requires
                    tables <= 255 * 255,
                    symbols <= 0x8000,
            ;
        }
        TOP_SYMBOLS + tables * symbols
    }
}

/// The number of symbols of a table of the given size.
pub fn table_symbols(size: u8) -> (symbols: usize)
    requires
        size <= 15,
    ensures
        symbols == pow2(size as nat),
        1 <= symbols <= 0x8000,
{
    proof {
        vstd::arithmetic::power2::lemma2_to64();
        lemma_pow2_monotonic(size as nat, 15);
    }
    power_of_two(size as usize) as usize
}

/// Refuses settings that allow no references into a common buffer.
pub fn validate_common_settings(settings: RangeSettings, use_combuf: bool) -> (result: Result<
    (),
    DzFault,
>)
    ensures
        result == (match settings.reference_fault() {
            Some(fault) if use_combuf => Err(fault),
            _ => Ok(()),
        }),
{
    if !use_combuf {
        return Ok(());
    }
    if settings.flags % 2 == 0 {
        return Err(DzFault::StaticTablesRequired);
    }
    if settings.ref_length_table_size == 0 || settings.ref_offset_table_size == 0
        || settings.ref_length_tables == 0 || settings.ref_offset_tables == 0 {
        return Err(DzFault::ReferenceModelsRequired);
    }
    if settings.big_min_match == 0 {
        return Err(DzFault::ZeroMinMatch);
    }
    Ok(())
}

} // verus!
