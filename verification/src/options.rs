//! Options of archive readers and writers.

use vstd::prelude::*;

use crate::codec::dz::DzOptions;
use crate::codec::flags::{Compression, ContentHint};
use crate::codecs::dz::RangeSettings;

verus! {

/// Limits on what a reader accepts.
#[derive(Debug, Clone, Copy, PartialEq, Eq, Structural)]
pub struct ReadLimits {
    pub max_entries: usize,
    pub max_chunks: usize,
    pub max_chunk_references: usize,
    pub max_string_length: usize,
    pub max_metadata_bytes: usize,
    pub max_chunk_input_size: usize,
    pub max_chunk_output_size: usize,
    pub max_codec_workspace: usize,
    pub max_entry_size: u64,
    pub max_total_output: u64,
}

impl ReadLimits {
    /// Limits that no archive exceeds.
    pub open spec fn no_limits() -> ReadLimits {
        ReadLimits {
            max_entries: usize::MAX,
            max_chunks: usize::MAX,
            max_chunk_references: usize::MAX,
            max_string_length: usize::MAX,
            max_metadata_bytes: usize::MAX,
            max_chunk_input_size: usize::MAX,
            max_chunk_output_size: usize::MAX,
            max_codec_workspace: usize::MAX,
            max_entry_size: u64::MAX,
            max_total_output: u64::MAX,
        }
    }

    /// The limits of a reader that is given none.
    pub open spec fn usual() -> ReadLimits {
        ReadLimits {
            max_entries: 0x1_0000,
            max_chunks: 0x1_0000,
            max_chunk_references: 0x10_0000,
            max_string_length: 0x1000,
            max_metadata_bytes: 0x400_0000,
            max_chunk_input_size: 0x4000_0000,
            max_chunk_output_size: 0x4000_0000,
            max_codec_workspace: 0x4000_0000,
            max_entry_size: 0x1_0000_0000,
            max_total_output: 0x10_0000_0000,
        }
    }

    /// Limits that no archive exceeds.
    pub fn unlimited() -> (limits: ReadLimits)
        ensures
            limits == ReadLimits::no_limits(),
    {
        ReadLimits {
            max_entries: usize::MAX,
            max_chunks: usize::MAX,
            max_chunk_references: usize::MAX,
            max_string_length: usize::MAX,
            max_metadata_bytes: usize::MAX,
            max_chunk_input_size: usize::MAX,
            max_chunk_output_size: usize::MAX,
            max_codec_workspace: usize::MAX,
            max_entry_size: u64::MAX,
            max_total_output: u64::MAX,
        }
    }
}

impl Default for ReadLimits {
    fn default() -> (limits: ReadLimits)
        ensures
            limits == ReadLimits::usual(),
    {
        ReadLimits {
            max_entries: 0x1_0000,
            max_chunks: 0x1_0000,
            max_chunk_references: 0x10_0000,
            max_string_length: 0x1000,
            max_metadata_bytes: 0x400_0000,
            max_chunk_input_size: 0x4000_0000,
            max_chunk_output_size: 0x4000_0000,
            max_codec_workspace: 0x4000_0000,
            max_entry_size: 0x1_0000_0000,
            max_total_output: 0x10_0000_0000,
        }
    }
}

/// Options of a reader.
#[derive(Debug, Clone, Copy, PartialEq, Eq, Structural)]
pub struct ReadOptions {
    pub limits: ReadLimits,
}

impl Default for ReadOptions {
    fn default() -> (options: ReadOptions)
        ensures
            options.limits == ReadLimits::usual(),
    {
        ReadOptions { limits: ReadLimits::default() }
    }
}

/// How one entry is stored.
#[derive(Debug, Clone, Copy, PartialEq, Eq, Structural)]
pub struct EntryOptions {
    pub compression: Compression,
    pub volume: u16,
    pub random_access: bool,
    pub content_hint: Option<ContentHint>,
    /// Flags that are stored as they are, and select the way of storing.
    pub raw_flags: Option<u16>,
}

impl Default for EntryOptions {
    fn default() -> (options: EntryOptions)
        ensures
            options == (EntryOptions {
                compression: Compression::Copy,
                volume: 0,
                random_access: false,
                content_hint: None,
                raw_flags: None,
            }),
    {
        EntryOptions {
            compression: Compression::Copy,
            volume: 0,
            random_access: false,
            content_hint: None,
            raw_flags: None,
        }
    }
}

impl EntryOptions {
    /// The default options.
    pub fn new() -> (options: EntryOptions)
        ensures
            options == (EntryOptions {
                compression: Compression::Copy,
                volume: 0,
                random_access: false,
                content_hint: None,
                raw_flags: None,
            }),
    {
        EntryOptions::default()
    }

    /// The same options with another way of storing.
    pub fn compression(self, compression: Compression) -> (options: EntryOptions)
        ensures
            options == (EntryOptions { compression, ..self }),
    {
        EntryOptions {
            compression,
            volume: self.volume,
            random_access: self.random_access,
            content_hint: self.content_hint,
            raw_flags: self.raw_flags,
        }
    }

    /// The same options on another volume.
    pub fn volume(self, volume: u16) -> (options: EntryOptions)
        ensures
            options == (EntryOptions { volume, ..self }),
    {
        EntryOptions {
            compression: self.compression,
            volume,
            random_access: self.random_access,
            content_hint: self.content_hint,
            raw_flags: self.raw_flags,
        }
    }
}

/// How an archive is written.
#[derive(Debug)]
pub struct PackOptions {
    /// The names of the volumes; the first holds the metadata.
    pub volume_names: Vec<Vec<u8>>,
    pub dz: DzOptions,
    /// The stored bytes of every volume begin at a multiple of this.
    pub alignment: u32,
}

/// The options that a builder has unless it is given others: one volume, `archive.dz`.
pub open spec fn usual_settings(options: PackOptions) -> bool {
    &&& options.volume_names@.len() == 1
    &&& options.volume_names@[0]@ == seq![
        0x61u8,
        0x72,
        0x63,
        0x68,
        0x69,
        0x76,
        0x65,
        0x2e,
        0x64,
        0x7a,
    ]
    &&& options.alignment == 1
    &&& options.dz.settings == RangeSettings::usual()
    &&& options.dz.max_mem_usage == -1
    &&& !options.dz.use_combuf
    &&& options.dz.preprocess
    &&& options.dz.trim_reference_factor == 20
    &&& options.dz.max_common_match == usize::MAX
}

impl Default for PackOptions {
    fn default() -> (options: PackOptions)
        ensures
            usual_settings(options),
    {
        let mut name: Vec<u8> = Vec::new();
        let text: [u8; 10] = [0x61, 0x72, 0x63, 0x68, 0x69, 0x76, 0x65, 0x2e, 0x64, 0x7a];
        name.extend_from_slice(text.as_slice());
        assert(name@ =~= seq![0x61u8, 0x72, 0x63, 0x68, 0x69, 0x76, 0x65, 0x2e, 0x64, 0x7a]);
        let mut volume_names: Vec<Vec<u8>> = Vec::new();
        volume_names.push(name);
        PackOptions { volume_names, dz: DzOptions::default(), alignment: 1 }
    }
}

} // verus!
