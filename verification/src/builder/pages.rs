//! The exact layout of a new archive, and what stands in its way.

use vstd::prelude::*;

use crate::builder::plan::{
    directories, grouped, paths_of, BuilderEntry,
};
use crate::builder::prepare_trouble;
use crate::builder::writing::{
    dz_before, dz_inputs, padding, planned, storage, written_record, BuildReport,
};
use crate::codec::dz::{dz_trouble, DzOptions};
use crate::codec::error::CodecTrouble;
use crate::codec::flags::Compression;
use crate::codec::stored;
use crate::codecs::dz::archive::{archive_streams, request_fault, total_size};
use crate::codecs::dz::sharing::Streams;
use crate::compat::{recorded_length, write_rank};
use crate::error::{refused, DzipError, Trouble};
use crate::format::{names_of, Chunk};
use crate::metadata::metadata_bytes;
use crate::options::PackOptions;

verus! {

/// Volumes, the chunks in them, and what was counted on the way.
#[verifier::ext_equal]
pub struct Page {
    pub volumes: Seq<Seq<u8>>,
    pub chunks: Seq<Chunk>,
    pub input: int,
    pub stored: int,
}

/// A page after a step, and what went wrong in it.
#[verifier::ext_equal]
pub struct Put {
    pub page: Page,
    pub trouble: Option<Trouble>,
}

/// What is written for an entry.
pub open spec fn payload_of(entries: Seq<BuilderEntry>, streams: Streams, k: int) -> Result<
    Seq<u8>,
    CodecTrouble,
> {
    if storage(entries, k) == Compression::Dz {
        Ok(streams.chunks[dz_before(entries, k as nat) as int])
    } else {
        stored(storage(entries, k), entries[k].bytes@)->Some_0
    }
}

/// The bytes are put behind what the volume holds.
pub open spec fn appended(volumes: Seq<Seq<u8>>, file: int, payload: Seq<u8>) -> Seq<Seq<u8>> {
    volumes.update(file, volumes[file] + payload)
}

/// What was written for an entry is put behind what its volume holds. The inputs of DZ chunks
/// are counted before.
pub open spec fn payload_put(
    page: Page,
    entries: Seq<BuilderEntry>,
    k: int,
    payload: Seq<u8>,
) -> Put {
    let file = entries[k].options.volume as int;
    let size = entries[k].bytes@.len() as int;
    let input = page.input + (if storage(entries, k) == Compression::Dz {
        0
    } else {
        size
    });
    let stored = page.stored + payload.len();
    let volumes = appended(page.volumes, file, payload);
    if input > u64::MAX {
        Put { page, trouble: Some(refused("input byte count overflow"@)) }
    } else if stored > u64::MAX {
        Put { page, trouble: Some(refused("stored byte count overflow"@)) }
    } else if page.volumes[file].len() > u32::MAX {
        Put {
            page,
            trouble: Some(refused("chunk offset exceeds the 32-bit format field"@)),
        }
    } else if recorded_length(storage(entries, k), size, payload.len() as int) > u32::MAX {
        Put {
            page: Page { volumes, ..page },
            trouble: Some(refused("chunk compressed length exceeds 32-bit limit"@)),
        }
    } else if size > u32::MAX {
        Put {
            page: Page { volumes, ..page },
            trouble: Some(refused("chunk decompressed length exceeds 32-bit limit"@)),
        }
    } else {
        Put {
            page: Page {
                volumes,
                chunks: page.chunks.update(
                    k,
                    Chunk {
                        offset: page.volumes[file].len() as u32,
                        ..written_record(entries, k, payload.len() as int)
                    },
                ),
                input,
                stored,
            },
            trouble: None,
        }
    }
}

/// An entry is stored behind what its volume holds.
pub open spec fn entry_put(page: Page, entries: Seq<BuilderEntry>, streams: Streams, k: int) -> Put {
    match payload_of(entries, streams, k) {
        Err(trouble) => Put { page, trouble: Some(Trouble::Codec(trouble)) },
        Ok(payload) => payload_put(page, entries, k, payload),
    }
}

/// The chunks of one rank are put, from number `k` on, up to the first that fails.
pub open spec fn rank_put(
    page: Page,
    entries: Seq<BuilderEntry>,
    streams: Streams,
    rank: int,
    k: int,
) -> Put
    decreases entries.len() - k,
{
    if 0 <= k < entries.len() {
        if write_rank(storage(entries, k)) == rank {
            let put = entry_put(page, entries, streams, k);
            if put.trouble is Some {
                put
            } else {
                rank_put(put.page, entries, streams, rank, k + 1)
            }
        } else {
            rank_put(page, entries, streams, rank, k + 1)
        }
    } else {
        Put { page, trouble: None }
    }
}

/// The common buffer is put behind what the first volume holds.
pub open spec fn common_put(page: Page, entries: Seq<BuilderEntry>, bytes: Seq<u8>) -> Put {
    let stored = page.stored + bytes.len();
    let volumes = appended(page.volumes, 0, bytes);
    if page.volumes[0].len() > u32::MAX {
        Put { page, trouble: Some(refused("COMBUF offset exceeds 32-bit limit"@)) }
    } else if stored > u64::MAX {
        Put {
            page: Page { volumes, ..page },
            trouble: Some(refused("stored byte count overflow"@)),
        }
    } else if bytes.len() > u32::MAX {
        Put {
            page: Page { volumes, ..page },
            trouble: Some(refused("COMBUF compressed length exceeds 32-bit limit"@)),
        }
    } else {
        let n = entries.len() as int;
        Put {
            page: Page {
                volumes,
                chunks: page.chunks.update(
                    n,
                    Chunk {
                        offset: page.volumes[0].len() as u32,
                        ..written_record(entries, n, bytes.len() as int)
                    },
                ),
                input: page.input,
                stored,
            },
            trouble: None,
        }
    }
}

/// What comes before the chunks of a rank: the common buffer before the DZ chunks.
pub open spec fn begun(page: Page, entries: Seq<BuilderEntry>, streams: Streams, rank: int) -> Put {
    if rank == 5 && streams.common is Some {
        common_put(page, entries, streams.common->Some_0)
    } else {
        Put { page, trouble: None }
    }
}

/// The chunks of the ranks from `rank` on are put, up to the first that fails.
pub open spec fn all_put(page: Page, entries: Seq<BuilderEntry>, streams: Streams, rank: int) -> Put
    decreases 6 - rank,
{
    if rank < 6 {
        let first = begun(page, entries, streams, rank);
        if first.trouble is Some {
            first
        } else {
            let put = rank_put(first.page, entries, streams, rank, 0);
            if put.trouble is Some {
                put
            } else {
                all_put(put.page, entries, streams, rank + 1)
            }
        }
    } else {
        Put { page, trouble: None }
    }
}

/// Zeros up to the next multiple of the alignment behind the given size.
pub open spec fn padded_zeros(size: int, alignment: u32) -> Seq<u8> {
    Seq::new((size + padding(size, alignment)) as nat, |i: int| 0u8)
}

/// Volumes without chunks: the first has room for the metadata.
pub open spec fn blank_volumes(count: nat, header: int, alignment: u32) -> Seq<Seq<u8>> {
    Seq::new(
        count,
        |v: int|
            padded_zeros(
                if v == 0 {
                    header
                } else {
                    0
                },
                alignment,
            ),
    )
}

/// A record of no chunk.
pub open spec fn blank_chunk() -> Chunk {
    Chunk { offset: 0, compressed_length: 0, decompressed_length: 0, flags: 0, file: 0 }
}

/// The records before anything is stored.
pub open spec fn blank_chunks(entries: Seq<BuilderEntry>, streams: Streams) -> Seq<Chunk> {
    Seq::new(chunk_count(entries, streams), |k: int| blank_chunk())
}

/// The number of chunks of a new archive.
pub open spec fn chunk_count(entries: Seq<BuilderEntry>, streams: Streams) -> nat {
    entries.len() + (if streams.common is Some {
        1nat
    } else {
        0nat
    })
}

/// The room for the metadata.
pub open spec fn header_size(
    entries: Seq<BuilderEntry>,
    volume_names: Seq<Seq<u8>>,
    dz: DzOptions,
    streams: Streams,
) -> int {
    metadata_bytes(planned(entries, volume_names, dz, blank_chunks(entries, streams))).len() as int
}

/// The page before anything is stored.
pub open spec fn blank_page(entries: Seq<BuilderEntry>, options: PackOptions, streams: Streams) -> Page {
    let names = names_of(options.volume_names@);
    Page {
        volumes: blank_volumes(
            names.len(),
            header_size(entries, names, options.dz, streams),
            options.alignment,
        ),
        chunks: blank_chunks(entries, streams),
        input: dz_input_size(entries),
        stored: 0,
    }
}

/// The size of all inputs of DZ chunks together.
pub open spec fn dz_input_size(entries: Seq<BuilderEntry>) -> int {
    let inputs = dz_inputs(entries, entries.len());
    total_size(inputs, inputs.len())
}

/// The volume with the metadata at its start.
pub open spec fn headed(volume: Seq<u8>, head: Seq<u8>) -> Seq<u8> {
    head + volume.skip(head.len() as int)
}

/// The volumes of a new archive.
pub open spec fn archive_volumes(
    entries: Seq<BuilderEntry>,
    volume_names: Seq<Seq<u8>>,
    dz: DzOptions,
    page: Page,
) -> Seq<Seq<u8>> {
    page.volumes.update(
        0,
        headed(
            page.volumes[0],
            metadata_bytes(planned(entries, volume_names, dz, page.chunks)),
        ),
    )
}

/// The volumes as a failure leaves them: the room for the metadata counts only once something
/// was written behind it.
pub open spec fn left_volumes(volumes: Seq<Seq<u8>>, header: int) -> Seq<Seq<u8>> {
    if volumes[0].len() <= header {
        volumes.update(0, Seq::empty())
    } else {
        volumes
    }
}

/// The DZ streams of an archive, or why they cannot be made.
pub open spec fn encoded_streams(entries: Seq<BuilderEntry>, dz: DzOptions) -> Result<
    Streams,
    Trouble,
> {
    let inputs = dz_inputs(entries, entries.len());
    if inputs.len() == 0 {
        Ok(Streams { chunks: Seq::empty(), common: None })
    } else if request_fault(inputs, dz.engine()) is Some {
        Err(Trouble::Codec(dz_trouble(request_fault(inputs, dz.engine())->Some_0)))
    } else {
        match archive_streams(inputs, dz.engine()) {
            Ok(streams) => Ok(streams),
            Err(fault) => Err(Trouble::Codec(dz_trouble(fault))),
        }
    }
}

/// What stands in the way of the plan of an archive.
pub open spec fn plan_trouble(entries: Seq<BuilderEntry>) -> Option<Trouble> {
    let list = grouped(paths_of(entries), entries.len());
    let folders = directories(list, list.len());
    if folders.len() >= 0xffff {
        Some(refused("directory count exceeds 65535"@))
    } else if list.len() > 0xffff {
        Some(refused("user file count exceeds 65535"@))
    } else {
        None
    }
}

/// What comes of writing an archive: whether the volumes were begun, what they hold at the end,
/// and the report.
#[verifier::ext_equal]
pub struct Outcome {
    pub begun: bool,
    pub volumes: Seq<Seq<u8>>,
    pub result: Result<BuildReport, Trouble>,
}

/// The result of writing is that of the outcome.
pub open spec fn answered(outcome: Outcome, result: Result<BuildReport, DzipError>) -> bool {
    match outcome.result {
        Ok(report) => result == Ok::<BuildReport, DzipError>(report),
        Err(trouble) => result matches Err(error) && error@ == trouble,
    }
}

/// Volumes that hold nothing.
pub open spec fn no_bytes(count: nat) -> Seq<Seq<u8>> {
    Seq::new(count, |v: int| Seq::<u8>::empty())
}

/// What comes of writing the chunks of a planned archive.
pub open spec fn page_outcome(
    entries: Seq<BuilderEntry>,
    options: PackOptions,
    streams: Streams,
) -> Outcome {
    let names = names_of(options.volume_names@);
    let put = all_put(blank_page(entries, options, streams), entries, streams, 0);
    match put.trouble {
        Some(trouble) => Outcome {
            begun: true,
            volumes: left_volumes(
                put.page.volumes,
                header_size(entries, names, options.dz, streams),
            ),
            result: Err(trouble),
        },
        None => Outcome {
            begun: true,
            volumes: archive_volumes(entries, names, options.dz, put.page),
            result: Ok(
                BuildReport {
                    entries: grouped(paths_of(entries), entries.len()).len() as usize,
                    chunks: chunk_count(entries, streams) as usize,
                    input_bytes: put.page.input as u64,
                    stored_bytes: put.page.stored as u64,
                    volumes: names.len() as usize,
                },
            ),
        },
    }
}

/// What comes of writing a planned archive.
#[verifier::opaque]
pub open spec fn planned_outcome(entries: Seq<BuilderEntry>, options: PackOptions) -> Outcome {
    let count = options.volume_names@.len();
    match encoded_streams(entries, options.dz) {
        Err(trouble) => Outcome { begun: true, volumes: no_bytes(count), result: Err(trouble) },
        Ok(streams) => if dz_input_size(entries) > u64::MAX {
            Outcome {
                begun: true,
                volumes: no_bytes(count),
                result: Err(refused("input byte count overflow"@)),
            }
        } else if chunk_count(entries, streams) > 0xffff {
            Outcome {
                begun: true,
                volumes: no_bytes(count),
                result: Err(refused("chunk count exceeds 65535"@)),
            }
        } else {
            page_outcome(entries, options, streams)
        },
    }
}

/// What comes of writing an archive.
pub open spec fn archive_outcome(entries: Seq<BuilderEntry>, options: PackOptions) -> Outcome {
    let names = names_of(options.volume_names@);
    let none = Seq::<Seq<u8>>::empty();
    match prepare_trouble(entries, names) {
        Some(trouble) => Outcome { begun: false, volumes: none, result: Err(trouble) },
        None => match plan_trouble(entries) {
            Some(trouble) => Outcome { begun: false, volumes: none, result: Err(trouble) },
            None => planned_outcome(entries, options),
        },
    }
}

} // verus!
