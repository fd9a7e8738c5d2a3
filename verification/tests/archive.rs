//! Whole archives: writing, reading, looking up and unpacking.

use dzip::archive::{resolve_chunk_layout, EntryId};
use dzip::builder::{ArchiveBuilder, MemoryVolumeSink};
use dzip::codec::flags::Compression;
use dzip::error::{check_limit, DzipError, IoErrorKind};
use dzip::extract::{
    parent_action, target_action, target_components, ExtractOptions, ExtractionReport, Obstacle,
    ParentAction, TargetAction,
};
use dzip::format::{Chunk, RawArchive, CHUNK_COPYCOMP, CHUNK_ZERO};
use dzip::metadata::{parse_metadata, write_metadata};
use dzip::options::{EntryOptions, PackOptions, ReadLimits, ReadOptions};
use dzip::path::{ensure_utf8, is_utf8, path_components, resolve_relative_path, same_path};
use dzip::reading::{Archive, ArchivePreparation};

fn noise(length: usize, mut state: u32) -> Vec<u8> {
    (0..length)
        .map(|_| {
            state ^= state << 13;
            state ^= state >> 17;
            state ^= state << 5;
            state as u8
        })
        .collect()
}

fn names(list: &[&str]) -> Vec<Vec<u8>> {
    list.iter().map(|name| name.as_bytes().to_vec()).collect()
}

fn open(sink: MemoryVolumeSink, options: ReadOptions) -> Result<Archive, DzipError> {
    let mut volumes = sink.into_volumes().into_iter();
    let main = volumes.next().unwrap();
    Archive::open_with_options(main, volumes.map(Some).collect(), options)
}

#[test]
fn every_compression_gives_back_its_entries() {
    let entries: Vec<(&str, Vec<u8>, Compression)> = vec![
        ("copy.bin", noise(500, 1), Compression::Copy),
        ("a/zlib.txt", b"zlib zlib zlib ".repeat(40), Compression::Zlib),
        ("a/bzip.txt", b"bzip bzip bzip ".repeat(40), Compression::Bzip),
        ("a/b/lzma.txt", b"lzma lzma lzma ".repeat(40), Compression::Lzma),
        ("a/b/dz.txt", b"dz dz dz dz ".repeat(40), Compression::Dz),
        ("zero", vec![0; 300], Compression::Zero),
        ("empty", Vec::new(), Compression::Copy),
        ("empty.lzma", Vec::new(), Compression::Lzma),
        ("empty.bz2", Vec::new(), Compression::Bzip),
    ];
    let mut builder = ArchiveBuilder::new();
    for (path, bytes, compression) in &entries {
        builder
            .add_bytes(
                path.as_bytes(),
                bytes.clone(),
                EntryOptions::new().compression(*compression),
            )
            .unwrap();
    }
    let (report, volume) = builder.write_to().unwrap();
    assert_eq!(report.entries, entries.len());
    assert_eq!(report.volumes, 1);
    assert_eq!(
        report.input_bytes,
        entries.iter().map(|entry| entry.1.len() as u64).sum::<u64>()
    );

    let mut archive = Archive::open_with_volumes(volume, Vec::new()).unwrap();
    assert_eq!(archive.entries().len(), entries.len());
    for (path, bytes, compression) in &entries {
        let entry = archive.find_entry(path.as_bytes()).unwrap();
        assert_eq!(entry.path(), path.as_bytes());
        assert_eq!(entry.compression(), *compression);
        assert_eq!(entry.decompressed_size(), bytes.len() as u64);
        let id = entry.id();
        assert_eq!(&archive.read_entry(id).unwrap(), bytes);
        assert_eq!(&archive.read_entry_by_path(path.as_bytes()).unwrap(), bytes);
        let mut output = b"before".to_vec();
        assert_eq!(
            archive.read_entry_to(id, &mut output).unwrap(),
            bytes.len() as u64
        );
        assert_eq!(&output[6..], &bytes[..]);
    }
    match archive.read_entry(EntryId(99)) {
        Err(DzipError::EntryNotFound(text)) => assert_eq!(text, "99"),
        other => panic!("{other:?}"),
    }
    match archive.read_entry_by_path("n\u{fc}t/nothing".as_bytes()) {
        Err(DzipError::EntryNotFound(text)) => assert_eq!(text, "n\u{fc}t/nothing"),
        other => panic!("{other:?}"),
    }
    match archive.read_entry_by_path(&[b'n', 0xff]) {
        Err(DzipError::EntryNotFound(text)) => assert_eq!(text, "n\u{fffd}"),
        other => panic!("{other:?}"),
    }
    let mut output = b"kept".to_vec();
    assert!(archive.read_entry_to(EntryId(99), &mut output).is_err());
    assert_eq!(output, b"kept");
}

#[test]
fn a_common_buffer_without_trimming_round_trips() {
    let shared = noise(3000, 4);
    let mut other = vec![1, 2, 3];
    other.extend_from_slice(&shared);
    for compression in [Compression::Dz, Compression::Copy] {
        let mut options = PackOptions::default();
        options.dz.use_combuf = true;
        options.dz.trim_reference_factor = 0;
        let mut builder = ArchiveBuilder::with_options(options);
        let entry = EntryOptions::new().compression(compression);
        builder.add_bytes(b"one", shared.clone(), entry).unwrap();
        builder.add_bytes(b"two", other.clone(), entry).unwrap();
        builder.add_bytes(b"ONE", b"behind".to_vec(), entry).unwrap();
        let (report, volume) = builder.write_to().unwrap();
        assert_eq!(report.entries, 2);
        let mut archive = Archive::open_with_volumes(volume, Vec::new()).unwrap();
        let mut expected = shared.clone();
        expected.extend_from_slice(b"behind");
        assert_eq!(archive.read_entry(EntryId(0)).unwrap(), expected);
        assert_eq!(archive.read_entry(EntryId(1)).unwrap(), other);
    }
}

#[test]
fn several_volumes_and_a_common_buffer_round_trip() {
    let shared = noise(3000, 9);
    let mut other = vec![1, 2, 3];
    other.extend_from_slice(&shared);
    let mut options = PackOptions::default();
    options.volume_names = names(&["main.dz", "second.dz"]);
    options.dz.use_combuf = true;
    options.alignment = 64;
    let mut builder = ArchiveBuilder::with_options(options);
    let dz = EntryOptions::new().compression(Compression::Dz);
    builder.add_bytes(b"one", shared.clone(), dz).unwrap();
    builder.add_bytes(b"two", other.clone(), dz).unwrap();
    builder
        .add_bytes(
            b"three",
            b"zlib in another volume".to_vec(),
            EntryOptions::new().compression(Compression::Zlib).volume(1),
        )
        .unwrap();
    let mut sink = MemoryVolumeSink::new();
    let report = builder.write_to_sink(&mut sink).unwrap();
    assert_eq!(report.volumes, 2);
    assert_eq!(sink.name(1), Some(b"second.dz".as_slice()));
    assert!(sink.volume(0).is_some());
    assert_eq!(sink.volume(2), None);

    let mut archive = open(sink, ReadOptions::default()).unwrap();
    assert!(archive.index().has_dz_common_buffer());
    assert!(archive.is_volume_resolved(0));
    assert!(!archive.is_volume_resolved(1));
    assert!(archive.resolve_all_volumes().is_ok());
    assert!(archive.is_volume_resolved(1));
    assert_eq!(archive.read_entry_by_path(b"one").unwrap(), shared);
    assert_eq!(archive.read_entry_by_path(b"two").unwrap(), other);
    assert_eq!(
        archive.read_entry_by_path(b"three").unwrap(),
        b"zlib in another volume"
    );
    assert_eq!(archive.find_entry(b"three").unwrap().volume(), 1);
}

#[test]
fn a_missing_volume_is_reported_when_it_is_needed() {
    let mut options = PackOptions::default();
    options.volume_names = names(&["main.dz", "second.dz"]);
    let mut builder = ArchiveBuilder::with_options(options);
    builder
        .add_bytes(b"here", b"here".to_vec(), EntryOptions::new())
        .unwrap();
    builder
        .add_bytes(b"there", b"there".to_vec(), EntryOptions::new().volume(1))
        .unwrap();
    let mut sink = MemoryVolumeSink::new();
    builder.write_to_sink(&mut sink).unwrap();
    let main = sink.volume(0).unwrap().to_vec();
    let mut archive = Archive::open_with_volumes(main, vec![None]).unwrap();
    assert_eq!(archive.read_entry_by_path(b"here").unwrap(), b"here");
    assert!(!archive.is_volume_resolved(1));
    assert!(matches!(
        archive.resolve_volume(1),
        Err(DzipError::VolumeNotFound(1))
    ));
    assert!(matches!(
        archive.read_entry_by_path(b"there"),
        Err(DzipError::VolumeNotFound(1))
    ));
}

#[test]
fn entries_with_one_path_are_joined() {
    let mut builder = ArchiveBuilder::new();
    for piece in [b"first ".as_slice(), b"second ", b"third"] {
        builder
            .add_bytes(
                b"joined.txt",
                piece.to_vec(),
                EntryOptions::new().compression(Compression::Zlib),
            )
            .unwrap();
    }
    let (_, volume) = builder.write_to().unwrap();
    let mut archive = Archive::open_with_volumes(volume, Vec::new()).unwrap();
    assert_eq!(archive.entries().len(), 1);
    let entry = &archive.entries()[0];
    assert_eq!(entry.segments().len(), 3);
    assert_eq!(entry.segments()[1].decoded_range(), 6..13);
    assert_eq!(
        archive.read_entry(EntryId(0)).unwrap(),
        b"first second third"
    );
}

#[test]
fn builders_refuse_what_cannot_be_written() {
    let mut builder = ArchiveBuilder::new();
    let plain = EntryOptions::new();
    let refused = |result: Result<(), DzipError>| result.unwrap_err().message();
    assert_eq!(
        refused(builder.add_bytes(b"", Vec::new(), plain)),
        "IO error: archive path must not be empty"
    );
    assert_eq!(
        refused(builder.add_bytes(&[0xff, 0xfe], Vec::new(), plain)),
        "IO error: archive path is not UTF-8: \u{fffd}\u{fffd}"
    );
    assert_eq!(
        refused(builder.add_bytes(b"a\0b", Vec::new(), plain)),
        "IO error: archive path contains an embedded nul byte"
    );
    assert_eq!(
        refused(builder.add_bytes(b"../up", Vec::new(), plain)),
        "Invalid Dzip archive: path leaves the archive root"
    );
    assert_eq!(
        refused(builder.add_bytes(b"a/..", Vec::new(), plain)),
        "IO error: archive path must not resolve to the root directory"
    );
    builder
        .add_bytes("f\u{fc}r/alle.txt".as_bytes(), Vec::new(), plain.volume(3))
        .unwrap();
    assert!(matches!(
        builder.write_to_sink(&mut MemoryVolumeSink::new()),
        Err(DzipError::VolumeNotFound(3))
    ));
    assert!(matches!(builder.write_to(), Err(DzipError::Io(_))));
    builder.options_mut().volume_names = Vec::new();
    assert_eq!(builder.options().volume_names.len(), 0);
    assert!(matches!(
        builder.write_to_sink(&mut MemoryVolumeSink::new()),
        Err(DzipError::Io(_))
    ));
}

#[test]
fn readers_refuse_damaged_metadata() {
    assert!(matches!(
        RawArchive::read_from(b"DT"),
        Err(DzipError::Io(_))
    ));
    assert!(matches!(
        RawArchive::read_from(b"XXXX\0\0\0\0\0\0"),
        Err(DzipError::InvalidHeader)
    ));
    let mut builder = ArchiveBuilder::new();
    builder
        .add_bytes(b"x", b"content".to_vec(), EntryOptions::new())
        .unwrap();
    let (_, volume) = builder.write_to().unwrap();
    let mut newer = volume.clone();
    newer[8] = 7;
    assert!(matches!(
        RawArchive::read_from(&newer),
        Err(DzipError::UnsupportedVersion(7))
    ));
    for end in 0..volume.len() - 7 {
        assert!(RawArchive::read_from(&volume[..end]).is_err());
    }
    let options = ReadOptions {
        limits: ReadLimits {
            max_entries: 0,
            ..ReadLimits::unlimited()
        },
    };
    match parse_metadata(&volume, &options) {
        Err(DzipError::LimitExceeded {
            resource,
            limit,
            actual,
        }) => assert_eq!((resource, limit, actual), ("entry count", 0, 1)),
        other => panic!("{other:?}"),
    }
    let options = ReadOptions {
        limits: ReadLimits {
            max_entry_size: 6,
            ..ReadLimits::unlimited()
        },
    };
    assert!(matches!(
        Archive::open_with_options(volume, Vec::new(), options),
        Err(DzipError::LimitExceeded { .. })
    ));
}

#[test]
fn metadata_are_written_as_they_were_read() {
    let mut builder = ArchiveBuilder::new();
    let dz = EntryOptions::new().compression(Compression::Dz);
    builder.add_bytes(b"d/one", noise(100, 3), dz).unwrap();
    builder.add_bytes(b"d/two", noise(10, 4), dz).unwrap();
    let (_, volume) = builder.write_to().unwrap();
    let preparation = ArchivePreparation::read(volume.clone(), ReadOptions::default()).unwrap();
    let bytes = write_metadata(preparation.metadata());
    assert_eq!(bytes[..], volume[..bytes.len()]);
    assert_eq!(preparation.metadata().files.len(), 2);
    assert!(preparation.metadata().range_settings.is_some());
    let archive = preparation.open(Vec::new()).unwrap();
    assert_eq!(archive.index().stored_chunks().len(), 2);
    assert_eq!(archive.index().chunks().len(), 2);
    assert!(archive.index().chunk(2).is_none());
    assert_eq!(archive.index().volume_files().len(), 0);
    assert!(archive.index().find_raw(b"d\\one").is_some());
    assert!(archive.index().find(b"D/ONE").is_some());
    assert!(archive.index().find(b"d/three").is_none());
}

#[test]
fn placeholder_lengths_are_resolved_from_the_layout() {
    let chunk = |offset: u32, compressed: u32, flags: u16| Chunk {
        offset,
        compressed_length: compressed,
        decompressed_length: 5,
        flags,
        file: 0,
    };
    let chunks = vec![chunk(10, 5, CHUNK_COPYCOMP), chunk(0, 0, CHUNK_ZERO)];
    let resolved = resolve_chunk_layout(&chunks, &vec![Some(vec![0; 15])]);
    assert_eq!(resolved[0].physical_length, 5);
    assert_eq!(resolved[0].stored, chunks[0]);
    assert_eq!(resolved[0].decoder_chunk(), chunks[0]);
    assert_eq!(resolved[1].decoder_chunk().flags, CHUNK_ZERO);
}

#[test]
fn paths_are_taken_apart() {
    assert_eq!(
        resolve_relative_path(b"a/./b//c\\d").unwrap(),
        b"a/b/c/d".to_vec()
    );
    assert_eq!(resolve_relative_path(b"a/../b").unwrap(), b"b".to_vec());
    assert!(resolve_relative_path(b"/etc").is_err());
    assert!(resolve_relative_path(b"C:\\x").is_err());
    assert!(resolve_relative_path(b"a/../../b").is_err());
    assert_eq!(path_components(b"x/y"), Some(names(&["x", "y"])));
    assert!(same_path(b"a/b", b"a\\b"));
    assert!(!same_path(b"a/b", b"a/c"));
}

#[test]
fn extraction_decides_by_what_is_there() {
    assert_eq!(
        target_components(b"a/b.txt").unwrap(),
        names(&["a", "b.txt"])
    );
    assert!(target_components(b"../b").is_err());
    assert_eq!(parent_action(Obstacle::Nothing), ParentAction::Create);
    assert_eq!(parent_action(Obstacle::Directory), ParentAction::Enter);
    assert_eq!(parent_action(Obstacle::Link), ParentAction::Refuse);
    assert_eq!(parent_action(Obstacle::File), ParentAction::Refuse);
    let keep = ExtractOptions { overwrite: false };
    let replace = ExtractOptions { overwrite: true };
    assert_eq!(target_action(Obstacle::Nothing, keep), TargetAction::Write);
    assert_eq!(target_action(Obstacle::File, keep), TargetAction::Exists);
    assert_eq!(target_action(Obstacle::File, replace), TargetAction::Write);
    assert_eq!(target_action(Obstacle::Link, replace), TargetAction::Refuse);
    assert_eq!(
        target_action(Obstacle::Directory, replace),
        TargetAction::Refuse
    );
    let report = ExtractionReport::default().with_file(7).unwrap();
    assert_eq!((report.files, report.bytes), (1, 7));
    assert!(report.with_file(u64::MAX).is_err());
}

#[test]
fn limits_are_inclusive() {
    assert!(check_limit("entry bytes", 5, 5).is_ok());
    assert_eq!(
        check_limit("entry bytes", 5, 6).unwrap_err().message(),
        "Dzip entry bytes limit exceeded: limit 5, actual 6"
    );
}

#[test]
fn errors_are_described() {
    assert_eq!(DzipError::InvalidHeader.message(), "Invalid DTRZ header");
    assert_eq!(
        DzipError::UnsupportedVersion(9).message(),
        "Unsupported version: 9"
    );
    assert_eq!(
        DzipError::UnsupportedCompression(0x8000).message(),
        "Unsupported compression method: flags=0x8000"
    );
    assert_eq!(
        DzipError::VolumeNotFound(4).message(),
        "Volume 4 not found in file list"
    );
}

#[test]
fn writing_twice_gives_the_same_volumes() {
    let mut builder = ArchiveBuilder::new();
    builder.options_mut().volume_names = names(&["a.dz", "b.dz"]);
    builder.options_mut().alignment = 512;
    for (k, compression) in [
        Compression::Lzma,
        Compression::Copy,
        Compression::Dz,
        Compression::Bzip,
        Compression::Zlib,
    ]
    .into_iter()
    .enumerate()
    {
        let path = format!("entry{k}");
        builder
            .add_bytes(
                path.as_bytes(),
                noise(200, k as u32 + 1),
                EntryOptions::new()
                    .compression(compression)
                    .volume(k as u16 % 2),
            )
            .unwrap();
    }
    let mut first = MemoryVolumeSink::new();
    let mut second = MemoryVolumeSink::new();
    let report = builder.write_to_sink(&mut first).unwrap();
    assert_eq!(builder.write_to_sink(&mut second).unwrap(), report);
    let volumes = first.into_volumes();
    assert_eq!(volumes, second.into_volumes());
    let archive =
        Archive::open_with_volumes(volumes[0].clone(), vec![Some(volumes[1].clone())]).unwrap();
    let offsets: Vec<(u16, u32)> = archive
        .index()
        .stored_chunks()
        .iter()
        .map(|chunk| (chunk.file, chunk.offset))
        .collect();
    assert!(offsets.iter().any(|place| *place == (0, 512)));
    assert!(offsets.iter().any(|place| *place == (1, 0)));
}

fn two_volumes(second: EntryOptions, bytes: Vec<u8>) -> MemoryVolumeSink {
    let mut options = PackOptions::default();
    options.volume_names = names(&["main.dz", "second.dz"]);
    let mut builder = ArchiveBuilder::with_options(options);
    builder
        .add_bytes(b"here", b"here".to_vec(), EntryOptions::new())
        .unwrap();
    builder
        .add_bytes(b"there", bytes, second.volume(1))
        .unwrap();
    let mut sink = MemoryVolumeSink::new();
    builder.write_to_sink(&mut sink).unwrap();
    sink
}

#[test]
fn volumes_are_resolved_when_they_are_needed() {
    let sink = two_volumes(
        EntryOptions::new().compression(Compression::Zlib),
        b"there there there".to_vec(),
    );
    let mut archive = open(sink, ReadOptions::default()).unwrap();
    assert_eq!(archive.volumes_needed(EntryId(0)), vec![0]);
    assert_eq!(archive.volumes_needed(EntryId(1)), vec![1]);
    assert_eq!(archive.volumes_needed(EntryId(2)), Vec::<u16>::new());
    assert_eq!(archive.read_entry(EntryId(0)).unwrap(), b"here");
    assert!(!archive.is_volume_resolved(1));
    assert_eq!(archive.read_entry(EntryId(1)).unwrap(), b"there there there");
    assert!(archive.is_volume_resolved(1));
    assert!(archive.resolve_volume_layout(1, None).is_ok());
}

#[test]
fn limits_of_other_volumes_count_once_they_are_resolved() {
    let sink = two_volumes(EntryOptions::new(), vec![7; 40]);
    let options = ReadOptions {
        limits: ReadLimits {
            max_chunk_input_size: 40,
            ..ReadLimits::unlimited()
        },
    };
    assert!(open(sink, options).is_ok());

    let sink = two_volumes(
        EntryOptions::new().compression(Compression::Zlib),
        vec![7; 4],
    );
    let length = sink.volume(1).unwrap().len() as u64;
    assert!(length > 4);
    let options = ReadOptions {
        limits: ReadLimits {
            max_chunk_input_size: 4,
            ..ReadLimits::unlimited()
        },
    };
    let mut archive = open(sink, options).unwrap();
    assert!(!archive.is_volume_resolved(1));
    match archive.resolve_volume(1) {
        Err(DzipError::LimitExceeded {
            resource,
            limit,
            actual,
        }) => assert_eq!((resource, limit, actual), ("compressed chunk size", 4, length)),
        other => panic!("{other:?}"),
    }
    assert!(!archive.is_volume_resolved(1));
    assert!(archive.resolve_all_volumes().is_err());
    assert_eq!(archive.read_entry(EntryId(0)).unwrap(), b"here");
}

#[test]
fn a_volume_may_come_later() {
    let sink = two_volumes(EntryOptions::new(), b"there".to_vec());
    let main = sink.volume(0).unwrap().to_vec();
    let second = sink.volume(1).unwrap().to_vec();
    let mut archive = Archive::open_with_volumes(main, vec![None]).unwrap();
    assert!(matches!(
        archive.read_entry(EntryId(1)),
        Err(DzipError::VolumeNotFound(1))
    ));
    assert!(archive.volume_source()[0].is_none());
    archive.volume_source_mut()[0] = Some(second);
    assert_eq!(archive.read_entry(EntryId(1)).unwrap(), b"there");
}

#[test]
fn zeros_on_a_missing_volume_are_not_found() {
    let sink = two_volumes(
        EntryOptions::new().compression(Compression::Zero),
        vec![0; 9],
    );
    let main = sink.volume(0).unwrap().to_vec();
    let mut archive = Archive::open_with_volumes(main, Vec::new()).unwrap();
    assert!(matches!(
        archive.read_entry_by_path(b"there"),
        Err(DzipError::VolumeNotFound(1))
    ));
}

#[test]
fn what_was_read_before_a_failure_stays() {
    let mut builder = ArchiveBuilder::new();
    builder
        .add_bytes(b"one", b"first".to_vec(), EntryOptions::new())
        .unwrap();
    builder
        .add_bytes(
            b"one",
            noise(50, 5),
            EntryOptions::new().compression(Compression::Zlib),
        )
        .unwrap();
    let (_, mut volume) = builder.write_to().unwrap();
    let last = volume.len() - 1;
    volume[last] ^= 1;
    let mut archive = Archive::open_with_volumes(volume, Vec::new()).unwrap();
    let mut output = b"held ".to_vec();
    assert!(archive.read_entry_to(EntryId(0), &mut output).is_err());
    assert_eq!(output, b"held first");
}

#[test]
fn volume_names_are_utf8() {
    let mut builder = ArchiveBuilder::new();
    builder.options_mut().volume_names = vec![b"a.dz".to_vec(), vec![0xff]];
    match builder.write_to_sink(&mut MemoryVolumeSink::new()) {
        Err(DzipError::Utf8(failure)) => {
            assert_eq!(failure.as_bytes(), [0xff]);
            assert_eq!(failure.valid_up_to(), 0);
            assert_eq!(failure.error_len(), Some(1));
        }
        other => panic!("{other:?}"),
    }
    builder.options_mut().volume_names = names(&["a.dz", "X.dz"]);
    let mut sink = MemoryVolumeSink::new();
    builder.write_to_sink(&mut sink).unwrap();
    let mut main = sink.volume(0).unwrap().to_vec();
    let place = main.iter().position(|byte| *byte == b'X').unwrap();
    main[place] = 0xff;
    match Archive::open_with_volumes(main, Vec::new()) {
        Err(DzipError::Utf8(failure)) => {
            assert_eq!(failure.as_bytes(), b"\xff.dz");
            assert_eq!(
                failure.message(),
                "invalid utf-8 sequence of 1 bytes from index 0"
            );
        }
        _ => panic!("the name of a volume is not UTF-8"),
    }
}

#[test]
fn utf8_failures_say_what_the_standard_library_says() {
    for bytes in [
        b"\xff".to_vec(),
        b"abc\xc3".to_vec(),
        b"\xe2\x82".to_vec(),
        b"a\xe2\x28\xa1".to_vec(),
        b"\xc3\xa4\xf0\x9f\x98".to_vec(),
        b"\xc3\xa4\xf0\x9f\x98z".to_vec(),
        b"\xed\xa0\x80".to_vec(),
        b"\xc0\x80".to_vec(),
    ] {
        let expected = String::from_utf8(bytes.clone()).unwrap_err();
        match ensure_utf8(&bytes) {
            Err(DzipError::Utf8(failure)) => {
                assert_eq!(failure.as_bytes(), expected.as_bytes());
                assert_eq!(
                    failure.valid_up_to(),
                    expected.utf8_error().valid_up_to()
                );
                assert_eq!(failure.error_len(), expected.utf8_error().error_len());
                assert_eq!(failure.message(), expected.to_string());
                assert_eq!(
                    DzipError::Utf8(failure).message(),
                    format!("UTF-8 error: {expected}")
                );
            }
            other => panic!("{other:?}"),
        }
        assert!(!is_utf8(&bytes));
    }
    assert!(ensure_utf8("Gr\u{fc}\u{df}e".as_bytes()).is_ok());
    assert!(is_utf8(b""));
}

#[test]
fn io_failures_keep_their_kind() {
    let mut builder = ArchiveBuilder::new();
    match builder.add_bytes(b"", Vec::new(), EntryOptions::new()) {
        Err(DzipError::Io(error)) => assert_eq!(error.kind, IoErrorKind::InvalidInput),
        _ => panic!("an entry has a path"),
    }
    match Archive::open_with_volumes(b"DTRZ".to_vec(), Vec::new()) {
        Err(DzipError::Io(error)) => {
            assert_eq!(error.kind, IoErrorKind::UnexpectedEof);
            assert_eq!(error.message, "failed to fill whole buffer");
        }
        _ => panic!("the metadata are cut off"),
    }
}

#[test]
fn a_failure_leaves_the_sink_as_far_as_it_was_written() {
    let mut sink = MemoryVolumeSink::new();
    let mut builder = ArchiveBuilder::new();
    builder
        .add_bytes(b"a", b"some bytes".to_vec(), EntryOptions::new())
        .unwrap();
    builder.write_to_sink(&mut sink).unwrap();
    let before = sink.volume(0).unwrap().to_vec();
    builder.options_mut().volume_names = vec![Vec::new()];
    assert!(builder.write_to_sink(&mut sink).is_err());
    assert_eq!(sink.volume(0), Some(before.as_slice()));
    assert_eq!(sink.name(0), Some(b"archive.dz".as_slice()));

    builder.options_mut().volume_names = names(&["other.dz"]);
    builder
        .add_bytes(
            b"b",
            b"more".to_vec(),
            EntryOptions::new().compression(Compression::Dz),
        )
        .unwrap();
    builder.options_mut().dz.max_mem_usage = 0;
    assert!(matches!(
        builder.write_to_sink(&mut sink),
        Err(DzipError::Codec(_))
    ));
    assert_eq!(sink.volume(0), Some(b"".as_slice()));
    assert_eq!(sink.name(0), Some(b"other.dz".as_slice()));
}
