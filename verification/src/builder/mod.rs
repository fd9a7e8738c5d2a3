//! Creation of archives.

pub mod layout;
pub mod laws;
pub mod names;
pub mod pages;
pub mod plan;
pub mod roundtrip;
pub mod writing;

pub use writing::BuildReport;

use vstd::prelude::*;
use vstd::string::*;
use vstd::utf8::valid_utf8;

use crate::builder::pages::{answered, archive_outcome};
use crate::builder::plan::{chosen, effective_compression, split_path, BuilderEntry};
use crate::builder::roundtrip::{
    lemma_begun, lemma_entry_path, lemma_outcome_begun, lemma_reads_back, plain_form, readable,
    reads_back,
};
use crate::builder::writing::{copy_names, preparable, write_prepared};
use crate::error::{invalid_archive, invalid_input, refused, DzipError, Trouble};
use crate::format::names_of;
use crate::metadata::plain_name;
use crate::options::{usual_settings, EntryOptions, PackOptions};
use crate::path::{
    ensure_utf8, is_utf8, lossy_text, parts_of, path_components, plain_path, resolve_relative_path,
    text_of, unsafe_path, utf8_detail,
};

verus! {

/// A zero stands in the name.
pub open spec fn has_zero(name: Seq<u8>) -> bool {
    exists|i: int| 0 <= i < name.len() && #[trigger] name[i] == 0
}

fn holds_zero(name: &[u8]) -> (zero: bool)
    ensures
        zero == has_zero(name@),
{
    let mut i: usize = 0;
    while i < name.len()
        invariant
            i <= name@.len(),
            forall|k: int| 0 <= k < i ==> #[trigger] name@[k] != 0,
        decreases name@.len() - i,
    {
        if name[i] == 0 {
            return true;
        }
        i += 1;
    }
    false
}

/// The path that an entry gets, or why it is refused.
pub open spec fn entry_path(path: Seq<u8>) -> Result<Seq<u8>, Trouble> {
    if path.len() == 0 {
        Err(refused("archive path must not be empty"@))
    } else if !valid_utf8(path) {
        Err(refused("archive path is not UTF-8: "@ + lossy_text(path)))
    } else if has_zero(path) {
        Err(refused("archive path contains an embedded nul byte"@))
    } else {
        match plain_path(path) {
            None => Err(unsafe_path()),
            Some(plain) => if plain.len() == 0 {
                Err(refused("archive path must not resolve to the root directory"@))
            } else if split_path(plain) is None {
                Err(unsafe_path())
            } else {
                Ok(plain)
            },
        }
    }
}

fn validate_archive_path(path: &[u8]) -> (result: Result<Vec<u8>, DzipError>)
    ensures
        match entry_path(path@) {
            Ok(plain) => result matches Ok(got) && got@ == plain && split_path(plain) is Some,
            Err(trouble) => result matches Err(error) && error@ == trouble,
        },
{
    if path.len() == 0 {
        return Err(invalid_input("archive path must not be empty"));
    }
    if !is_utf8(path) {
        let mut text = "archive path is not UTF-8: ".to_owned();
        let shown = text_of(path);
        text.append(shown.as_str());
        return Err(invalid_input(text.as_str()));
    }
    if holds_zero(path) {
        return Err(invalid_input("archive path contains an embedded nul byte"));
    }
    let plain = match resolve_relative_path(path) {
        Ok(plain) => plain,
        Err(error) => return Err(error),
    };
    if plain.len() == 0 {
        return Err(invalid_input("archive path must not resolve to the root directory"));
    }
    match path_components(plain.as_slice()) {
        Some(list) => {
            assert(parts_of(list@).len() == list@.len());
            if list.len() == 0 {
                return Err(invalid_archive("path leaves the archive root"));
            }
        },
        None => return Err(invalid_archive("path leaves the archive root")),
    }
    Ok(plain)
}

/// What is wrong with the name of a volume.
pub open spec fn volume_name_trouble(name: Seq<u8>) -> Option<Trouble> {
    if name.len() == 0 {
        Some(refused("archive volume name must not be empty"@))
    } else if !valid_utf8(name) {
        Some(Trouble::Utf8(utf8_detail(name)))
    } else if has_zero(name) {
        Some(refused("archive volume name contains an embedded nul byte"@))
    } else if plain_path(name) is None {
        Some(unsafe_path())
    } else {
        None
    }
}

fn validate_volume_name(name: &[u8]) -> (result: Result<(), DzipError>)
    ensures
        match volume_name_trouble(name@) {
            None => result is Ok,
            Some(trouble) => result matches Err(error) && error@ == trouble,
        },
{
    if name.len() == 0 {
        return Err(invalid_input("archive volume name must not be empty"));
    }
    match ensure_utf8(name) {
        Ok(()) => {},
        Err(error) => return Err(error),
    }
    if holds_zero(name) {
        return Err(invalid_input("archive volume name contains an embedded nul byte"));
    }
    match resolve_relative_path(name) {
        Ok(_) => Ok(()),
        Err(error) => Err(error),
    }
}

/// The first trouble with the volume names from number `i` on.
pub open spec fn names_trouble(names: Seq<Seq<u8>>, i: int) -> Option<Trouble>
    decreases names.len() - i,
{
    if i >= names.len() {
        None
    } else if volume_name_trouble(names[i]) is Some {
        volume_name_trouble(names[i])
    } else {
        names_trouble(names, i + 1)
    }
}

/// The first trouble with the entries from number `i` on.
pub open spec fn entries_trouble(entries: Seq<BuilderEntry>, volumes: nat, i: int) -> Option<
    Trouble,
>
    decreases entries.len() - i,
{
    if i >= entries.len() {
        None
    } else if entries[i].options.volume >= volumes {
        Some(Trouble::VolumeNotFound(entries[i].options.volume))
    } else if chosen(entries[i].options) is None {
        Some(Trouble::UnsupportedCompression(entries[i].options.raw_flags->Some_0))
    } else {
        entries_trouble(entries, volumes, i + 1)
    }
}

/// What stands in the way of an archive before anything is written.
pub open spec fn prepare_trouble(entries: Seq<BuilderEntry>, names: Seq<Seq<u8>>) -> Option<Trouble> {
    if names.len() == 0 {
        Some(refused("at least one output volume is required"@))
    } else if names.len() > 0xffff {
        Some(refused("more than 65535 output volumes"@))
    } else if names_trouble(names, 0) is Some {
        names_trouble(names, 0)
    } else {
        entries_trouble(entries, names.len(), 0)
    }
}

/// Every entry has a proper path.
pub open spec fn proper_entries(entries: Seq<BuilderEntry>) -> bool {
    forall|k: int| 0 <= k < entries.len() ==> proper_path((#[trigger] entries[k]).archive_path@)
}

/// The path has a file name, is in its plain form, holds no zero and is UTF-8.
pub open spec fn proper_path(path: Seq<u8>) -> bool {
    &&& split_path(path) is Some
    &&& plain_form(path)
    &&& plain_name(path)
    &&& valid_utf8(path)
}

/// Volumes in memory.
#[derive(Debug)]
pub struct MemoryVolumeSink {
    volumes: Vec<Vec<u8>>,
    names: Vec<Vec<u8>>,
}

impl MemoryVolumeSink {
    pub closed spec fn contents(&self) -> Seq<Seq<u8>> {
        names_of(self.volumes@)
    }

    pub closed spec fn labels(&self) -> Seq<Seq<u8>> {
        names_of(self.names@)
    }

    /// A sink that holds nothing.
    pub fn new() -> (sink: MemoryVolumeSink)
        ensures
            sink.contents() == Seq::<Seq<u8>>::empty(),
            sink.labels() == Seq::<Seq<u8>>::empty(),
    {
        let sink = MemoryVolumeSink { volumes: Vec::new(), names: Vec::new() };
        assert(sink.contents() =~= Seq::empty());
        assert(sink.labels() =~= Seq::empty());
        sink
    }

    pub fn volume(&self, id: u16) -> (volume: Option<&[u8]>)
        ensures
            match volume {
                Some(bytes) => id < self.contents().len() && bytes@ == self.contents()[id as int],
                None => id >= self.contents().len(),
            },
    {
        if (id as usize) < self.volumes.len() {
            Some(self.volumes[id as usize].as_slice())
        } else {
            None
        }
    }

    pub fn name(&self, id: u16) -> (name: Option<&[u8]>)
        ensures
            match name {
                Some(bytes) => id < self.labels().len() && bytes@ == self.labels()[id as int],
                None => id >= self.labels().len(),
            },
    {
        if (id as usize) < self.names.len() {
            Some(self.names[id as usize].as_slice())
        } else {
            None
        }
    }

    pub fn into_volumes(self) -> (volumes: Vec<Vec<u8>>)
        ensures
            names_of(volumes@) == self.contents(),
    {
        self.volumes
    }
}

/// The same options, to be changed.
fn lent(options: &mut PackOptions) -> (same: &mut PackOptions)
    ensures
        *same == *old(options),
        *final(options) == *final(same),
    no_unwind
{
    options
}

/// Collects entries and writes archives of them.
#[derive(Debug)]
pub struct ArchiveBuilder {
    options: PackOptions,
    entries: Vec<BuilderEntry>,
}

impl Default for ArchiveBuilder {
    fn default() -> (builder: ArchiveBuilder)
        ensures
            builder.list() == Seq::<BuilderEntry>::empty(),
            usual_settings(builder.settings()),
    {
        ArchiveBuilder::new()
    }
}

impl ArchiveBuilder {
    pub closed spec fn list(&self) -> Seq<BuilderEntry> {
        self.entries@
    }

    pub closed spec fn settings(&self) -> PackOptions {
        self.options
    }

    #[verifier::type_invariant]
    spec fn sound(self) -> bool {
        proper_entries(self.entries@)
    }

    pub fn new() -> (builder: ArchiveBuilder)
        ensures
            builder.list() == Seq::<BuilderEntry>::empty(),
            usual_settings(builder.settings()),
    {
        ArchiveBuilder::with_options(PackOptions::default())
    }

    pub fn with_options(options: PackOptions) -> (builder: ArchiveBuilder)
        ensures
            builder.list() == Seq::<BuilderEntry>::empty(),
            builder.settings() == options,
    {
        let entries: Vec<BuilderEntry> = Vec::new();
        assert(entries@ =~= Seq::<BuilderEntry>::empty());
        ArchiveBuilder { options, entries }
    }

    pub fn options(&self) -> (options: &PackOptions)
        ensures
            *options == self.settings(),
    {
        &self.options
    }

    /// The options, to be changed.
    pub fn options_mut(&mut self) -> (options: &mut PackOptions)
        ensures
            *options == old(self).settings(),
            final(self).settings() == *final(options),
            final(self).list() == old(self).list(),
    {
        proof {
            use_type_invariant(&*self);
        }
        lent(&mut self.options)
    }

    /// Adds an entry.
    pub fn add_bytes(&mut self, archive_path: &[u8], bytes: Vec<u8>, options: EntryOptions) -> (result:
        Result<(), DzipError>)
        ensures
            final(self).settings() == old(self).settings(),
            match entry_path(archive_path@) {
                Ok(plain) => {
                    &&& result is Ok
                    &&& final(self).list().len() == old(self).list().len() + 1
                    &&& final(self).list().drop_last() == old(self).list()
                    &&& final(self).list().last().archive_path@ == plain
                    &&& final(self).list().last().bytes == bytes
                    &&& final(self).list().last().options == options
                },
                Err(trouble) => {
                    &&& result matches Err(error) && error@ == trouble
                    &&& final(self).list() == old(self).list()
                },
            },
    {
        proof {
            use_type_invariant(&*self);
        }
        let ghost given = archive_path@;
        let archive_path = match validate_archive_path(archive_path) {
            Ok(path) => path,
            Err(error) => return Err(error),
        };
        let entry = BuilderEntry { archive_path, bytes, options };
        let ghost before = self.entries@;
        let mut taken = ArchiveBuilder { options: PackOptions::default(), entries: Vec::new() };
        core::mem::swap(self, &mut taken);
        let ArchiveBuilder { options: kept, mut entries } = taken;
        entries.push(entry);
        assert(entries@.drop_last() =~= before);
        proof {
            lemma_entry_path(given);
            assert forall|k: int| 0 <= k < entries@.len() implies proper_path(
                (#[trigger] entries@[k]).archive_path@,
            ) by {
                if k < before.len() {
                    assert(entries@[k] == before[k]);
                }
            }
        }
        *self = ArchiveBuilder { options: kept, entries };
        Ok(())
    }

    /// Checks everything that can be known before writing.
    fn prepare(&self) -> (result: Result<(), DzipError>)
        ensures
            match prepare_trouble(self.list(), names_of(self.settings().volume_names@)) {
                None => result is Ok && preparable(
                    self.list(),
                    self.settings().volume_names@.len(),
                ) && 1 <= self.settings().volume_names@.len() <= 0xffff,
                Some(trouble) => result matches Err(error) && error@ == trouble,
            },
    {
        proof {
            use_type_invariant(self);
        }
        let ghost names = names_of(self.options.volume_names@);
        let count: usize = self.options.volume_names.len();
        assert(names.len() == count);
        if count == 0 {
            return Err(invalid_input("at least one output volume is required"));
        }
        if count > 0xffff {
            return Err(invalid_input("more than 65535 output volumes"));
        }
        let mut i: usize = 0;
        while i < count
            invariant
                i <= count,
                count == self.options.volume_names@.len(),
                names == names_of(self.options.volume_names@),
                1 <= count <= 0xffff,
                names_trouble(names, 0) == names_trouble(names, i as int),
            decreases count - i,
        {
            assert(names[i as int] == self.options.volume_names@[i as int]@);
            match validate_volume_name(self.options.volume_names[i].as_slice()) {
                Ok(()) => {},
                Err(error) => return Err(error),
            }
            i += 1;
        }
        let mut k: usize = 0;
        while k < self.entries.len()
            invariant
                k <= self.entries@.len(),
                count == self.options.volume_names@.len(),
                names == names_of(self.options.volume_names@),
                1 <= count <= 0xffff,
                names.len() == count,
                names_trouble(names, 0) is None,
                proper_entries(self.entries@),
                entries_trouble(self.entries@, names.len(), 0) == entries_trouble(
                    self.entries@,
                    names.len(),
                    k as int,
                ),
                forall|j: int|
                    0 <= j < k ==> {
                        &&& chosen((#[trigger] self.entries@[j]).options) is Some
                        &&& self.entries@[j].options.volume < count
                    },
            decreases self.entries@.len() - k,
        {
            let options = self.entries[k].options;
            if options.volume as usize >= count {
                return Err(DzipError::VolumeNotFound(options.volume));
            }
            match effective_compression(options) {
                Ok(_) => {},
                Err(error) => return Err(error),
            }
            k += 1;
        }
        Ok(())
    }

    /// Writes the archive into memory. A failure before the volumes are begun leaves the sink as
    /// it is; a later one leaves what was written so far.
    pub fn write_to_sink(&self, sink: &mut MemoryVolumeSink) -> (result: Result<
        BuildReport,
        DzipError,
    >)
        ensures
            ({
                let outcome = archive_outcome(self.list(), self.settings());
                &&& answered(outcome, result)
                &&& if outcome.begun {
                    &&& final(sink).contents() == outcome.volumes
                    &&& final(sink).labels() == names_of(self.settings().volume_names@)
                } else {
                    &&& final(sink).contents() == old(sink).contents()
                    &&& final(sink).labels() == old(sink).labels()
                }
            }),
            result is Ok && readable(self.list(), self.settings()) ==> reads_back(
                self.list(),
                final(sink).contents(),
            ),
    {
        let (volumes, result) = self.write_volumes();
        let volumes = match volumes {
            Some(volumes) => volumes,
            None => {
                proof {
                    lemma_begun(self.list(), self.settings());
                }
                return result;
            },
        };
        let names = copy_names(&self.options.volume_names, 0);
        let ghost all = names_of(self.options.volume_names@);
        assert(all.skip(0) =~= all);
        *sink = MemoryVolumeSink { volumes, names };
        result
    }

    /// Writes the archive. Without volumes, nothing was begun.
    fn write_volumes(&self) -> (written: (Option<Vec<Vec<u8>>>, Result<BuildReport, DzipError>))
        ensures
            ({
                let outcome = archive_outcome(self.list(), self.settings());
                &&& answered(outcome, written.1)
                &&& match written.0 {
                    Some(volumes) => outcome.begun && names_of(volumes@) == outcome.volumes,
                    None => !outcome.begun,
                }
            }),
            written.1 is Ok && readable(self.list(), self.settings()) ==> reads_back(
                self.list(),
                archive_outcome(self.list(), self.settings()).volumes,
            ),
    {
        match self.prepare() {
            Ok(()) => {},
            Err(error) => return (None, Err(error)),
        }
        let written = write_prepared(&self.entries, &self.options);
        proof {
            use_type_invariant(self);
            let outcome = archive_outcome(self.list(), self.settings());
            lemma_outcome_begun(self.list(), self.settings());
            if written.1 is Ok && readable(self.list(), self.settings()) {
                lemma_begun(self.list(), self.settings());
                assert(outcome.volumes[0].len() == written.0->Some_0@[0].len());
                lemma_reads_back(self.list(), self.settings());
            }
        }
        written
    }

    /// Writes an archive of one volume.
    pub fn write_to(&self) -> (result: Result<(BuildReport, Vec<u8>), DzipError>)
        ensures
            if names_of(self.settings().volume_names@).len() != 1 || exists|k: int|
                0 <= k < self.list().len() && (#[trigger] self.list()[k]).options.volume != 0 {
                result matches Err(error) && error@ == refused(
                    "write_to supports one volume; use write_to_sink for split archives"@,
                )
            } else {
                let outcome = archive_outcome(self.list(), self.settings());
                match outcome.result {
                    Ok(report) => result matches Ok((got, volume)) && got == report
                        && outcome.volumes == seq![volume@],
                    Err(trouble) => result matches Err(error) && error@ == trouble,
                }
            },
            result matches Ok((_, volume)) ==> readable(self.list(), self.settings())
                ==> reads_back(self.list(), seq![volume@]),
    {
        let text = "write_to supports one volume; use write_to_sink for split archives";
        assert(names_of(self.settings().volume_names@).len() == self.options.volume_names@.len());
        if self.options.volume_names.len() != 1 {
            return Err(invalid_input(text));
        }
        let mut k: usize = 0;
        while k < self.entries.len()
            invariant
                k <= self.entries@.len(),
                text@ == "write_to supports one volume; use write_to_sink for split archives"@,
                forall|j: int| 0 <= j < k ==> (#[trigger] self.entries@[j]).options.volume == 0,
            decreases self.entries@.len() - k,
        {
            if self.entries[k].options.volume != 0 {
                assert(self.list()[k as int].options.volume != 0);
                return Err(invalid_input(text));
            }
            k += 1;
        }
        assert(forall|j: int|
            0 <= j < self.list().len() ==> (#[trigger] self.list()[j]).options.volume == 0);
        let mut sink = MemoryVolumeSink::new();
        let report = match self.write_to_sink(&mut sink) {
            Ok(report) => report,
            Err(error) => return Err(error),
        };
        let ghost all = sink.contents();
        proof {
            lemma_begun(self.list(), self.settings());
        }
        let mut volumes = sink.into_volumes();
        assert(all.len() == volumes@.len());
        let mut volume: Vec<u8> = Vec::new();
        match volumes.pop() {
            Some(first) => {
                volume = first;
            },
            None => {},
        }
        assert(all =~= seq![volume@]);
        Ok((report, volume))
    }
}

} // verus!
