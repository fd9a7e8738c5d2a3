//! What extraction decides before it touches a file system.

use vstd::prelude::*;

use crate::error::{invalid_archive, DzipError, Trouble};
use crate::path::{
    all_proper, components, lemma_components_proper, parts_of, path_components, unsafe_path,
};

verus! {

/// How entries are extracted.
#[derive(Debug, Clone, Copy, PartialEq, Eq, Structural)]
pub struct ExtractOptions {
    pub overwrite: bool,
}

impl Default for ExtractOptions {
    fn default() -> (options: ExtractOptions)
        ensures
            options.overwrite,
    {
        ExtractOptions { overwrite: true }
    }
}

/// What was extracted.
#[derive(Debug, Clone, Copy, PartialEq, Eq, Structural)]
pub struct ExtractionReport {
    pub files: usize,
    pub bytes: u64,
}

impl Default for ExtractionReport {
    fn default() -> (report: ExtractionReport)
        ensures
            report == (ExtractionReport { files: 0, bytes: 0 }),
    {
        ExtractionReport { files: 0, bytes: 0 }
    }
}

impl ExtractionReport {
    /// The report after one more file.
    pub fn with_file(self, bytes: u64) -> (result: Result<ExtractionReport, DzipError>)
        ensures
            if self.files == usize::MAX || self.bytes + bytes > u64::MAX {
                result matches Err(error) && error@ == Trouble::InvalidArchive(
                    "extraction byte count overflow"@,
                )
            } else {
                result matches Ok(report) && report == (ExtractionReport {
                    files: (self.files + 1) as usize,
                    bytes: (self.bytes + bytes) as u64,
                })
            },
    {
        if self.files == usize::MAX || bytes > u64::MAX - self.bytes {
            return Err(invalid_archive("extraction byte count overflow"));
        }
        Ok(ExtractionReport { files: self.files + 1, bytes: self.bytes + bytes })
    }
}

/// The components below the output directory that an entry is extracted to. None of them leads
/// out of the directory.
pub fn target_components(path: &[u8]) -> (result: Result<Vec<Vec<u8>>, DzipError>)
    ensures
        match components(path@) {
            None => result matches Err(error) && error@ == unsafe_path(),
            Some(list) => if list.len() == 0 {
                result matches Err(error) && error@ == Trouble::InvalidArchive(
                    "archive entry has an empty path"@,
                )
            } else {
                result matches Ok(got) && parts_of(got@) == list && all_proper(list)
            },
        },
{
    proof {
        lemma_components_proper(path@);
    }
    match path_components(path) {
        None => Err(invalid_archive("path leaves the archive root")),
        Some(list) => {
            assert(parts_of(list@).len() == list@.len());
            if list.len() == 0 {
                Err(invalid_archive("archive entry has an empty path"))
            } else {
                Ok(list)
            }
        },
    }
}

/// What stands where a component of the target would go.
#[derive(Debug, Clone, Copy, PartialEq, Eq, Structural)]
pub enum Obstacle {
    Nothing,
    File,
    Directory,
    Link,
}

/// What to do about a directory on the way to the target.
#[derive(Debug, Clone, Copy, PartialEq, Eq, Structural)]
pub enum ParentAction {
    Enter,
    Create,
    Refuse,
}

/// A directory on the way is entered or made; nothing else is followed.
pub fn parent_action(found: Obstacle) -> (action: ParentAction)
    ensures
        action == (match found {
            Obstacle::Directory => ParentAction::Enter,
            Obstacle::Nothing => ParentAction::Create,
            _ => ParentAction::Refuse,
        }),
{
    match found {
        Obstacle::Directory => ParentAction::Enter,
        Obstacle::Nothing => ParentAction::Create,
        _ => ParentAction::Refuse,
    }
}

/// What to do about the target itself.
#[derive(Debug, Clone, Copy, PartialEq, Eq, Structural)]
pub enum TargetAction {
    Write,
    /// The file is there, and files are not overwritten.
    Exists,
    Refuse,
}

/// Links and directories are never written over, files only where that is asked for.
pub fn target_action(found: Obstacle, options: ExtractOptions) -> (action: TargetAction)
    ensures
        action == (match found {
            Obstacle::Link | Obstacle::Directory => TargetAction::Refuse,
            Obstacle::File => if options.overwrite {
                TargetAction::Write
            } else {
                TargetAction::Exists
            },
            Obstacle::Nothing => TargetAction::Write,
        }),
{
    match found {
        Obstacle::Link | Obstacle::Directory => TargetAction::Refuse,
        Obstacle::File => if options.overwrite {
            TargetAction::Write
        } else {
            TargetAction::Exists
        },
        Obstacle::Nothing => TargetAction::Write,
    }
}

} // verus!
