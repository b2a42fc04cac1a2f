//! What is done with each entry of a staging directory, and how a file is
//! brought over into the destination.

use crate::names::{is_archive, is_archive_name};
use vstd::prelude::*;

verus! {

/// What kind of thing an entry of a directory is.
#[derive(Debug, Clone, Copy, PartialEq, Eq, Structural)]
pub enum EntryKind {
    /// A regular file.
    File,
    /// Anything that is not a regular file.
    Directory,
}

/// One immediate entry of a directory: its file name and its kind.
#[derive(Debug, Clone, PartialEq, Eq)]
pub struct Entry {
    pub name: String,
    pub kind: EntryKind,
}

/// What an `Entry` stands for.
pub struct EntryModel {
    pub name: Seq<char>,
    pub kind: EntryKind,
}

impl View for Entry {
    type V = EntryModel;

    open spec fn view(&self) -> EntryModel {
        EntryModel { name: self.name@, kind: self.kind }
    }
}

impl DeepView for Entry {
    type V = EntryModel;

    open spec fn deep_view(&self) -> EntryModel {
        self@
    }
}

/// What the merge does with an entry of a staging directory.
#[derive(Debug, Clone, Copy, PartialEq, Eq, Structural)]
pub enum Disposition {
    /// A file that is itself an archive: it is unpacked into a staging
    /// directory of its own, which is merged into the same destination.
    Unpack,
    /// Any other file: it is brought over into the destination.
    Relocate,
    /// Not a regular file: it is left where it is.
    Skip,
}

/// The disposition of an entry: by its kind first, then by its name.
pub open spec fn disposition(entry: EntryModel) -> Disposition {
    match entry.kind {
        EntryKind::Directory => Disposition::Skip,
        EntryKind::File => if is_archive(entry.name) {
            Disposition::Unpack
        } else {
            Disposition::Relocate
        },
    }
}

/// Decides what the merge does with `entry`.
pub fn classify(entry: &Entry) -> (decision: Disposition)
    ensures
        decision == disposition(entry@),
{
    match entry.kind {
        EntryKind::Directory => Disposition::Skip,
        EntryKind::File => if is_archive_name(entry.name.as_str()) {
            Disposition::Unpack
        } else {
            Disposition::Relocate
        },
    }
}

/// The step of bringing a file over that could not be done.
#[derive(Debug, Clone, Copy, PartialEq, Eq, Structural)]
pub enum FileFault {
    /// The file could be neither renamed nor copied into the destination.
    Copy,
    /// The file was copied, but the file in staging could not be deleted.
    Delete,
}

/// How the merge of one entry ended.
#[derive(Debug, Clone, Copy, PartialEq, Eq, Structural)]
pub enum MergeOutcome {
    /// The file was renamed into the destination.
    Moved,
    /// The file was copied into the destination and then deleted in staging.
    Copied,
    /// The file was not brought over completely.
    Failed(FileFault),
    /// The entry is not a regular file and was left where it was.
    Skipped,
}

/// One attempt within the bringing over of a file.
#[derive(Debug, Clone, Copy, PartialEq, Eq, Structural)]
pub enum MoveStage {
    /// Rename the file to its target.
    Rename,
    /// Copy the file to its target.
    Copy,
    /// Delete the file that was copied.
    Delete,
}

/// What follows an attempt: another attempt, or the end.
#[derive(Debug, Clone, Copy, PartialEq, Eq, Structural)]
pub enum MoveNext {
    Try(MoveStage),
    Finish(MergeOutcome),
}

/// What follows the attempt `stage`, given whether it went well. A file is
/// renamed; if that fails it is copied and then deleted in staging. A failed
/// copy or a failed deletion ends the attempt at this file.
pub open spec fn move_next(stage: MoveStage, ok: bool) -> MoveNext {
    match stage {
        MoveStage::Rename => if ok {
            MoveNext::Finish(MergeOutcome::Moved)
        } else {
            MoveNext::Try(MoveStage::Copy)
        },
        MoveStage::Copy => if ok {
            MoveNext::Try(MoveStage::Delete)
        } else {
            MoveNext::Finish(MergeOutcome::Failed(FileFault::Copy))
        },
        MoveStage::Delete => if ok {
            MoveNext::Finish(MergeOutcome::Copied)
        } else {
            MoveNext::Finish(MergeOutcome::Failed(FileFault::Delete))
        },
    }
}

/// Decides what follows the attempt `stage`.
pub fn after_attempt(stage: MoveStage, ok: bool) -> (next: MoveNext)
    ensures
        next == move_next(stage, ok),
{
    match stage {
        MoveStage::Rename => if ok {
            MoveNext::Finish(MergeOutcome::Moved)
        } else {
            MoveNext::Try(MoveStage::Copy)
        },
        MoveStage::Copy => if ok {
            MoveNext::Try(MoveStage::Delete)
        } else {
            MoveNext::Finish(MergeOutcome::Failed(FileFault::Copy))
        },
        MoveStage::Delete => if ok {
            MoveNext::Finish(MergeOutcome::Copied)
        } else {
            MoveNext::Finish(MergeOutcome::Failed(FileFault::Delete))
        },
    }
}

/// How the bringing over of a file ends, given how each of the three
/// attempts would go if it were made.
pub open spec fn move_result(rename_ok: bool, copy_ok: bool, delete_ok: bool) -> MergeOutcome {
    if rename_ok {
        MergeOutcome::Moved
    } else if !copy_ok {
        MergeOutcome::Failed(FileFault::Copy)
    } else if !delete_ok {
        MergeOutcome::Failed(FileFault::Delete)
    } else {
        MergeOutcome::Copied
    }
}

/// How many attempts can still follow the attempt `stage`.
pub open spec fn attempts_left(stage: MoveStage) -> nat {
    match stage {
        MoveStage::Rename => 2,
        MoveStage::Copy => 1,
        MoveStage::Delete => 0,
    }
}

/// Where the attempts end when they start at `stage` and each goes as
/// given, or `None` if they would not end.
pub open spec fn move_outcome(
    stage: MoveStage,
    rename_ok: bool,
    copy_ok: bool,
    delete_ok: bool,
) -> Option<MergeOutcome>
    decreases attempts_left(stage),
{
    let ok = match stage {
        MoveStage::Rename => rename_ok,
        MoveStage::Copy => copy_ok,
        MoveStage::Delete => delete_ok,
    };
    match move_next(stage, ok) {
        MoveNext::Finish(outcome) => Some(outcome),
        MoveNext::Try(then) => if attempts_left(then) < attempts_left(stage) {
            move_outcome(then, rename_ok, copy_ok, delete_ok)
        } else {
            None
        },
    }
}

/// Starting from the rename, the attempts always end, and they end as
/// `move_result` says: a failed rename alone loses nothing, and a file
/// counts as brought over only if it was renamed, or copied and then
/// deleted.
pub proof fn lemma_fallback(rename_ok: bool, copy_ok: bool, delete_ok: bool)
    ensures
        move_outcome(MoveStage::Rename, rename_ok, copy_ok, delete_ok) == Some(
            move_result(rename_ok, copy_ok, delete_ok),
        ),
        move_result(rename_ok, copy_ok, delete_ok) != MergeOutcome::Skipped,
        move_result(rename_ok, copy_ok, delete_ok) == MergeOutcome::Moved <==> rename_ok,
        move_result(rename_ok, copy_ok, delete_ok) == MergeOutcome::Copied <==> !rename_ok
            && copy_ok && delete_ok,
{
    reveal_with_fuel(move_outcome, 3);
}

} // verus!
