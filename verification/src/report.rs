//! The record that a run keeps of what became of each archive and of each
//! entry that an archive held.

use crate::merger::MergeOutcome;
use crate::tool::{ToolFailure, ToolFailureModel};
use vstd::prelude::*;

verus! {

/// Why the work on one archive was given up or did not end cleanly.
#[derive(Debug, Clone, PartialEq, Eq)]
pub enum ArchiveFault {
    /// The staging directory could not be created.
    DirectoryCreate,
    /// The decompression tool did not succeed.
    ToolExecution(ToolFailure),
    /// The staging directory could not be listed.
    DirectoryRead,
    /// The staging directory could not be removed.
    DirectoryRemove,
}

/// What an `ArchiveFault` stands for.
pub enum ArchiveFaultModel {
    DirectoryCreate,
    ToolExecution(ToolFailureModel),
    DirectoryRead,
    DirectoryRemove,
}

impl View for ArchiveFault {
    type V = ArchiveFaultModel;

    open spec fn view(&self) -> ArchiveFaultModel {
        match *self {
            ArchiveFault::DirectoryCreate => ArchiveFaultModel::DirectoryCreate,
            ArchiveFault::ToolExecution(failure) => ArchiveFaultModel::ToolExecution(failure@),
            ArchiveFault::DirectoryRead => ArchiveFaultModel::DirectoryRead,
            ArchiveFault::DirectoryRemove => ArchiveFaultModel::DirectoryRemove,
        }
    }
}

impl DeepView for ArchiveFault {
    type V = ArchiveFaultModel;

    open spec fn deep_view(&self) -> ArchiveFaultModel {
        self@
    }
}

/// How the work on one subject ended.
#[derive(Debug, Clone, PartialEq, Eq)]
pub enum Outcome {
    /// The subject is an entry of a staging directory; this is what the
    /// merge did with it.
    Merged(MergeOutcome),
    /// The subject is an archive; it was unpacked, every entry was dealt
    /// with, and its staging directory was removed.
    Unpacked,
    /// The subject is an archive; the work on it ran into this fault.
    Failed(ArchiveFault),
}

/// What an `Outcome` stands for.
pub enum OutcomeModel {
    Merged(MergeOutcome),
    Unpacked,
    Failed(ArchiveFaultModel),
}

impl View for Outcome {
    type V = OutcomeModel;

    open spec fn view(&self) -> OutcomeModel {
        match *self {
            Outcome::Merged(outcome) => OutcomeModel::Merged(outcome),
            Outcome::Unpacked => OutcomeModel::Unpacked,
            Outcome::Failed(fault) => OutcomeModel::Failed(fault@),
        }
    }
}

/// One line of the record: the path of an archive or of an entry of a
/// staging directory, and how the work on it ended.
#[derive(Debug, Clone, PartialEq, Eq)]
pub struct Record {
    pub subject: String,
    pub outcome: Outcome,
}

/// What a `Record` stands for.
pub struct RecordModel {
    pub subject: Seq<char>,
    pub outcome: OutcomeModel,
}

impl View for Record {
    type V = RecordModel;

    open spec fn view(&self) -> RecordModel {
        RecordModel { subject: self.subject@, outcome: self.outcome@ }
    }
}

impl DeepView for Record {
    type V = RecordModel;

    open spec fn deep_view(&self) -> RecordModel {
        self@
    }
}

} // verus!
