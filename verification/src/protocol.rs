//! What a pipeline asks of its caller, and what the caller answers.

use crate::merger::{Entry, EntryModel, MoveStage};
use crate::tool::{Invocation, InvocationModel, ToolOutput, ToolOutputModel};
use vstd::prelude::*;

verus! {

/// What a pipeline is waiting for.
#[derive(Debug, Clone, Copy, PartialEq, Eq, Structural)]
pub enum Phase {
    /// Whether the decompression tool is installed.
    Locating,
    /// The end of the tool's installation.
    Installing,
    /// The creation of a staging directory.
    Creating,
    /// The end of the decompression tool's run.
    Extracting,
    /// The listing of a staging directory.
    Listing,
    /// The acknowledgement that an entry was left where it is.
    Skipping,
    /// The result of one attempt to bring a file over.
    Moving(MoveStage),
    /// The removal of a staging directory.
    Releasing,
    /// Nothing: every archive was dealt with.
    Finished,
    /// Nothing: the decompression tool could not be had.
    Aborted,
}

/// What the caller is asked to do.
#[derive(Debug, Clone, PartialEq, Eq)]
pub enum Action {
    /// Find out whether `path` exists.
    Locate { path: String },
    /// Start `command`, wait for it to end, and capture what it writes.
    Run { command: Invocation },
    /// Create the directory `path`, which must not exist yet.
    CreateDir { path: String },
    /// List the immediate entries of the directory `path`.
    List { path: String },
    /// Leave `path` where it is; it is not a regular file.
    Skip { path: String },
    /// Rename the file `from` to `to`, replacing what `to` may hold.
    Rename { from: String, to: String },
    /// Copy the file `from` to `to`, replacing what `to` may hold.
    Copy { from: String, to: String },
    /// Delete the file `path`.
    Delete { path: String },
    /// Remove the directory `path` with all that it holds.
    RemoveTree { path: String },
    /// Nothing is left to do.
    Done,
    /// Give up: the decompression tool is missing and could not be
    /// installed.
    Abort,
}

/// What an `Action` stands for.
pub enum ActionModel {
    Locate { path: Seq<char> },
    Run { command: InvocationModel },
    CreateDir { path: Seq<char> },
    List { path: Seq<char> },
    Skip { path: Seq<char> },
    Rename { from: Seq<char>, to: Seq<char> },
    Copy { from: Seq<char>, to: Seq<char> },
    Delete { path: Seq<char> },
    RemoveTree { path: Seq<char> },
    Done,
    Abort,
}

impl View for Action {
    type V = ActionModel;

    open spec fn view(&self) -> ActionModel {
        match *self {
            Action::Locate { path } => ActionModel::Locate { path: path@ },
            Action::Run { command } => ActionModel::Run { command: command@ },
            Action::CreateDir { path } => ActionModel::CreateDir { path: path@ },
            Action::List { path } => ActionModel::List { path: path@ },
            Action::Skip { path } => ActionModel::Skip { path: path@ },
            Action::Rename { from, to } => ActionModel::Rename { from: from@, to: to@ },
            Action::Copy { from, to } => ActionModel::Copy { from: from@, to: to@ },
            Action::Delete { path } => ActionModel::Delete { path: path@ },
            Action::RemoveTree { path } => ActionModel::RemoveTree { path: path@ },
            Action::Done => ActionModel::Done,
            Action::Abort => ActionModel::Abort,
        }
    }
}

/// How the action that was asked for went.
#[derive(Debug, Clone, PartialEq, Eq)]
pub enum Reply {
    /// It was done; for `Locate`, the path exists.
    Succeeded,
    /// It could not be done; for `Locate`, the path does not exist.
    Failed,
    /// The process that `Run` started has ended.
    Exited(ToolOutput),
    /// The entries that `List` found, in the order of the listing.
    Listed(Vec<Entry>),
}

/// What a `Reply` stands for.
pub enum ReplyModel {
    Succeeded,
    Failed,
    Exited(ToolOutputModel),
    Listed(Seq<EntryModel>),
}

impl View for Reply {
    type V = ReplyModel;

    open spec fn view(&self) -> ReplyModel {
        match *self {
            Reply::Succeeded => ReplyModel::Succeeded,
            Reply::Failed => ReplyModel::Failed,
            Reply::Exited(output) => ReplyModel::Exited(output@),
            Reply::Listed(entries) => ReplyModel::Listed(entries.deep_view()),
        }
    }
}

} // verus!
