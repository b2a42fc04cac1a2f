//! The states of a pipeline and the steps between them.

use crate::discovery::ArchiveModel;
use crate::merger::{
    disposition, move_next, Disposition, EntryModel, MergeOutcome, MoveNext, MoveStage,
};
use crate::names::joined;
use crate::protocol::{ActionModel, Phase, ReplyModel};
use crate::report::{ArchiveFaultModel, OutcomeModel, RecordModel};
use crate::tool::{extraction, installation, succeeded, ToolFailureModel, ToolOutputModel};
use vstd::prelude::*;

verus! {

/// A staging directory that is in use, as the pipeline sees it.
pub struct FrameModel {
    /// The archive that is unpacked into the directory.
    pub archive: ArchiveModel,
    /// The path of the directory.
    pub staging: Seq<char>,
    /// The entries of the directory, once it was listed.
    pub entries: Seq<EntryModel>,
    /// How many of the entries were dealt with.
    pub next: nat,
    /// The fault that ended the work on the archive, if there was one.
    pub fault: Option<ArchiveFaultModel>,
}

impl FrameModel {
    /// The frame of an archive whose staging directory is yet to be made.
    pub open spec fn opened(archive: ArchiveModel, staging: Seq<char>) -> FrameModel {
        FrameModel { archive, staging, entries: Seq::empty(), next: 0, fault: None }
    }

    /// Whether every entry was dealt with.
    pub open spec fn exhausted(self) -> bool {
        self.next >= self.entries.len()
    }

    /// The entry that is dealt with now.
    pub open spec fn current(self) -> EntryModel {
        self.entries[self.next as int]
    }

    /// The path of the current entry.
    pub open spec fn source(self) -> Seq<char> {
        joined(self.staging, self.current().name)
    }

    /// The current entry as an archive: it lies in this staging directory.
    pub open spec fn nested(self) -> ArchiveModel {
        ArchiveModel { dir: self.staging, name: self.current().name }
    }

    /// The frame once the current entry was dealt with.
    pub open spec fn passed(self) -> FrameModel {
        FrameModel { next: self.next + 1, ..self }
    }

    /// This frame is at rest while the archive that its current entry is
    /// gets unpacked and merged in the frame `child`.
    pub open spec fn waits_for(self, child: FrameModel) -> bool {
        &&& self.fault is None
        &&& !self.exhausted()
        &&& disposition(self.current()) == Disposition::Unpack
        &&& child.archive == self.nested()
    }

    /// This frame is in a state in which `phase` can work on it.
    pub open spec fn fits(self, phase: Phase) -> bool {
        match phase {
            Phase::Creating | Phase::Extracting | Phase::Listing => {
                &&& self.entries.len() == 0
                &&& self.next == 0
                &&& self.fault is None
            },
            Phase::Skipping => {
                &&& self.fault is None
                &&& !self.exhausted()
                &&& disposition(self.current()) == Disposition::Skip
            },
            Phase::Moving(_) => {
                &&& self.fault is None
                &&& !self.exhausted()
                &&& disposition(self.current()) == Disposition::Relocate
            },
            Phase::Releasing => self.fault is Some || self.next == self.entries.len(),
            _ => false,
        }
    }
}

/// What a `Pipeline` stands for.
pub struct PipelineModel {
    /// The directory into which everything is merged.
    pub dest: Seq<char>,
    /// The directory in which staging directories are made.
    pub base: Seq<char>,
    /// The archives to be unpacked, in the order in which they were found.
    pub queue: Seq<ArchiveModel>,
    /// How many archives of the queue were taken up.
    pub cursor: nat,
    /// The staging directories in use. The first belongs to an archive of
    /// the queue, each further one to an archive that was found in the
    /// directory before it.
    pub stack: Seq<FrameModel>,
    /// What the pipeline waits for.
    pub phase: Phase,
    /// What became of each subject that was dealt with, oldest first.
    pub report: Seq<RecordModel>,
}

impl PipelineModel {
    /// The state before anything was done.
    pub open spec fn initial(
        dest: Seq<char>,
        base: Seq<char>,
        queue: Seq<ArchiveModel>,
    ) -> PipelineModel {
        PipelineModel {
            dest,
            base,
            queue,
            cursor: 0,
            stack: Seq::empty(),
            phase: Phase::Locating,
            report: Seq::empty(),
        }
    }

    /// The staging directory that is worked on.
    pub open spec fn top(self) -> FrameModel {
        self.stack.last()
    }

    /// Where the current entry goes: the destination directory itself,
    /// under the entry's own name, whatever the destination holds.
    pub open spec fn target(self) -> Seq<char> {
        joined(self.dest, self.top().current().name)
    }

    /// Whether the pipeline has come to its end.
    pub open spec fn ended(self) -> bool {
        self.phase is Finished || self.phase is Aborted
    }

    /// The action that the pipeline waits for.
    pub open spec fn awaited(self) -> ActionModel {
        match self.phase {
            Phase::Locating => ActionModel::Locate { path: "/usr/bin/7z"@ },
            Phase::Installing => ActionModel::Run { command: installation() },
            Phase::Creating => ActionModel::CreateDir { path: self.top().staging },
            Phase::Extracting => ActionModel::Run {
                command: extraction(self.top().archive, self.top().staging),
            },
            Phase::Listing => ActionModel::List { path: self.top().staging },
            Phase::Skipping => ActionModel::Skip { path: self.top().source() },
            Phase::Moving(MoveStage::Rename) => ActionModel::Rename {
                from: self.top().source(),
                to: self.target(),
            },
            Phase::Moving(MoveStage::Copy) => ActionModel::Copy {
                from: self.top().source(),
                to: self.target(),
            },
            Phase::Moving(MoveStage::Delete) => ActionModel::Delete { path: self.top().source() },
            Phase::Releasing => ActionModel::RemoveTree { path: self.top().staging },
            Phase::Finished => ActionModel::Done,
            Phase::Aborted => ActionModel::Abort,
        }
    }

    /// The same state in another phase.
    pub open spec fn in_phase(self, phase: Phase) -> PipelineModel {
        PipelineModel { phase, ..self }
    }

    /// The same state with `frame` in place of the top frame.
    pub open spec fn with_top(self, frame: FrameModel) -> PipelineModel {
        PipelineModel { stack: self.stack.drop_last().push(frame), ..self }
    }

    /// The same state with one more line in the record.
    pub open spec fn noting(self, subject: Seq<char>, outcome: OutcomeModel) -> PipelineModel {
        PipelineModel { report: self.report.push(RecordModel { subject, outcome }), ..self }
    }

    /// Takes up `archive`: a staging directory named `fresh` is to be made
    /// for it in the base directory.
    pub open spec fn open_job(self, archive: ArchiveModel, fresh: Seq<char>) -> PipelineModel {
        PipelineModel {
            stack: self.stack.push(FrameModel::opened(archive, joined(self.base, fresh))),
            phase: Phase::Creating,
            ..self
        }
    }

    /// With no staging directory in use: takes up the next archive of the
    /// queue, or finishes when there is none left.
    pub open spec fn enter(self, fresh: Seq<char>) -> PipelineModel {
        if self.cursor < self.queue.len() {
            PipelineModel { cursor: self.cursor + 1, ..self }.open_job(
                self.queue[self.cursor as int],
                fresh,
            )
        } else {
            self.in_phase(Phase::Finished)
        }
    }

    /// Turns to the current entry of the top frame: an archive is taken
    /// up, another file is to be renamed, anything else is to be skipped.
    /// With no entry left the staging directory is to be removed.
    pub open spec fn advance(self, fresh: Seq<char>) -> PipelineModel {
        if self.top().exhausted() {
            self.in_phase(Phase::Releasing)
        } else {
            match disposition(self.top().current()) {
                Disposition::Skip => self.in_phase(Phase::Skipping),
                Disposition::Relocate => self.in_phase(Phase::Moving(MoveStage::Rename)),
                Disposition::Unpack => self.open_job(self.top().nested(), fresh),
            }
        }
    }

    /// Notes how the merge of the current entry ended and turns to the
    /// entry after it.
    pub open spec fn settle(self, outcome: MergeOutcome, fresh: Seq<char>) -> PipelineModel {
        self.noting(self.top().source(), OutcomeModel::Merged(outcome)).with_top(
            self.top().passed(),
        ).advance(fresh)
    }

    /// Gives up the archive of the top frame because of `fault`; its
    /// staging directory is to be removed.
    pub open spec fn fail(self, fault: ArchiveFaultModel) -> PipelineModel {
        self.with_top(FrameModel { fault: Some(fault), ..self.top() }).in_phase(Phase::Releasing)
    }

    /// How the work on the archive of the top frame has ended: with the
    /// fault that was met, or as `clean` says if none was.
    pub open spec fn verdict(self, clean: OutcomeModel) -> OutcomeModel {
        match self.top().fault {
            Some(fault) => OutcomeModel::Failed(fault),
            None => clean,
        }
    }

    /// Ends the work on the archive of the top frame and notes its
    /// verdict. The frame below, if there is one, turns to its next entry;
    /// otherwise the next archive of the queue is taken up.
    pub open spec fn close(self, clean: OutcomeModel, fresh: Seq<char>) -> PipelineModel {
        let rest = PipelineModel { stack: self.stack.drop_last(), ..self }.noting(
            self.top().archive.path(),
            self.verdict(clean),
        );
        if rest.stack.len() == 0 {
            rest.enter(fresh)
        } else {
            rest.with_top(rest.top().passed()).advance(fresh)
        }
    }

    /// The state that follows when the awaited action is answered by
    /// `reply`. `fresh` is the name for the staging directory of an archive
    /// that may be taken up in this step. An answer of the wrong kind
    /// counts as a failure of the action.
    pub open spec fn next(self, reply: ReplyModel, fresh: Seq<char>) -> PipelineModel {
        match self.phase {
            Phase::Locating => if reply is Succeeded {
                self.enter(fresh)
            } else {
                self.in_phase(Phase::Installing)
            },
            Phase::Installing => if reply matches ReplyModel::Exited(output) && succeeded(
                output.code,
            ) {
                self.enter(fresh)
            } else {
                self.in_phase(Phase::Aborted)
            },
            Phase::Creating => if reply is Succeeded {
                self.in_phase(Phase::Extracting)
            } else {
                self.close(OutcomeModel::Failed(ArchiveFaultModel::DirectoryCreate), fresh)
            },
            Phase::Extracting => match reply {
                ReplyModel::Exited(output) => if succeeded(output.code) {
                    self.in_phase(Phase::Listing)
                } else {
                    self.fail(
                        ArchiveFaultModel::ToolExecution(
                            ToolFailureModel { status_code: output.code, stderr: output.stderr },
                        ),
                    )
                },
                _ => self.fail(
                    ArchiveFaultModel::ToolExecution(
                        ToolFailureModel { status_code: None, stderr: Seq::empty() },
                    ),
                ),
            },
            Phase::Listing => match reply {
                ReplyModel::Listed(entries) => self.with_top(
                    FrameModel { entries, ..self.top() },
                ).advance(fresh),
                _ => self.fail(ArchiveFaultModel::DirectoryRead),
            },
            Phase::Skipping => self.settle(MergeOutcome::Skipped, fresh),
            Phase::Moving(stage) => match move_next(stage, reply is Succeeded) {
                MoveNext::Try(then) => self.in_phase(Phase::Moving(then)),
                MoveNext::Finish(outcome) => self.settle(outcome, fresh),
            },
            Phase::Releasing => if reply is Succeeded {
                self.close(OutcomeModel::Unpacked, fresh)
            } else {
                self.close(OutcomeModel::Failed(ArchiveFaultModel::DirectoryRemove), fresh)
            },
            Phase::Finished | Phase::Aborted => self,
        }
    }

    /// The states that a pipeline can be in.
    pub open spec fn wf(self) -> bool {
        &&& self.cursor <= self.queue.len()
        &&& self.stack.len() == 0 <==> (self.phase is Locating || self.phase is Installing
            || self.ended())
        &&& (self.phase is Locating || self.phase is Installing) ==> self.cursor == 0
        &&& self.stack.len() > 0 ==> {
            &&& self.cursor > 0
            &&& self.stack[0].archive == self.queue[self.cursor - 1]
            &&& self.top().fits(self.phase)
        }
        &&& forall|i: int|
            0 <= i < self.stack.len() - 1 ==> (#[trigger] self.stack[i]).waits_for(
                self.stack[i + 1],
            )
        &&& forall|i: int|
            0 <= i < self.stack.len() ==> (#[trigger] self.stack[i]).next
                <= self.stack[i].entries.len()
    }
}

/// Every step leads from a state that a pipeline can be in to another
/// such state, whatever the answer and whatever the name.
pub proof fn lemma_next_wf(state: PipelineModel, reply: ReplyModel, fresh: Seq<char>)
    requires
        state.wf(),
    ensures
        state.next(reply, fresh).wf(),
{
}

/// The line that the record gets when the archive of the top frame fails.
pub open spec fn tool_failure(state: PipelineModel, output: ToolOutputModel) -> RecordModel {
    RecordModel {
        subject: state.top().archive.path(),
        outcome: OutcomeModel::Failed(
            ArchiveFaultModel::ToolExecution(
                ToolFailureModel { status_code: output.code, stderr: output.stderr },
            ),
        ),
    }
}

/// When the decompression tool fails on an archive, the staging directory
/// of that archive is removed and the run goes on. Apart from the line in
/// the record, it goes on from the very state that it would have reached
/// had the archive been unpacked and found empty: the archives that wait
/// in the queue, and the entries that wait in the staging directories
/// below, are dealt with as if nothing had happened.
pub proof fn lemma_failure_is_contained(
    state: PipelineModel,
    output: ToolOutputModel,
    good: ToolOutputModel,
    removal: ReplyModel,
    fresh: Seq<char>,
)
    requires
        state.wf(),
        state.phase is Extracting,
        !succeeded(output.code),
        succeeded(good.code),
    ensures
        ({
            let failed = state.next(ReplyModel::Exited(output), fresh);
            let after = failed.next(removal, fresh);
            let empty = state.next(ReplyModel::Exited(good), fresh).next(
                ReplyModel::Listed(Seq::empty()),
                fresh,
            );
            let otherwise = empty.next(removal, fresh);
            &&& failed.awaited() == (ActionModel::RemoveTree { path: state.top().staging })
            &&& empty.awaited() == failed.awaited()
            &&& after.report == state.report.push(tool_failure(state, output))
            &&& after == (PipelineModel { report: after.report, ..otherwise })
        }),
{
    let failed = state.next(ReplyModel::Exited(output), fresh);
    let listing = state.next(ReplyModel::Exited(good), fresh);
    let empty = listing.next(ReplyModel::Listed(Seq::empty()), fresh);
    assert(failed.stack.drop_last() == state.stack.drop_last());
    assert(empty.stack.drop_last() =~= state.stack.drop_last());
}

/// Whether the staging directory of the frame `at` was made: every frame
/// but a top frame whose directory is still awaited.
pub open spec fn established(state: PipelineModel, at: int) -> bool {
    &&& 0 <= at < state.stack.len()
    &&& at == state.stack.len() - 1 ==> !(state.phase is Creating)
}

/// A staging directory is used only after the pipeline was told that it
/// was made. As long as the directory of the top frame is not
/// established, the one thing asked for is its creation, which fails if
/// the path exists already. A frame comes to be established only by a
/// creation that succeeded, and keeps its archive and its directory from
/// then on. A creation that failed ends the work on the archive, with a
/// line in the record; nothing is unpacked into the path, listed in it,
/// merged from it or removed.
pub proof fn lemma_no_use_without_creation(
    state: PipelineModel,
    reply: ReplyModel,
    fresh: Seq<char>,
    at: int,
)
    requires
        state.wf(),
    ensures
        state.stack.len() > 0 ==> (established(state, state.stack.len() - 1) <==> !(
        state.awaited() is CreateDir)),
        state.stack.len() == 0 ==> !(state.awaited() is CreateDir),
        established(state.next(reply, fresh), at) ==> {
            &&& at < state.stack.len()
            &&& state.next(reply, fresh).stack[at].staging == state.stack[at].staging
            &&& state.next(reply, fresh).stack[at].archive == state.stack[at].archive
            &&& established(state, at) || (state.phase is Creating && reply is Succeeded && at
                == state.stack.len() - 1)
        },
        state.phase is Creating && !(reply is Succeeded) ==> {
            &&& state.next(reply, fresh) == state.close(
                OutcomeModel::Failed(ArchiveFaultModel::DirectoryCreate),
                fresh,
            )
            &&& state.next(reply, fresh).report.len() == state.report.len() + 1
            &&& state.next(reply, fresh).report[state.report.len() as int] == (RecordModel {
                subject: state.top().archive.path(),
                outcome: OutcomeModel::Failed(ArchiveFaultModel::DirectoryCreate),
            })
        },
{
}

/// Whether the frame `at` of `state` is still the frame `at` of `then`:
/// it stands for the same archive and the same staging directory.
pub open spec fn kept(state: PipelineModel, then: PipelineModel, at: int) -> bool {
    &&& 0 <= at < state.stack.len()
    &&& at < then.stack.len()
    &&& then.stack[at].archive == state.stack[at].archive
    &&& then.stack[at].staging == state.stack[at].staging
}

/// A staging directory is removed on every way out. A frame is dropped
/// only when the removal of its directory was answered, or when the
/// directory could not be made in the first place; in every other step
/// all frames are kept, and in those two all but the top one. A tool that
/// fails and a listing that fails lead straight to the removal of the
/// directory they concern, and so does the end of a listing.
pub proof fn lemma_released_on_every_path(
    state: PipelineModel,
    reply: ReplyModel,
    fresh: Seq<char>,
    at: int,
)
    requires
        state.wf(),
        0 <= at < state.stack.len(),
    ensures
        ({
            let then = state.next(reply, fresh);
            let closing = state.phase is Releasing || (state.phase is Creating && !(reply
                is Succeeded));
            &&& !closing || at < state.stack.len() - 1 ==> kept(state, then, at)
            &&& state.phase is Releasing ==> state.awaited() == (ActionModel::RemoveTree {
                path: state.top().staging,
            })
            &&& (state.phase is Extracting && !(reply matches ReplyModel::Exited(output)
                && succeeded(output.code))) ==> then.phase is Releasing
            &&& (state.phase is Listing && !(reply is Listed)) ==> then.phase is Releasing
            &&& (state.phase is Skipping || state.phase is Moving || state.phase is Listing)
                && then.stack.len() == state.stack.len() && then.top().exhausted()
                ==> then.phase is Releasing
        }),
{
}

/// A pipeline asks for something until it has come to its end, and at its
/// end it stays.
pub proof fn lemma_ends_only_at_the_end(state: PipelineModel, reply: ReplyModel, fresh: Seq<char>)
    requires
        state.wf(),
    ensures
        state.ended() <==> state.awaited() is Done || state.awaited() is Abort,
        state.ended() ==> state.next(reply, fresh) == state,
        state.awaited() is Abort <==> state.phase is Aborted,
        state.next(reply, fresh).phase is Aborted && !(state.phase is Aborted) ==> state.phase
            is Installing,
{
}

/// Every staging directory is made in the base. A frame that a step puts
/// on the stack has the entry of the base that bears the name on offer as
/// its directory; every other frame has the directory it had. The base
/// and the destination never change.
pub proof fn lemma_staging_is_made_in_base(
    state: PipelineModel,
    reply: ReplyModel,
    fresh: Seq<char>,
    at: int,
)
    requires
        state.wf(),
        0 <= at < state.next(reply, fresh).stack.len(),
    ensures
        ({
            let then = state.next(reply, fresh);
            &&& then.base == state.base
            &&& then.dest == state.dest
            &&& kept(state, then, at) || (at == then.stack.len() - 1 && then.phase is Creating
                && then.stack[at].staging == joined(state.base, fresh))
        }),
{
}

/// Whether the staging directories that were made differ from one
/// another.
pub open spec fn apart(state: PipelineModel) -> bool {
    forall|i: int, j: int|
        0 <= i < j && established(state, j) ==> state.stack[i].staging != state.stack[j].staging
}

/// An archive found in a staging directory gets a staging directory of
/// its own. The names are drawn one by one and may repeat; what keeps the
/// directories apart is that a directory that exists cannot be made. If
/// the creation of a directory is answered with success only where its
/// path is not that of a staging directory in use, then the staging
/// directories in use differ from one another after every step.
pub proof fn lemma_staging_paths_differ(state: PipelineModel, reply: ReplyModel, fresh: Seq<char>)
    requires
        state.wf(),
        apart(state),
        state.phase is Creating && reply is Succeeded ==> forall|i: int|
            0 <= i < state.stack.len() - 1 ==> state.stack[i].staging != state.top().staging,
    ensures
        apart(state.next(reply, fresh)),
{
    let then = state.next(reply, fresh);
    assert forall|i: int, j: int| 0 <= i < j && established(then, j) implies then.stack[i].staging
        != then.stack[j].staging by {
        lemma_no_use_without_creation(state, reply, fresh, j);
        lemma_no_use_without_creation(state, reply, fresh, i);
        lemma_staging_is_made_in_base(state, reply, fresh, i);
        lemma_staging_is_made_in_base(state, reply, fresh, j);
    }
}

} // verus!
