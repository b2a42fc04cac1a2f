//! The run as a whole: which action is to be taken next, and what each
//! answer leads to.
//!
//! A `Pipeline` never acts. It names the one action it waits for; the
//! caller performs it and hands back how it went; the pipeline moves on.
//! Archives are taken one at a time. Each gets a staging directory of its
//! own, and an archive found among the entries of a staging directory is
//! unpacked and merged in full before the entry after it is looked at.

use crate::discovery::{
    archives_in, find_archives, holds_archive, lemma_found_iff_held, ArchiveFile, Node,
};
use crate::merger::{
    after_attempt, classify, Disposition, Entry, MergeOutcome, MoveNext, MoveStage,
};
use crate::model::{lemma_next_wf, FrameModel, PipelineModel};
use crate::names::{
    dotted, is_absolute, is_dotted, is_entry_name, join, joined, last_step, parent_dir, parent_of,
    stem, steps,
};
use crate::protocol::{Action, Phase, Reply};
use crate::report::{ArchiveFault, Outcome, Record, RecordModel};
use crate::staging::{fresh_name, is_staging_name, lemma_staging_is_sibling};
use crate::tool::{check_output, extract_command, install_command, tool_location, ToolFailure};
use rand::rngs::ThreadRng;
use vstd::prelude::*;
use vstd::string::*;

verus! {

/// A staging directory in use.
struct Frame {
    archive: ArchiveFile,
    staging: String,
    entries: Vec<Entry>,
    next: usize,
    fault: Option<ArchiveFault>,
}

impl View for Frame {
    type V = FrameModel;

    closed spec fn view(&self) -> FrameModel {
        FrameModel {
            archive: self.archive@,
            staging: self.staging@,
            entries: self.entries.deep_view(),
            next: self.next as nat,
            fault: match self.fault {
                Some(fault) => Some(fault@),
                None => None,
            },
        }
    }
}

impl DeepView for Frame {
    type V = FrameModel;

    closed spec fn deep_view(&self) -> FrameModel {
        self@
    }
}

/// All that a pipeline holds.
struct State {
    dest: String,
    base: String,
    queue: Vec<ArchiveFile>,
    cursor: usize,
    stack: Vec<Frame>,
    phase: Phase,
    report: Vec<Record>,
}

impl View for State {
    type V = PipelineModel;

    closed spec fn view(&self) -> PipelineModel {
        PipelineModel {
            dest: self.dest@,
            base: self.base@,
            queue: self.queue.deep_view(),
            cursor: self.cursor as nat,
            stack: self.stack.deep_view(),
            phase: self.phase,
            report: self.report.deep_view(),
        }
    }
}

impl State {
    fn note(&mut self, subject: String, outcome: Outcome)
        ensures
            final(self)@ == old(self)@.noting(subject@, outcome@),
    {
        self.report.push(Record { subject, outcome });
        assert(self.report.deep_view() =~= old(self).report.deep_view().push(
            RecordModel { subject: subject@, outcome: outcome@ },
        ));
    }

    fn open_job(&mut self, archive: ArchiveFile, fresh: &str)
        ensures
            final(self)@ == old(self)@.open_job(archive@, fresh@),
    {
        let staging = join(self.base.as_str(), fresh);
        let frame = Frame { archive, staging, entries: Vec::new(), next: 0, fault: None };
        assert(frame@.entries =~= Seq::empty());
        self.stack.push(frame);
        self.phase = Phase::Creating;
        assert(self.stack.deep_view() =~= old(self).stack.deep_view().push(frame@));
    }

    fn enter(&mut self, fresh: &str)
        ensures
            final(self)@ == old(self)@.enter(fresh@),
    {
        if self.cursor < self.queue.len() {
            let archive = self.queue[self.cursor].duplicate();
            self.cursor = self.cursor + 1;
            self.open_job(archive, fresh);
        } else {
            self.phase = Phase::Finished;
        }
    }

    fn take_top(&mut self) -> (top: Frame)
        requires
            old(self).stack.len() > 0,
        ensures
            top@ == old(self)@.top(),
            final(self)@ == (PipelineModel { stack: old(self)@.stack.drop_last(), ..old(self)@ }),
    {
        let top = self.stack.pop().unwrap();
        assert(self.stack.deep_view() =~= old(self).stack.deep_view().drop_last());
        top
    }

    fn pass(&mut self)
        requires
            old(self).stack.len() > 0,
            !old(self)@.top().exhausted(),
        ensures
            final(self)@ == old(self)@.with_top(old(self)@.top().passed()),
    {
        let mut top = self.take_top();
        assert(top@.entries.len() == top.entries.len());
        top.next = top.next + 1;
        self.stack.push(top);
        assert(self.stack.deep_view() =~= old(self).stack.deep_view().drop_last().push(top@));
    }

    fn advance(&mut self, fresh: &str)
        requires
            old(self).stack.len() > 0,
        ensures
            final(self)@ == old(self)@.advance(fresh@),
    {
        let top = &self.stack[self.stack.len() - 1];
        assert(top@ == self@.top());
        if top.next >= top.entries.len() {
            self.phase = Phase::Releasing;
        } else {
            let entry = &top.entries[top.next];
            assert(entry@ == top@.current());
            match classify(entry) {
                Disposition::Skip => {
                    self.phase = Phase::Skipping;
                },
                Disposition::Relocate => {
                    self.phase = Phase::Moving(MoveStage::Rename);
                },
                Disposition::Unpack => {
                    let nested = ArchiveFile { dir: top.staging.clone(), name: entry.name.clone() };
                    self.open_job(nested, fresh);
                },
            }
        }
    }

    fn source(&self) -> (path: String)
        requires
            self.stack.len() > 0,
            !self@.top().exhausted(),
        ensures
            path@ == self@.top().source(),
    {
        let top = &self.stack[self.stack.len() - 1];
        join(top.staging.as_str(), top.entries[top.next].name.as_str())
    }

    fn target(&self) -> (path: String)
        requires
            self.stack.len() > 0,
            !self@.top().exhausted(),
        ensures
            path@ == self@.target(),
    {
        let top = &self.stack[self.stack.len() - 1];
        join(self.dest.as_str(), top.entries[top.next].name.as_str())
    }

    fn settle(&mut self, outcome: MergeOutcome, fresh: &str)
        requires
            old(self).stack.len() > 0,
            !old(self)@.top().exhausted(),
        ensures
            final(self)@ == old(self)@.settle(outcome, fresh@),
    {
        let subject = self.source();
        self.note(subject, Outcome::Merged(outcome));
        self.pass();
        self.advance(fresh);
    }

    fn fail(&mut self, fault: ArchiveFault)
        requires
            old(self).stack.len() > 0,
        ensures
            final(self)@ == old(self)@.fail(fault@),
    {
        let mut top = self.take_top();
        top.fault = Some(fault);
        self.stack.push(top);
        self.phase = Phase::Releasing;
        assert(self.stack.deep_view() =~= old(self).stack.deep_view().drop_last().push(top@));
    }

    fn close(&mut self, clean: Outcome, fresh: &str)
        requires
            old(self).stack.len() > 0,
            old(self).stack.len() > 1 ==> !old(self)@.stack[old(self).stack.len() - 2].exhausted(),
        ensures
            final(self)@ == old(self)@.close(clean@, fresh@),
    {
        let top = self.take_top();
        let subject = top.archive.path();
        let verdict = match top.fault {
            Some(fault) => Outcome::Failed(fault),
            None => clean,
        };
        self.note(subject, verdict);
        if self.stack.len() == 0 {
            self.enter(fresh);
        } else {
            self.pass();
            self.advance(fresh);
        }
    }

    fn step(&mut self, reply: Reply, fresh: &str)
        requires
            old(self)@.wf(),
        ensures
            final(self)@ == old(self)@.next(reply@, fresh@),
    {
        let done = match &reply {
            Reply::Succeeded => true,
            _ => false,
        };
        match self.phase {
            Phase::Locating => {
                if done {
                    self.enter(fresh);
                } else {
                    self.phase = Phase::Installing;
                }
            },
            Phase::Installing => {
                let installed = match reply {
                    Reply::Exited(output) => check_output(output).is_ok(),
                    _ => false,
                };
                if installed {
                    self.enter(fresh);
                } else {
                    self.phase = Phase::Aborted;
                }
            },
            Phase::Creating => {
                if done {
                    self.phase = Phase::Extracting;
                } else {
                    self.close(Outcome::Failed(ArchiveFault::DirectoryCreate), fresh);
                }
            },
            Phase::Extracting => {
                match reply {
                    Reply::Exited(output) => {
                        match check_output(output) {
                            Ok(_) => {
                                self.phase = Phase::Listing;
                            },
                            Err(failure) => {
                                self.fail(ArchiveFault::ToolExecution(failure));
                            },
                        }
                    },
                    _ => {
                        let stderr = String::new();
                        assert(stderr@ =~= Seq::<char>::empty());
                        self.fail(
                            ArchiveFault::ToolExecution(ToolFailure { status_code: None, stderr }),
                        );
                    },
                }
            },
            Phase::Listing => {
                match reply {
                    Reply::Listed(entries) => {
                        let mut top = self.take_top();
                        top.entries = entries;
                        self.stack.push(top);
                        assert(self.stack.deep_view() =~= old(
                            self,
                        ).stack.deep_view().drop_last().push(top@));
                        self.advance(fresh);
                    },
                    _ => {
                        self.fail(ArchiveFault::DirectoryRead);
                    },
                }
            },
            Phase::Skipping => {
                self.settle(MergeOutcome::Skipped, fresh);
            },
            Phase::Moving(stage) => {
                match after_attempt(stage, done) {
                    MoveNext::Try(then) => {
                        self.phase = Phase::Moving(then);
                    },
                    MoveNext::Finish(outcome) => {
                        self.settle(outcome, fresh);
                    },
                }
            },
            Phase::Releasing => {
                if done {
                    self.close(Outcome::Unpacked, fresh);
                } else {
                    self.close(Outcome::Failed(ArchiveFault::DirectoryRemove), fresh);
                }
            },
            Phase::Finished | Phase::Aborted => {},
        }
    }

    fn pending(&self) -> (action: Action)
        requires
            self@.wf(),
        ensures
            action@ == self@.awaited(),
    {
        match self.phase {
            Phase::Locating => Action::Locate { path: String::from_str(tool_location()) },
            Phase::Installing => Action::Run { command: install_command() },
            Phase::Creating => Action::CreateDir {
                path: self.stack[self.stack.len() - 1].staging.clone(),
            },
            Phase::Extracting => {
                let top = &self.stack[self.stack.len() - 1];
                Action::Run { command: extract_command(&top.archive, top.staging.as_str()) }
            },
            Phase::Listing => Action::List {
                path: self.stack[self.stack.len() - 1].staging.clone(),
            },
            Phase::Skipping => Action::Skip { path: self.source() },
            Phase::Moving(MoveStage::Rename) => Action::Rename {
                from: self.source(),
                to: self.target(),
            },
            Phase::Moving(MoveStage::Copy) => Action::Copy {
                from: self.source(),
                to: self.target(),
            },
            Phase::Moving(MoveStage::Delete) => Action::Delete { path: self.source() },
            Phase::Releasing => Action::RemoveTree {
                path: self.stack[self.stack.len() - 1].staging.clone(),
            },
            Phase::Finished => Action::Done,
            Phase::Aborted => Action::Abort,
        }
    }
}

/// A run over the archives of one directory tree.
pub struct Pipeline {
    state: State,
}

impl View for Pipeline {
    type V = PipelineModel;

    closed spec fn view(&self) -> PipelineModel {
        self.state@
    }
}

/// Why no run takes place.
#[derive(Debug, Clone, Copy, PartialEq, Eq, Structural)]
pub enum Stop {
    /// The directory to be scanned does not exist.
    PathNotFound,
    /// The directory holds no archive, at any depth.
    EmptyCorpus,
    /// The directory is the root of the file system, or its path is empty:
    /// there is no directory beside it in which staging directories could
    /// be made.
    NoParent,
    /// The path of the directory is `.` or ends in `..`: which directory
    /// lies beside it is not told by the path.
    DottedRoot,
}

/// What is planned for the directory `root`, given what was found in it:
/// `None` if it does not exist, else its entries with all that lies below
/// them. Staging directories are made beside `root`, in its parent, so a
/// run is planned only for a root whose path tells the parent.
pub open spec fn planned(root: Seq<char>, listing: Option<Seq<Node>>) -> Result<
    PipelineModel,
    Stop,
> {
    match listing {
        None => Err(Stop::PathNotFound),
        Some(entries) => if archives_in(root, entries).len() == 0 {
            Err(Stop::EmptyCorpus)
        } else {
            match parent_of(root) {
                Some(base) => Ok(PipelineModel::initial(root, base, archives_in(root, entries))),
                None => if dotted(root) {
                    Err(Stop::DottedRoot)
                } else {
                    Err(Stop::NoParent)
                },
            }
        },
    }
}

/// The listing as `planned` takes it.
pub open spec fn listing_view(listing: Option<&Vec<Node>>) -> Option<Seq<Node>> {
    match listing {
        Some(entries) => Some(entries@),
        None => None,
    }
}

/// Plans the run over the directory `root`. `listing` is `None` if `root`
/// does not exist, else its entries with all that lies below them.
pub fn plan(root: &str, listing: Option<&Vec<Node>>) -> (result: Result<Pipeline, Stop>)
    ensures
        match result {
            Ok(pipeline) => planned(root@, listing_view(listing)) == Ok::<PipelineModel, Stop>(
                pipeline@,
            ) && pipeline@.wf(),
            Err(stop) => planned(root@, listing_view(listing)) == Err::<PipelineModel, Stop>(stop),
        },
{
    let entries = match listing {
        Some(entries) => entries,
        None => {
            return Err(Stop::PathNotFound);
        },
    };
    let queue = find_archives(root, entries);
    if queue.len() == 0 {
        return Err(Stop::EmptyCorpus);
    }
    match parent_dir(root) {
        Some(base) => Ok(Pipeline::new(String::from_str(root), base, queue)),
        None => if is_dotted(root) {
            Err(Stop::DottedRoot)
        } else {
            Err(Stop::NoParent)
        },
    }
}

impl Pipeline {
    #[verifier::type_invariant]
    spec fn inv(self) -> bool {
        self.state@.wf()
    }

    /// A run that merges the archives of `queue`, in that order, into the
    /// directory `dest`, with staging directories made in `base`.
    pub fn new(dest: String, base: String, queue: Vec<ArchiveFile>) -> (pipeline: Pipeline)
        ensures
            pipeline@ == PipelineModel::initial(dest@, base@, queue.deep_view()),
            pipeline@.wf(),
    {
        let state = State {
            dest,
            base,
            queue,
            cursor: 0,
            stack: Vec::new(),
            phase: Phase::Locating,
            report: Vec::new(),
        };
        assert(state.stack.deep_view() =~= Seq::empty());
        assert(state.report.deep_view() =~= Seq::empty());
        Pipeline { state }
    }

    /// The action that the pipeline waits for.
    pub fn pending(&self) -> (action: Action)
        ensures
            action@ == self@.awaited(),
            self@.wf(),
    {
        proof {
            use_type_invariant(self);
        }
        self.state.pending()
    }

    /// What the pipeline waits for.
    pub fn phase(&self) -> (phase: Phase)
        ensures
            phase == self@.phase,
    {
        self.state.phase
    }

    /// Whether the pipeline has come to its end.
    pub fn ended(&self) -> (ended: bool)
        ensures
            ended == self@.ended(),
    {
        match self.state.phase {
            Phase::Finished | Phase::Aborted => true,
            _ => false,
        }
    }

    /// What became of each subject dealt with so far, oldest first.
    pub fn report(&self) -> (report: &Vec<Record>)
        ensures
            report.deep_view() == self@.report,
    {
        &self.state.report
    }

    /// Takes the answer to the awaited action and moves on. `fresh` is the
    /// name for the staging directory of an archive that may be taken up
    /// in this step.
    pub fn step_with_name(self, reply: Reply, fresh: &str) -> (next: Pipeline)
        ensures
            self@.wf(),
            next@.wf(),
            next@ == self@.next(reply@, fresh@),
    {
        proof {
            use_type_invariant(&self);
            lemma_next_wf(self@, reply@, fresh@);
        }
        let mut state = self.state;
        state.step(reply, fresh);
        Pipeline { state }
    }

    /// Takes the answer to the awaited action and moves on. The name for
    /// the staging directory of an archive that may be taken up in this
    /// step is drawn from `rng`.
    pub fn step(self, reply: Reply, rng: &mut ThreadRng) -> (next: Pipeline)
        ensures
            self@.wf(),
            next@.wf(),
            exists|fresh: Seq<char>|
                is_staging_name(fresh) && next@ == #[trigger] self@.next(reply@, fresh),
    {
        let fresh = fresh_name(rng);
        self.step_with_name(reply, fresh.as_str())
    }
}

/// A directory that holds no archive is left alone, whatever else it
/// holds: no pipeline is made for it, so nothing is ever asked for, no
/// staging directory is made and nothing is merged. A directory whose
/// archives an earlier run has used up is such a directory.
pub proof fn lemma_nothing_to_unpack(root: Seq<char>, entries: Seq<Node>)
    requires
        forall|i: int| 0 <= i < entries.len() ==> !holds_archive(#[trigger] entries[i]),
    ensures
        planned(root, Some(entries)) == Err::<PipelineModel, Stop>(Stop::EmptyCorpus),
{
    lemma_found_iff_held(root, entries);
}

/// Where a planned run makes its staging directories. For every root for
/// which a run is planned, the path of the root ends, separators and `.`
/// aside, in the name of an entry, and the walk to the root is the walk
/// to the base followed by that name: the base is the directory that
/// holds the scanned one. The walk to a staging directory is the walk to
/// the base followed by the staging name, from the same start: the staging
/// directory is an entry of the base as the scanned directory is, not
/// below it, and the same as it only if both bear one name.
pub proof fn lemma_planned_beside_root(
    root: Seq<char>,
    listing: Option<Seq<Node>>,
    fresh: Seq<char>,
)
    requires
        planned(root, listing) is Ok,
        is_staging_name(fresh),
    ensures
        ({
            let start = planned(root, listing)->Ok_0;
            let staging = joined(start.base, fresh);
            let scanned = last_step(stem(root));
            &&& start.dest == root
            &&& parent_of(root) == Some(start.base)
            &&& is_entry_name(scanned)
            &&& steps(root) == steps(start.base).push(scanned)
            &&& steps(staging) == steps(start.base).push(fresh)
            &&& is_absolute(staging) == is_absolute(root)
            &&& steps(staging) == steps(root) <==> fresh == scanned
        }),
{
    let start = planned(root, listing)->Ok_0;
    lemma_staging_is_sibling(root, start.base, fresh);
}

} // verus!
