//! A world in which a run can be followed to its end: a destination
//! directory that maps file names to what the files hold, and a
//! decompression tool that unpacks what each archive was packed from.
//!
//! Nothing here is executed. The world says how a file system and a tool
//! would answer each action of a pipeline, and what the action would
//! change.

use crate::merger::{disposition, move_result, Disposition, EntryModel, MergeOutcome, MoveStage};
use crate::model::PipelineModel;
use crate::protocol::{Phase, ReplyModel};
use crate::tool::ToolOutputModel;
use vstd::prelude::*;

verus! {

/// An entry of a staging directory, with what stands behind it.
pub struct Item {
    /// Its name and kind.
    pub entry: EntryModel,
    /// What the file holds.
    pub data: Seq<u8>,
    /// What the decompression tool unpacks from the file: `None` if the
    /// tool fails on it.
    pub holds: Option<Seq<Item>>,
    /// Whether the file can be renamed into the destination.
    pub renames: bool,
    /// Whether the file can be copied into the destination.
    pub copies: bool,
    /// Whether the file can be deleted.
    pub deletes: bool,
}

impl Item {
    /// Whether the attempt `stage` at this file goes well.
    pub open spec fn allows(self, stage: MoveStage) -> bool {
        match stage {
            MoveStage::Rename => self.renames,
            MoveStage::Copy => self.copies,
            MoveStage::Delete => self.deletes,
        }
    }

    /// Whether the file gets into the destination: by a rename, or else by
    /// a copy.
    pub open spec fn arrives(self) -> bool {
        self.renames || self.copies
    }

    /// How the merge of this entry ends.
    pub open spec fn outcome(self) -> MergeOutcome {
        match disposition(self.entry) {
            Disposition::Skip => MergeOutcome::Skipped,
            _ => move_result(self.renames, self.copies, self.deletes),
        }
    }
}

/// The files of the destination directory: what each holds, by name.
pub type Files = Map<Seq<char>, Seq<u8>>;

/// The destination once `item` was merged into it: a directory changes
/// nothing, an archive brings what it holds, any other file that can be
/// renamed or copied goes in under its own name and replaces a file of
/// that name.
pub open spec fn merged_item(dest: Files, item: Item) -> Files
    decreases item,
{
    match disposition(item.entry) {
        Disposition::Skip => dest,
        Disposition::Relocate => if item.arrives() {
            dest.insert(item.entry.name, item.data)
        } else {
            dest
        },
        Disposition::Unpack => merged_pack(dest, item.holds),
    }
}

/// The destination once what the tool makes of an archive was merged into
/// it: nothing changes if the tool fails.
pub open spec fn merged_pack(dest: Files, pack: Option<Seq<Item>>) -> Files
    decreases pack,
{
    match pack {
        Some(items) => merged(dest, items),
        None => dest,
    }
}

/// The destination once `items` were merged into it, the first one first.
pub open spec fn merged(dest: Files, items: Seq<Item>) -> Files
    decreases items,
{
    if items.len() == 0 {
        dest
    } else {
        merged(merged_item(dest, items.first()), items.drop_first())
    }
}

/// The destination once the archives of the queue were merged into it,
/// the first one first.
pub open spec fn merged_all(dest: Files, packs: Seq<Option<Seq<Item>>>) -> Files
    decreases packs.len(),
{
    if packs.len() == 0 {
        dest
    } else {
        merged_all(merged_pack(dest, packs.first()), packs.drop_first())
    }
}

/// The names under which the merge of `item` puts files into the
/// destination.
pub open spec fn brought_by_item(item: Item) -> Set<Seq<char>>
    decreases item,
{
    match disposition(item.entry) {
        Disposition::Skip => Set::empty(),
        Disposition::Relocate => if item.arrives() {
            Set::empty().insert(item.entry.name)
        } else {
            Set::empty()
        },
        Disposition::Unpack => brought_by_pack(item.holds),
    }
}

/// The names under which the merge of an archive puts files into the
/// destination.
pub open spec fn brought_by_pack(pack: Option<Seq<Item>>) -> Set<Seq<char>>
    decreases pack,
{
    match pack {
        Some(items) => brought(items),
        None => Set::empty(),
    }
}

/// The names under which the merge of `items` puts files into the
/// destination.
pub open spec fn brought(items: Seq<Item>) -> Set<Seq<char>>
    decreases items,
{
    if items.len() == 0 {
        Set::empty()
    } else {
        brought_by_item(items.first()).union(brought(items.drop_first()))
    }
}

/// Whether `after` is `before` with files added or replaced under the
/// names in `names`, under each of them, and under no other name.
pub open spec fn changed_at(before: Files, after: Files, names: Set<Seq<char>>) -> bool {
    &&& after.dom() == before.dom().union(names)
    &&& forall|name: Seq<char>|
        before.dom().contains(name) && !names.contains(name) ==> after[name] == before[name]
}

/// A file that is merged goes in under its own name, whether or not the
/// destination holds a file of that name: afterwards the destination
/// holds the incoming file under that name, and every other file as
/// before.
pub proof fn lemma_incoming_replaces(dest: Files, item: Item)
    requires
        disposition(item.entry) == Disposition::Relocate,
        item.arrives(),
    ensures
        merged_item(dest, item).dom() == dest.dom().insert(item.entry.name),
        merged_item(dest, item)[item.entry.name] == item.data,
        forall|name: Seq<char>|
            name != item.entry.name && dest.dom().contains(name) ==> merged_item(dest, item)[name]
                == dest[name],
{
}

/// After the merge of an entry the destination holds a file under every
/// name it held one under before and under every name the entry brought,
/// and under no other; the files under other names are as before.
pub proof fn lemma_merged_item_names(dest: Files, item: Item)
    ensures
        changed_at(dest, merged_item(dest, item), brought_by_item(item)),
    decreases item, 0int,
{
    match disposition(item.entry) {
        Disposition::Skip => {
            assert(dest.dom().union(Set::empty()) =~= dest.dom());
        },
        Disposition::Relocate => {
            assert(dest.dom().insert(item.entry.name) =~= dest.dom().union(
                Set::empty().insert(item.entry.name),
            ));
            assert(dest.dom().union(Set::empty()) =~= dest.dom());
        },
        Disposition::Unpack => {
            match item.holds {
                Some(items) => {
                    lemma_merged_names(dest, items);
                },
                None => {
                    assert(dest.dom().union(Set::empty()) =~= dest.dom());
                },
            }
        },
    }
}

/// After the merge of the entries of a staging directory the destination
/// holds a file under every name it held one under before and under every
/// name the entries brought, and under no other; the files under other
/// names are as before.
pub proof fn lemma_merged_names(dest: Files, items: Seq<Item>)
    ensures
        changed_at(dest, merged(dest, items), brought(items)),
    decreases items, 1int,
{
    if items.len() == 0 {
        assert(dest.dom().union(Set::empty()) =~= dest.dom());
    } else {
        let first = merged_item(dest, items.first());
        lemma_merged_item_names(dest, items.first());
        lemma_merged_names(first, items.drop_first());
        assert(merged(dest, items).dom() =~= dest.dom().union(brought(items)));
    }
}

/// Merging one more entry after the others is merging it into what the
/// others left.
pub proof fn lemma_merged_push(dest: Files, items: Seq<Item>, item: Item)
    ensures
        merged(dest, items.push(item)) == merged_item(merged(dest, items), item),
    decreases items.len(),
{
    let all = items.push(item);
    if items.len() == 0 {
        assert(all.drop_first() =~= Seq::<Item>::empty());
        assert(merged(merged_item(dest, item), all.drop_first()) == merged_item(dest, item));
    } else {
        assert(all.first() == items.first());
        assert(all.drop_first() =~= items.drop_first().push(item));
        lemma_merged_push(merged_item(dest, items.first()), items.drop_first(), item);
    }
}

/// Of two files of one name the later stays: a file that is merged last
/// is what the destination holds under its name, whatever the destination
/// held and whatever the entries before it brought.
pub proof fn lemma_last_wins(dest: Files, items: Seq<Item>, item: Item)
    requires
        disposition(item.entry) == Disposition::Relocate,
        item.arrives(),
    ensures
        merged(dest, items.push(item)).dom().contains(item.entry.name),
        merged(dest, items.push(item))[item.entry.name] == item.data,
{
    lemma_merged_push(dest, items, item);
}

/// An archive on which the tool fails brings nothing, and what the other
/// archives of the queue bring is merged as if it had not been there.
pub proof fn lemma_failed_archive_brings_nothing(
    dest: Files,
    packs: Seq<Option<Seq<Item>>>,
    at: int,
)
    requires
        0 <= at < packs.len(),
        packs[at] is None,
    ensures
        merged_all(dest, packs) == merged_all(dest, packs.remove(at)),
    decreases packs.len(),
{
    if at == 0 {
        assert(packs.remove(0) =~= packs.drop_first());
    } else {
        let rest = packs.remove(at);
        assert(rest.first() == packs.first());
        assert(rest.drop_first() =~= packs.drop_first().remove(at - 1));
        lemma_failed_archive_brings_nothing(
            merged_pack(dest, packs.first()),
            packs.drop_first(),
            at - 1,
        );
    }
}

/// How many actions the merge of `item` takes: a file is renamed; if it
/// cannot be, it is copied; and if it was, it is deleted.
pub open spec fn item_cost(item: Item) -> nat
    decreases item,
{
    match disposition(item.entry) {
        Disposition::Skip => 1,
        Disposition::Relocate => if item.renames {
            1
        } else if !item.copies {
            2
        } else {
            3
        },
        Disposition::Unpack => pack_cost(item.holds),
    }
}

/// How many actions an archive takes: its staging directory is created
/// and removed and the tool is run; if the tool succeeds, the directory is
/// listed and its entries are merged.
pub open spec fn pack_cost(pack: Option<Seq<Item>>) -> nat
    decreases pack,
{
    match pack {
        Some(items) => 4 + cost(items),
        None => 3,
    }
}

/// How many actions the merge of `items` takes.
pub open spec fn cost(items: Seq<Item>) -> nat
    decreases items,
{
    if items.len() == 0 {
        0
    } else {
        item_cost(items.first()) + cost(items.drop_first())
    }
}

/// How many actions the archives of a queue take.
pub open spec fn queue_cost(packs: Seq<Option<Seq<Item>>>) -> nat
    decreases packs.len(),
{
    if packs.len() == 0 {
        0
    } else {
        pack_cost(packs.first()) + queue_cost(packs.drop_first())
    }
}

/// The listing of a directory that holds `items`.
pub open spec fn entries_of(items: Seq<Item>) -> Seq<EntryModel> {
    items.map_values(|item: Item| item.entry)
}

/// What a process reports when it has done its work.
pub open spec fn success() -> ToolOutputModel {
    ToolOutputModel { code: Some(0i32), stdout: Seq::empty(), stderr: Seq::empty() }
}

/// What a process reports when it fails.
pub open spec fn refusal() -> ToolOutputModel {
    ToolOutputModel { code: Some(2i32), stdout: Seq::empty(), stderr: Seq::empty() }
}

/// A world in which directories can be listed and removed, and made where
/// nothing is in the way. The decompression tool may be missing, and may
/// then resist being installed; it may fail on an archive; and a file may
/// resist being renamed, copied or deleted.
pub struct World {
    /// The paths that are taken by something that the run has not made.
    pub taken: Set<Seq<char>>,
    /// Whether the decompression tool is installed.
    pub installed: bool,
    /// Whether the decompression tool can be installed.
    pub installs: bool,
    /// The files of the destination directory.
    pub dest: Files,
    /// What the tool makes of each archive of the queue.
    pub packs: Seq<Option<Seq<Item>>>,
    /// What was unpacked into each staging directory that exists, the
    /// outermost first.
    pub open: Seq<Seq<Item>>,
}

impl World {
    /// What the tool makes of the archive of the top frame: an archive of
    /// the queue, or the current entry of the frame below.
    pub open spec fn pack(self, state: PipelineModel) -> Option<Seq<Item>> {
        let top = state.stack.len() - 1;
        if top == 0 {
            self.packs[state.cursor - 1]
        } else {
            self.open[top - 1][state.stack[top - 1].next as int].holds
        }
    }

    /// Whether this world and `other` differ at most in what the
    /// destination and the staging directories hold.
    pub open spec fn same_ground(self, other: World) -> bool {
        &&& self.taken == other.taken
        &&& self.installed == other.installed
        &&& self.installs == other.installs
        &&& self.packs == other.packs
    }

    /// Whether the staging directory of the top frame can be made: its
    /// path is not taken, and it is not the staging directory of a frame
    /// below.
    pub open spec fn vacant(self, state: PipelineModel) -> bool {
        &&& !self.taken.contains(state.top().staging)
        &&& forall|i: int|
            0 <= i < state.stack.len() - 1 ==> (#[trigger] state.stack[i]).staging
                != state.top().staging
    }

    /// What stands behind the current entry of the top frame.
    pub open spec fn current(self, state: PipelineModel) -> Item {
        self.open.last()[state.top().next as int]
    }

    /// How this world answers the action that `state` waits for.
    pub open spec fn answer(self, state: PipelineModel) -> ReplyModel {
        match state.phase {
            Phase::Locating => if self.installed {
                ReplyModel::Succeeded
            } else {
                ReplyModel::Failed
            },
            Phase::Creating => if self.vacant(state) {
                ReplyModel::Succeeded
            } else {
                ReplyModel::Failed
            },
            Phase::Installing => ReplyModel::Exited(
                if self.installs {
                    success()
                } else {
                    refusal()
                },
            ),
            Phase::Extracting => ReplyModel::Exited(
                if self.pack(state) is Some {
                    success()
                } else {
                    refusal()
                },
            ),
            Phase::Listing => ReplyModel::Listed(entries_of(self.open.last())),
            Phase::Moving(stage) => if self.current(state).allows(stage) {
                ReplyModel::Succeeded
            } else {
                ReplyModel::Failed
            },
            _ => ReplyModel::Succeeded,
        }
    }

    /// This world once the action that `state` waits for was done.
    pub open spec fn after(self, state: PipelineModel) -> World {
        match state.phase {
            Phase::Creating => if self.vacant(state) {
                World { open: self.open.push(Seq::empty()), ..self }
            } else {
                self
            },
            Phase::Extracting => match self.pack(state) {
                Some(items) => World { open: self.open.drop_last().push(items), ..self },
                None => self,
            },
            Phase::Moving(MoveStage::Rename) | Phase::Moving(MoveStage::Copy) => if self.answer(
                state,
            ) is Succeeded {
                World {
                    dest: self.dest.insert(
                        self.current(state).entry.name,
                        self.current(state).data,
                    ),
                    ..self
                }
            } else {
                self
            },
            Phase::Releasing => World { open: self.open.drop_last(), ..self },
            _ => self,
        }
    }

    /// Whether the frame `at` of `state` has its listing.
    pub open spec fn listed(state: PipelineModel, at: int) -> bool {
        at < state.stack.len() - 1 || !(state.phase is Creating || state.phase is Extracting
            || state.phase is Listing)
    }

    /// Whether this world is one that `state` can have come about in: the
    /// staging directories that exist are those of the frames, and each
    /// frame lists what its directory holds.
    pub open spec fn agrees(self, state: PipelineModel) -> bool {
        &&& self.packs.len() == state.queue.len()
        &&& self.open.len() == if state.phase is Creating {
            state.stack.len() - 1
        } else {
            state.stack.len() as int
        }
        &&& forall|i: int|
            0 <= i < state.stack.len() && Self::listed(state, i) ==> (
            #[trigger] state.stack[i]).entries == entries_of(self.open[i])
        &&& state.phase is Extracting ==> self.open.last().len() == 0
        &&& state.phase is Listing ==> self.pack(state) == Some(self.open.last())
    }
}

/// The pipeline and the world after `steps` actions, each answered as the
/// world answers it. `names` gives the staging name on offer at each tick
/// of the clock.
pub open spec fn run(
    state: PipelineModel,
    world: World,
    names: spec_fn(nat) -> Seq<char>,
    clock: nat,
    steps: nat,
) -> (PipelineModel, World)
    decreases steps,
{
    if steps == 0 {
        (state, world)
    } else {
        run(
            state.next(world.answer(state), names(clock)),
            world.after(state),
            names,
            clock + 1,
            (steps - 1) as nat,
        )
    }
}

/// A run of `first + then` actions is a run of `first` actions followed by
/// one of `then`.
pub proof fn lemma_run_split(
    state: PipelineModel,
    world: World,
    names: spec_fn(nat) -> Seq<char>,
    clock: nat,
    first: nat,
    then: nat,
)
    ensures
        run(state, world, names, clock, first + then) == run(
            run(state, world, names, clock, first).0,
            run(state, world, names, clock, first).1,
            names,
            clock + first,
            then,
        ),
    decreases first,
{
    if first > 0 {
        lemma_run_split(
            state.next(world.answer(state), names(clock)),
            world.after(state),
            names,
            clock + 1,
            (first - 1) as nat,
            then,
        );
        assert((first + then - 1) as nat == (first - 1) as nat + then);
    }
}

} // verus!
