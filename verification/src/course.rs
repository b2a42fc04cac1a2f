//! The course of a run in a world, from the first action to the last.

use crate::discovery::ArchiveModel;
use crate::merger::{
    disposition, move_next, Disposition, EntryModel, MergeOutcome, MoveNext, MoveStage,
};
use crate::model::{lemma_next_wf, FrameModel, PipelineModel};
use crate::names::{joined, lemma_joined_tells_name};
use crate::protocol::Phase;
use crate::report::{ArchiveFaultModel, OutcomeModel, RecordModel};
use crate::tool::ToolFailureModel;
use crate::world::{
    cost, entries_of, item_cost, lemma_run_split, merged, merged_all, merged_item, merged_pack,
    pack_cost, queue_cost, refusal, run, Item, World,
};
use vstd::prelude::*;

verus! {

/// How the work on an archive ends in a world, given what the tool makes
/// of the archive.
pub open spec fn verdict_of(pack: Option<Seq<Item>>) -> OutcomeModel {
    match pack {
        Some(_) => OutcomeModel::Unpacked,
        None => OutcomeModel::Failed(
            ArchiveFaultModel::ToolExecution(
                ToolFailureModel { status_code: refusal().code, stderr: refusal().stderr },
            ),
        ),
    }
}

/// The lines that the merge of `item` adds to the record. `staging` is
/// the directory that holds the entry, and `clock` the tick at which the
/// pipeline turns to it.
pub open spec fn lines_item(
    item: Item,
    staging: Seq<char>,
    base: Seq<char>,
    names: spec_fn(nat) -> Seq<char>,
    clock: nat,
) -> Seq<RecordModel>
    decreases item,
{
    let path = joined(staging, item.entry.name);
    match disposition(item.entry) {
        Disposition::Unpack => lines_pack(item.holds, path, base, names, clock),
        _ => seq![RecordModel { subject: path, outcome: OutcomeModel::Merged(item.outcome()) }],
    }
}

/// The lines that the archive `path` adds to the record: those of its
/// entries, if the tool unpacks it, and then the verdict on the archive
/// itself. `clock` is the tick at which the creation of its staging
/// directory is asked for; the directory got the name that was on offer
/// one tick before.
pub open spec fn lines_pack(
    pack: Option<Seq<Item>>,
    path: Seq<char>,
    base: Seq<char>,
    names: spec_fn(nat) -> Seq<char>,
    clock: nat,
) -> Seq<RecordModel>
    decreases pack,
{
    let verdict = RecordModel { subject: path, outcome: verdict_of(pack) };
    match pack {
        Some(items) => lines(
            items,
            joined(base, names((clock - 1) as nat)),
            base,
            names,
            clock + 3,
        ).push(verdict),
        None => seq![verdict],
    }
}

/// The lines that the merge of `items` adds to the record, the first
/// entry first.
pub open spec fn lines(
    items: Seq<Item>,
    staging: Seq<char>,
    base: Seq<char>,
    names: spec_fn(nat) -> Seq<char>,
    clock: nat,
) -> Seq<RecordModel>
    decreases items,
{
    if items.len() == 0 {
        Seq::empty()
    } else {
        lines_item(items.first(), staging, base, names, clock) + lines(
            items.drop_first(),
            staging,
            base,
            names,
            clock + item_cost(items.first()),
        )
    }
}

/// The lines that the archives of a queue add to the record, the first
/// archive first.
pub open spec fn lines_all(
    queue: Seq<ArchiveModel>,
    packs: Seq<Option<Seq<Item>>>,
    base: Seq<char>,
    names: spec_fn(nat) -> Seq<char>,
    clock: nat,
) -> Seq<RecordModel>
    decreases queue.len(),
{
    if queue.len() == 0 {
        Seq::empty()
    } else {
        lines_pack(packs.first(), queue.first().path(), base, names, clock) + lines_all(
            queue.drop_first(),
            packs.drop_first(),
            base,
            names,
            clock + pack_cost(packs.first()),
        )
    }
}

/// Whether `later` has the destination, the base and the queue of
/// `state`.
pub open spec fn same_run(later: PipelineModel, state: PipelineModel) -> bool {
    &&& later.dest == state.dest
    &&& later.base == state.base
    &&& later.queue == state.queue
}

/// Whether a staging directory that is about to be made has the name that
/// was on offer one tick before `clock`.
pub open spec fn named(state: PipelineModel, names: spec_fn(nat) -> Seq<char>, clock: nat) -> bool {
    state.phase is Creating ==> clock > 0 && state.top().staging == joined(
        state.base,
        names((clock - 1) as nat),
    )
}

/// Whether no name is on offer twice.
pub open spec fn separate(names: spec_fn(nat) -> Seq<char>) -> bool {
    forall|a: nat, b: nat| a != b ==> #[trigger] names(a) != #[trigger] names(b)
}

/// Whether no name on offer leads to a path in the base that is taken.
pub open spec fn unused(world: World, base: Seq<char>, names: spec_fn(nat) -> Seq<char>) -> bool {
    forall|c: nat| !world.taken.contains(joined(base, #[trigger] names(c)))
}

/// Whether the staging directories of the frames up to `depth` bear none
/// of the names on offer from the tick `from` on.
pub open spec fn clear(
    state: PipelineModel,
    names: spec_fn(nat) -> Seq<char>,
    from: int,
    depth: int,
) -> bool {
    forall|i: int, c: nat|
        0 <= i <= depth && i < state.stack.len() && from <= c ==> (
        #[trigger] state.stack[i]).staging != joined(state.base, #[trigger] names(c))
}

/// Frames that keep their directories stay clear of the names on offer,
/// and the more so of the names on offer later.
proof fn lemma_clear(
    state: PipelineModel,
    later: PipelineModel,
    names: spec_fn(nat) -> Seq<char>,
    from: int,
    then: int,
    depth: int,
)
    requires
        clear(state, names, from, depth),
        from <= then,
        later.base == state.base,
        0 <= depth < state.stack.len(),
        depth < later.stack.len(),
        later.stack[depth].staging == state.stack[depth].staging,
        later.stack.take(depth) == state.stack.take(depth),
    ensures
        clear(later, names, then, depth),
{
    assert forall|i: int, c: nat|
        0 <= i <= depth && i < later.stack.len() && then <= c implies (
    #[trigger] later.stack[i]).staging != joined(later.base, #[trigger] names(c)) by {
        if i < depth {
            assert(later.stack[i] == later.stack.take(depth)[i]);
            assert(state.stack[i] == state.stack.take(depth)[i]);
        }
        assert(state.stack[i].staging != joined(state.base, names(c)));
    }
}

/// A taken path is left alone. Where the path of the staging directory
/// that is to be made is taken, or is that of a staging directory in use,
/// the world refuses to make it and stays as it is, and the work on the
/// archive ends there: nothing is unpacked into the path, and nothing in
/// it is listed, moved or removed.
pub proof fn lemma_taken_path_is_left_alone(state: PipelineModel, world: World, fresh: Seq<char>)
    requires
        state.wf(),
        state.phase is Creating,
        !world.vacant(state),
    ensures
        world.after(state) == world,
        state.next(world.answer(state), fresh) == state.close(
            OutcomeModel::Failed(ArchiveFaultModel::DirectoryCreate),
            fresh,
        ),
{
}

/// Whether the frame `depth` of `state` has turned to its current entry
/// and nothing was done about that entry yet.
pub open spec fn poised(state: PipelineModel, depth: int) -> bool {
    &&& 0 <= depth < state.stack.len()
    &&& state.stack[depth].fault is None
    &&& {
        ||| state.stack.len() == depth + 2 && state.phase is Creating
        ||| state.stack.len() == depth + 1 && state.phase is Skipping
        ||| state.stack.len() == depth + 1 && state.phase == Phase::Moving(MoveStage::Rename)
        ||| state.stack.len() == depth + 1 && state.phase is Releasing
            && state.stack[depth].exhausted()
    }
}

/// Whether `later` is `state` with the frame `depth` moved on by one
/// entry: the frames below are the same, and so is the archive of the
/// queue that is worked on.
pub open spec fn moved_on(state: PipelineModel, later: PipelineModel, depth: int) -> bool {
    &&& same_run(later, state)
    &&& later.cursor == state.cursor
    &&& 0 <= depth < state.stack.len()
    &&& depth < later.stack.len()
    &&& later.stack[depth] == state.stack[depth].passed()
    &&& later.stack.take(depth) == state.stack.take(depth)
}

/// Whether `end` is `state` with every entry of the frame `depth` dealt
/// with: that frame is the top one and waits for its directory to be
/// removed, the frames below are the same, and so is the archive of the
/// queue that is worked on.
pub open spec fn worked_off(state: PipelineModel, end: PipelineModel, depth: int) -> bool {
    &&& same_run(end, state)
    &&& end.cursor == state.cursor
    &&& 0 <= depth < state.stack.len()
    &&& end.phase is Releasing
    &&& end.stack.len() == depth + 1
    &&& end.stack[depth] == (FrameModel {
        next: state.stack[depth].entries.len(),
        ..state.stack[depth]
    })
    &&& end.stack.take(depth) == state.stack.take(depth)
}

/// The frames below `depth` keep their listings when the stack is the same
/// up to `depth` and the world's directories are the same.
proof fn lemma_agrees_below(
    state: PipelineModel,
    world: World,
    later: PipelineModel,
    found: World,
    depth: int,
)
    requires
        world.agrees(state),
        0 <= depth < state.stack.len(),
        depth < later.stack.len(),
        later.stack.take(depth) == state.stack.take(depth),
        depth <= found.open.len(),
        found.open.take(depth) == world.open.take(depth),
    ensures
        forall|i: int|
            0 <= i < depth ==> (#[trigger] later.stack[i]).entries == entries_of(found.open[i]),
{
    assert forall|i: int| 0 <= i < depth implies (#[trigger] later.stack[i]).entries
        == entries_of(found.open[i]) by {
        assert(later.stack[i] == later.stack.take(depth)[i]);
        assert(state.stack[i] == state.stack.take(depth)[i]);
        assert(found.open[i] == found.open.take(depth)[i]);
        assert(world.open[i] == world.open.take(depth)[i]);
        assert(World::listed(state, i));
        assert(state.stack[i].entries == entries_of(world.open[i]));
    }
}

/// A step within the move of a file. The top frame waits for an attempt
/// at its current entry that is followed by another attempt; one action
/// later it waits for that one, and nothing else has changed but what the
/// attempt itself did.
proof fn lemma_attempt(state: PipelineModel, world: World, fresh: Seq<char>, then: MoveStage)
    requires
        state.wf(),
        world.agrees(state),
        state.phase matches Phase::Moving(stage) && move_next(
            stage,
            world.current(state).allows(stage),
        ) == MoveNext::Try(then),
    ensures
        ({
            let later = state.next(world.answer(state), fresh);
            let found = world.after(state);
            &&& later == state.in_phase(Phase::Moving(then))
            &&& later.wf()
            &&& found.agrees(later)
            &&& found.same_ground(world)
            &&& found.open == world.open
        }),
{
    let later = state.next(world.answer(state), fresh);
    let found = world.after(state);
    lemma_next_wf(state, world.answer(state), fresh);
    assert forall|i: int| 0 <= i < later.stack.len() && World::listed(later, i) implies (
    #[trigger] later.stack[i]).entries == entries_of(found.open[i]) by {
        assert(World::listed(state, i));
    }
}

/// The last step of an entry that is no archive. The frame `depth` is the
/// top one and waits for the acknowledgement or the attempt that ends the
/// work on its current entry; one action later the outcome is in the
/// record and the frame has turned to the entry after it.
proof fn lemma_entry_settled(
    state: PipelineModel,
    world: World,
    fresh: Seq<char>,
    depth: int,
    outcome: MergeOutcome,
)
    requires
        state.wf(),
        world.agrees(state),
        state.stack.len() == depth + 1,
        state.phase is Skipping || state.phase is Moving,
        state.phase is Skipping ==> outcome == MergeOutcome::Skipped,
        state.phase matches Phase::Moving(stage) ==> move_next(
            stage,
            world.current(state).allows(stage),
        ) == MoveNext::Finish(outcome),
    ensures
        ({
            let later = state.next(world.answer(state), fresh);
            let found = world.after(state);
            &&& later.wf()
            &&& found.agrees(later)
            &&& poised(later, depth)
            &&& moved_on(state, later, depth)
            &&& later.phase is Creating ==> later.top().staging == joined(state.base, fresh)
            &&& later.report == state.report.push(
                RecordModel {
                    subject: state.stack[depth].source(),
                    outcome: OutcomeModel::Merged(outcome),
                },
            )
            &&& found.same_ground(world)
            &&& found.open == world.open
        }),
{
    let frame = state.stack[depth];
    let later = state.next(world.answer(state), fresh);
    let found = world.after(state);
    assert(state.top() == frame);
    assert(frame.fits(state.phase));
    lemma_next_wf(state, world.answer(state), fresh);
    assert(later == state.settle(outcome, fresh));
    assert(later.stack[depth] == frame.passed());
    assert(later.stack.take(depth) =~= state.stack.take(depth));
    assert(World::listed(state, depth));
    lemma_agrees_below(state, world, later, found, depth);
    assert(found.agrees(later));
}

/// One entry that is no archive. The frame `depth` is the top one and
/// has turned to an entry that is skipped or moved; `item_cost` actions
/// later the outcome is in the record, the frame has turned to the entry
/// after it, and the destination holds what the entry brought.
pub proof fn lemma_plain_entry(
    state: PipelineModel,
    world: World,
    names: spec_fn(nat) -> Seq<char>,
    clock: nat,
    depth: int,
)
    requires
        state.wf(),
        world.agrees(state),
        poised(state, depth),
        state.stack.len() == depth + 1,
        !state.stack[depth].exhausted(),
    ensures
        ({
            let item = world.open[depth][state.stack[depth].next as int];
            let (later, found) = run(state, world, names, clock, item_cost(item));
            &&& later.wf()
            &&& found.agrees(later)
            &&& poised(later, depth)
            &&& named(later, names, clock + item_cost(item))
            &&& moved_on(state, later, depth)
            &&& later.report == state.report + lines_item(
                item,
                state.stack[depth].staging,
                state.base,
                names,
                clock,
            )
            &&& found.dest == merged_item(world.dest, item)
            &&& found.same_ground(world)
            &&& found.open == world.open
        }),
{
    let frame = state.stack[depth];
    let item = world.open[depth][frame.next as int];
    let line = RecordModel {
        subject: frame.source(),
        outcome: OutcomeModel::Merged(item.outcome()),
    };
    assert(World::listed(state, depth));
    assert(frame.entries == entries_of(world.open[depth]));
    assert(frame.current() == item.entry);
    assert(state.top() == frame);
    assert(frame.fits(state.phase));
    assert(world.current(state) == item);
    assert(lines_item(item, frame.staging, state.base, names, clock) == seq![line]);
    assert(state.report.push(line) =~= state.report + seq![line]);
    reveal_with_fuel(run, 4);
    if state.phase is Skipping || item.renames {
        lemma_entry_settled(state, world, names(clock), depth, item.outcome());
    } else {
        lemma_attempt(state, world, names(clock), MoveStage::Copy);
        let copying = state.in_phase(Phase::Moving(MoveStage::Copy));
        assert(world.after(state) == world);
        assert(world.current(copying) == item);
        if !item.copies {
            lemma_entry_settled(copying, world, names(clock + 1), depth, item.outcome());
            assert(world.after(copying) == world);
        } else {
            lemma_attempt(copying, world, names(clock + 1), MoveStage::Delete);
            let deleting = state.in_phase(Phase::Moving(MoveStage::Delete));
            let found = world.after(copying);
            assert(found.current(deleting) == item);
            lemma_entry_settled(deleting, found, names(clock + 2), depth, item.outcome());
            assert(found.after(deleting) == found);
        }
    }
}

/// The end of a nested archive. The frame above `depth` waits for its
/// directory to be removed; one action later the directory is gone, the
/// verdict on the archive is in the record, and the frame `depth` has
/// turned to the entry after the archive.
proof fn lemma_archive_entry(state: PipelineModel, world: World, fresh: Seq<char>, depth: int)
    requires
        state.wf(),
        world.agrees(state),
        0 <= depth,
        state.stack.len() == depth + 2,
        state.phase is Releasing,
    ensures
        ({
            let later = state.next(world.answer(state), fresh);
            let found = world.after(state);
            &&& later.wf()
            &&& found.agrees(later)
            &&& poised(later, depth)
            &&& moved_on(state, later, depth)
            &&& later.phase is Creating ==> later.top().staging == joined(state.base, fresh)
            &&& later.report == state.report.push(
                RecordModel {
                    subject: state.top().archive.path(),
                    outcome: state.verdict(OutcomeModel::Unpacked),
                },
            )
            &&& found.dest == world.dest
            &&& found.same_ground(world)
            &&& found.open == world.open.drop_last()
        }),
{
    let frame = state.stack[depth];
    let later = state.next(world.answer(state), fresh);
    let found = world.after(state);
    assert(frame.waits_for(state.stack[depth + 1]));
    lemma_next_wf(state, world.answer(state), fresh);
    assert(state.stack.drop_last().last() == frame);
    assert(later.stack[depth] == frame.passed());
    assert(later.stack.take(depth) =~= state.stack.take(depth));
    assert(World::listed(state, depth));
    assert(frame.entries == entries_of(world.open[depth]));
    assert(found.open.take(depth) =~= world.open.take(depth));
    lemma_agrees_below(state, world, later, found, depth);
    assert(found.agrees(later));
}

/// Merging what is left of a staging directory. From a state in which the
/// frame `depth` has turned to an entry, `cost` actions later every entry
/// from that one on is dealt with, the frame waits for its directory to be
/// removed, the destination holds what the entries brought, and the
/// record has their lines. The frames below are as they were, and no
/// other staging directory is left over.
pub proof fn lemma_rest(
    state: PipelineModel,
    world: World,
    names: spec_fn(nat) -> Seq<char>,
    clock: nat,
    depth: int,
)
    requires
        state.wf(),
        world.agrees(state),
        poised(state, depth),
        named(state, names, clock),
        separate(names),
        unused(world, state.base, names),
        clear(state, names, clock - 1, depth),
    ensures
        ({
            let rest = world.open[depth].skip(state.stack[depth].next as int);
            let (end, left) = run(state, world, names, clock, cost(rest));
            &&& end.wf()
            &&& left.agrees(end)
            &&& worked_off(state, end, depth)
            &&& end.report == state.report + lines(
                rest,
                state.stack[depth].staging,
                state.base,
                names,
                clock,
            )
            &&& left.dest == merged(world.dest, rest)
            &&& left.same_ground(world)
            &&& left.open == world.open.take(depth + 1)
        }),
    decreases cost(world.open[depth].skip(state.stack[depth].next as int)), 1int,
{
    let frame = state.stack[depth];
    let at = frame.next as int;
    let items = world.open[depth];
    let rest = items.skip(at);
    assert(World::listed(state, depth));
    assert(frame.entries == entries_of(items));
    assert(frame.entries.len() == items.len());
    if frame.exhausted() {
        assert(rest.len() == 0);
        assert(world.open.take(depth + 1) =~= world.open);
        assert(state.report + Seq::<RecordModel>::empty() =~= state.report);
    } else {
        let item = items[at];
        let after = rest.drop_first();
        assert(rest.first() == item);
        assert(after =~= items.skip(at + 1));
        assert(cost(rest) == item_cost(item) + cost(after));
        assert(merged(world.dest, rest) == merged(merged_item(world.dest, item), after));
        let spent = item_cost(item);
        let here = lines_item(item, frame.staging, state.base, names, clock);
        let there = lines(after, frame.staging, state.base, names, clock + spent);
        assert(lines(rest, frame.staging, state.base, names, clock) == here + there);
        if state.stack.len() == depth + 2 {
            assert(frame.waits_for(state.stack[depth + 1]));
            assert(frame.current() == item.entry);
            assert(world.pack(state) == item.holds);
            assert(item_cost(item) == pack_cost(item.holds));
            assert(state.top().archive.path() == joined(frame.staging, item.entry.name));
            let short = (spent - 1) as nat;
            lemma_job(state, world, names, clock);
            let (mid, then) = run(state, world, names, clock, short);
            let late = names(clock + short);
            let later = mid.next(then.answer(mid), late);
            let found = then.after(mid);
            lemma_archive_entry(mid, then, late, depth);
            assert(found.open == world.open);
            assert(mid.stack.drop_last() =~= mid.stack.take(depth + 1));
            assert(state.stack.drop_last() =~= state.stack.take(depth + 1));
            assert(mid.stack[depth] == frame) by {
                assert(mid.stack.take(depth + 1)[depth] == state.stack.take(depth + 1)[depth]);
            }
            assert(mid.stack.take(depth) =~= state.stack.take(depth)) by {
                assert forall|i: int| 0 <= i < depth implies mid.stack[i] == state.stack[i] by {
                    assert(mid.stack.take(depth + 1)[i] == state.stack.take(depth + 1)[i]);
                }
            }
            assert(moved_on(state, later, depth));
            assert(later.report == state.report + here);
            assert(found.open[depth].skip(later.stack[depth].next as int) == after);
            lemma_clear(state, later, names, clock - 1, clock + spent - 1, depth);
            lemma_rest(later, found, names, clock + spent, depth);
            let (end, left) = run(later, found, names, clock + spent, cost(after));
            lemma_run_split(state, world, names, clock, short, 1 + cost(after));
            assert(run(mid, then, names, clock + short, 1 + cost(after)) == (end, left));
            assert(short + (1 + cost(after)) == cost(rest));
            assert(end.report =~= state.report + (here + there));
        } else {
            let (later, found) = run(state, world, names, clock, spent);
            lemma_plain_entry(state, world, names, clock, depth);
            assert(found.open[depth].skip(later.stack[depth].next as int) == after);
            lemma_clear(state, later, names, clock - 1, clock + spent - 1, depth);
            lemma_rest(later, found, names, clock + spent, depth);
            let (end, left) = run(later, found, names, clock + spent, cost(after));
            lemma_run_split(state, world, names, clock, spent, cost(after));
            assert(end.report =~= state.report + (here + there));
        }
    }
}

/// Unpacking one archive. From a state that waits for the staging
/// directory of an archive to be made, one action short of `pack_cost`
/// actions later that directory waits to be removed, the destination
/// holds what the archive brought, nothing if the tool failed on it, and
/// the record has the lines of the archive but for the verdict, which
/// the next action adds. The frames below are as they were.
pub proof fn lemma_job(
    state: PipelineModel,
    world: World,
    names: spec_fn(nat) -> Seq<char>,
    clock: nat,
)
    requires
        state.wf(),
        world.agrees(state),
        state.phase is Creating,
        named(state, names, clock),
        separate(names),
        unused(world, state.base, names),
        clear(state, names, clock - 1, state.stack.len() - 2),
    ensures
        ({
            let pack = world.pack(state);
            let path = state.top().archive.path();
            let (mid, then) = run(state, world, names, clock, (pack_cost(pack) - 1) as nat);
            &&& mid.wf()
            &&& then.agrees(mid)
            &&& same_run(mid, state)
            &&& mid.cursor == state.cursor
            &&& mid.phase is Releasing
            &&& mid.stack.len() == state.stack.len()
            &&& mid.stack.drop_last() == state.stack.drop_last()
            &&& mid.top().archive == state.top().archive
            &&& mid.top().staging == state.top().staging
            &&& mid.report.push(
                RecordModel { subject: path, outcome: mid.verdict(OutcomeModel::Unpacked) },
            ) == state.report + lines_pack(pack, path, state.base, names, clock)
            &&& then.dest == merged_pack(world.dest, pack)
            &&& then.same_ground(world)
            &&& then.open.drop_last() == world.open
        }),
    decreases pack_cost(world.pack(state)), 0int,
{
    let pack = world.pack(state);
    let path = state.top().archive.path();
    let top = state.stack.len() - 1;
    assert(world.vacant(state)) by {
        let drawn = names((clock - 1) as nat);
        assert(!world.taken.contains(joined(state.base, drawn)));
        assert forall|i: int| 0 <= i < top implies (#[trigger] state.stack[i]).staging
            != state.top().staging by {
            assert(state.stack[i].staging != joined(state.base, drawn));
        }
    }
    let made = state.next(world.answer(state), names(clock));
    let empty = world.after(state);
    lemma_next_wf(state, world.answer(state), names(clock));
    assert(made == state.in_phase(Phase::Extracting));
    assert(empty.open.drop_last() =~= world.open);
    assert(empty.pack(made) == pack);
    assert(empty.agrees(made)) by {
        assert forall|i: int| 0 <= i < made.stack.len() && World::listed(made, i) implies (
        #[trigger] made.stack[i]).entries == entries_of(empty.open[i]) by {
            assert(World::listed(state, i));
        }
    }
    let ran = made.next(empty.answer(made), names(clock + 1));
    let full = empty.after(made);
    lemma_next_wf(made, empty.answer(made), names(clock + 1));
    assert(run(state, world, names, clock, 2) == (ran, full)) by {
        reveal_with_fuel(run, 3);
    }
    let verdict = RecordModel { subject: path, outcome: verdict_of(pack) };
    match pack {
        None => {
            assert(full == empty);
            assert(ran.stack.drop_last() =~= state.stack.drop_last());
            assert(entries_of(full.open.last()) =~= Seq::<EntryModel>::empty());
            assert(full.agrees(ran)) by {
                assert forall|i: int| 0 <= i < ran.stack.len() && World::listed(ran, i) implies (
                #[trigger] ran.stack[i]).entries == entries_of(full.open[i]) by {
                    if i < top {
                        assert(World::listed(state, i));
                    }
                }
            }
            assert(ran.report.push(verdict) =~= state.report + seq![verdict]);
        },
        Some(items) => {
            assert(ran == made.in_phase(Phase::Listing));
            assert(full.open.drop_last() =~= world.open);
            assert(full.pack(ran) == pack);
            assert(full.agrees(ran)) by {
                assert forall|i: int| 0 <= i < ran.stack.len() && World::listed(ran, i) implies (
                #[trigger] ran.stack[i]).entries == entries_of(full.open[i]) by {
                    assert(World::listed(state, i));
                }
            }
            let seen = ran.next(full.answer(ran), names(clock + 2));
            lemma_next_wf(ran, full.answer(ran), names(clock + 2));
            assert(full.after(ran) == full);
            assert(run(state, world, names, clock, 3) == (seen, full)) by {
                reveal_with_fuel(run, 4);
            }
            assert(seen.stack[top] == (FrameModel { entries: entries_of(items), ..state.top() }));
            assert(seen.stack.take(top) =~= state.stack.drop_last());
            assert(full.agrees(seen)) by {
                assert forall|i: int|
                    0 <= i < seen.stack.len() && World::listed(seen, i) implies (
                #[trigger] seen.stack[i]).entries == entries_of(full.open[i]) by {
                    if i < top {
                        assert(World::listed(state, i));
                    }
                }
            }
            assert(poised(seen, top));
            assert(named(seen, names, clock + 3));
            assert(clear(seen, names, (clock + 2) as int, top)) by {
                let drawn = names((clock - 1) as nat);
                assert forall|i: int, c: nat|
                    0 <= i <= top && i < seen.stack.len() && clock + 2 <= c implies (
                #[trigger] seen.stack[i]).staging != joined(seen.base, #[trigger] names(c)) by {
                    if i < top {
                        assert(seen.stack[i] == seen.stack.take(top)[i]);
                        assert(state.stack[i] == state.stack.drop_last()[i]);
                        assert(state.stack[i].staging != joined(state.base, names(c)));
                    } else {
                        assert(names(c) != drawn);
                        if joined(state.base, names(c)) == joined(state.base, drawn) {
                            lemma_joined_tells_name(state.base, names(c), drawn);
                        }
                    }
                }
            }
            assert(full.open[top].skip(0) =~= items);
            assert(full.open.take(top + 1) =~= full.open);
            lemma_rest(seen, full, names, clock + 3, top);
            lemma_run_split(state, world, names, clock, 3, cost(items));
            let (mid, then) = run(state, world, names, clock, (pack_cost(pack) - 1) as nat);
            assert(worked_off(seen, mid, top));
            assert(mid.stack.drop_last() =~= mid.stack.take(top));
            let inner = lines(items, state.top().staging, state.base, names, clock + 3);
            assert(mid.report == state.report + inner);
            assert(mid.report.push(verdict) =~= state.report + inner.push(verdict));
        },
    }
}

/// Whether no staging directory is in use but, at most, the one that is
/// about to be made for an archive of the queue.
pub open spec fn between(state: PipelineModel) -> bool {
    ||| state.phase is Finished && state.cursor == state.queue.len()
    ||| state.phase is Creating && state.stack.len() == 1
}

/// The place in the queue of the first archive that is not done with.
pub open spec fn undone(state: PipelineModel) -> int {
    if state.phase is Creating {
        state.cursor - 1
    } else {
        state.cursor as int
    }
}

/// The end of an archive of the queue. The only frame waits for its
/// directory to be removed; one action later the directory is gone, the
/// verdict on the archive is in the record, and the next archive of the
/// queue is taken up, if there is one.
proof fn lemma_archive_done(state: PipelineModel, world: World, fresh: Seq<char>)
    requires
        state.wf(),
        world.agrees(state),
        state.stack.len() == 1,
        state.phase is Releasing,
    ensures
        ({
            let later = state.next(world.answer(state), fresh);
            let found = world.after(state);
            &&& later.wf()
            &&& found.agrees(later)
            &&& between(later)
            &&& undone(later) == state.cursor
            &&& same_run(later, state)
            &&& later.phase is Creating ==> later.top().staging == joined(state.base, fresh)
            &&& later.report == state.report.push(
                RecordModel {
                    subject: state.top().archive.path(),
                    outcome: state.verdict(OutcomeModel::Unpacked),
                },
            )
            &&& found.dest == world.dest
            &&& found.same_ground(world)
            &&& found.open.len() == 0
        }),
{
    lemma_next_wf(state, world.answer(state), fresh);
    assert(state.stack.drop_last().len() == 0);
}

/// Working off the queue. From a state between two archives, `queue_cost`
/// actions later the run has finished, the destination holds what the
/// archives brought, the first one first, no staging directory is left
/// over, and the record has the lines of each archive.
pub proof fn lemma_queue(
    state: PipelineModel,
    world: World,
    names: spec_fn(nat) -> Seq<char>,
    clock: nat,
)
    requires
        state.wf(),
        world.agrees(state),
        between(state),
        named(state, names, clock),
        separate(names),
        unused(world, state.base, names),
    ensures
        ({
            let waiting = world.packs.skip(undone(state));
            let (end, left) = run(state, world, names, clock, queue_cost(waiting));
            &&& end.wf()
            &&& same_run(end, state)
            &&& end.phase is Finished
            &&& end.report == state.report + lines_all(
                state.queue.skip(undone(state)),
                waiting,
                state.base,
                names,
                clock,
            )
            &&& left.dest == merged_all(world.dest, waiting)
            &&& left.same_ground(world)
            &&& left.open.len() == 0
        }),
    decreases state.queue.len() - undone(state),
{
    let waiting = world.packs.skip(undone(state));
    let archives = state.queue.skip(undone(state));
    if state.phase is Finished {
        assert(waiting.len() == 0);
        assert(archives.len() == 0);
        assert(state.report + Seq::<RecordModel>::empty() =~= state.report);
    } else {
        let pack = world.pack(state);
        let path = state.top().archive.path();
        assert(pack == waiting.first());
        assert(archives.first().path() == path);
        assert(waiting.drop_first() =~= world.packs.skip(undone(state) + 1));
        assert(archives.drop_first() =~= state.queue.skip(undone(state) + 1));
        let spent = (pack_cost(pack) - 1) as nat;
        let remaining = queue_cost(waiting.drop_first());
        let here = lines_pack(pack, path, state.base, names, clock);
        let there = lines_all(
            archives.drop_first(),
            waiting.drop_first(),
            state.base,
            names,
            clock + pack_cost(pack),
        );
        assert(lines_all(archives, waiting, state.base, names, clock) == here + there);
        lemma_job(state, world, names, clock);
        let (mid, then) = run(state, world, names, clock, spent);
        let late = names(clock + spent);
        let later = mid.next(then.answer(mid), late);
        let found = then.after(mid);
        lemma_archive_done(mid, then, late);
        assert(later.report == state.report + here);
        lemma_queue(later, found, names, clock + spent + 1);
        let (end, left) = run(later, found, names, clock + spent + 1, remaining);
        lemma_run_split(state, world, names, clock, spent, 1 + remaining);
        assert(run(mid, then, names, clock + spent, 1 + remaining) == (end, left));
        assert(spent + (1 + remaining) == queue_cost(waiting));
        assert(end.report =~= state.report + (here + there));
    }
}

/// How many actions it takes to have the decompression tool at hand: one
/// to look for it, and one more to install it if it is missing.
pub open spec fn lead(world: World) -> nat {
    if world.installed {
        1
    } else {
        2
    }
}

/// The whole run. In a world in which the tool is installed or can be, and
/// with names on offer that differ from one another and lead to no path
/// that is taken, every staging directory can be made, each archive gets
/// one of its own, and a run over a queue of archives finishes after the
/// actions that it takes to have the tool at hand and `queue_cost` further
/// ones. The destination
/// then holds what it held before and what the archives brought, each file
/// under its own name and the later file in place of an earlier one of
/// the same name. An archive on which the tool fails brings nothing and
/// keeps no other from being merged. No staging directory is left over,
/// and the record has the lines of each archive of the queue, and no
/// others.
pub proof fn lemma_run(
    dest: Seq<char>,
    base: Seq<char>,
    queue: Seq<ArchiveModel>,
    world: World,
    names: spec_fn(nat) -> Seq<char>,
)
    requires
        world.packs.len() == queue.len(),
        world.open.len() == 0,
        world.installed || world.installs,
        separate(names),
        unused(world, base, names),
    ensures
        ({
            let start = PipelineModel::initial(dest, base, queue);
            let steps = lead(world) + queue_cost(world.packs);
            let (end, left) = run(start, world, names, 0, steps);
            &&& end.wf()
            &&& end.phase is Finished
            &&& end.report == lines_all(queue, world.packs, base, names, lead(world))
            &&& left.dest == merged_all(world.dest, world.packs)
            &&& left.same_ground(world)
            &&& left.open.len() == 0
        }),
{
    let start = PipelineModel::initial(dest, base, queue);
    let asked = start.next(world.answer(start), names(0));
    lemma_next_wf(start, world.answer(start), names(0));
    assert(world.after(start) == world);
    assert(world.packs.skip(0) =~= world.packs);
    assert(queue.skip(0) =~= queue);
    let lines = lines_all(queue, world.packs, base, names, lead(world));
    assert(Seq::<RecordModel>::empty() + lines =~= lines);
    if world.installed {
        lemma_queue(asked, world, names, 1);
    } else {
        let ready = asked.next(world.answer(asked), names(1));
        lemma_next_wf(asked, world.answer(asked), names(1));
        assert(world.after(asked) == world);
        assert(run(start, world, names, 0, 2) == (ready, world)) by {
            reveal_with_fuel(run, 3);
        }
        lemma_queue(ready, world, names, 2);
        lemma_run_split(start, world, names, 0, 2, queue_cost(world.packs));
    }
}

/// A run without the tool. In a world in which the decompression tool is
/// missing and cannot be installed, a run is given up after two actions:
/// nothing is unpacked, no staging directory is made, and the destination
/// and the record stay as they were.
pub proof fn lemma_run_without_tool(
    dest: Seq<char>,
    base: Seq<char>,
    queue: Seq<ArchiveModel>,
    world: World,
    names: spec_fn(nat) -> Seq<char>,
)
    requires
        !world.installed,
        !world.installs,
    ensures
        ({
            let start = PipelineModel::initial(dest, base, queue);
            let (end, left) = run(start, world, names, 0, 2);
            &&& end == start.in_phase(Phase::Aborted)
            &&& left == world
        }),
{
    reveal_with_fuel(run, 3);
}

} // verus!
