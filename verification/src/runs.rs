//! Runs of a filesystem: from a consistent one, any number of operations, branches created, deleted and
//! switched to, and openings lead only to consistent ones. All of them can be opened again, no state,
//! snapshot or event of the past is lost or changed, and every point of the past can be restored.

use vstd::prelude::*;

use crate::branches::{branch_at, number_of, BranchCreation};
use crate::commit::{next_position, placed_event, ActiveView};
use crate::database::{BatchView, BranchView, Image};
use crate::durability::{
    contents_only, kept, lemma_commit_rows, lemma_kept_is_stored, lemma_put_one_blob,
    lemma_put_one_row, lemma_state_stays,
};
use crate::error::FuseError;
use crate::files::lemma_store_grows;
use crate::filesystem::{BranchPosition, BranchStatus, FileIdentifier};
use crate::history::{contents_at, event_of, root_of, snapshot_in_root};
use crate::indexes::open_branch;
use crate::inode::StoredTime;
use crate::keys::{
    lemma_ordinal_round_trip, lemma_triple_round_trip, lemma_u64_key_injective,
    lemma_u64_round_trip, pair_key, triple_key, u64_key,
};
use crate::opening::{opened, stored_soundly};
use crate::operations::{
    commit_planned, commits, consistent, cut_fully, faithful, lemma_creation_keeps_consistent,
    lemma_deletion_keeps_consistent, lemma_operation_keeps_consistent,
    lemma_reopening_keeps_consistent, lemma_switch_keeps_consistent, planned, Operation, Planned,
};
use crate::persist::stored_state;
use crate::recorded::snapshot_filed;
use crate::reopening::lemma_stored_soundly;
use crate::roots::{forkable, name_unused};
use crate::states::alike;
use crate::storage::{PreparedView, StorageView};
use crate::timeline::{lemma_restoring_gives_state, lemma_state_is_recorded};

verus! {

/// Something that is done with a filesystem.
pub ghost enum Step {
    /// An operation at a time is committed.
    Operate(Operation, StoredTime, time::UtcDateTime),
    /// A branch is created at a position.
    CreateBranch(Seq<char>, BranchPosition),
    /// A branch is made active.
    SwitchBranch(Seq<char>),
    /// A branch is deleted.
    DeleteBranch(Seq<char>),
    /// The filesystem is opened again.
    Reopen,
}

/// The commit of what an operation plans.
pub open spec fn commit_made(
    storage: StorageView,
    operation: Operation,
    now: StoredTime,
    created_at: time::UtcDateTime,
) -> PreparedView {
    commit_planned(storage, planned(storage, operation, now, created_at)->0)->0
}

/// A step that succeeds leads from one filesystem to another. A commit must store no two contents that
/// share a hash.
#[verifier::opaque]
pub open spec fn stepped(before: StorageView, step: Step, after: StorageView) -> bool {
    match step {
        Step::Operate(operation, now, created_at) => {
            let prepared = commit_made(before, operation, now, created_at);
            &&& commits(before, operation, now, created_at, prepared)
            &&& cut_fully(operation)
            &&& after == before.after(prepared)
        },
        Step::CreateBranch(name, from) => {
            let creation = before.branch_creation(name, from);
            &&& name.len() > 0
            &&& creation is Some
            &&& after == before.after_creation(creation->0)
        },
        Step::SwitchBranch(name) => {
            let switched = before.branch_switch(name);
            &&& switched is Some
            &&& after == before.after_switch(
                StorageView::switch_rows((switched->0).0),
                (switched->0).0,
                (switched->0).1,
            )
        },
        Step::DeleteBranch(name) => {
            let batch = before.branch_deletion(name);
            &&& batch is Some
            &&& after == before.after_deletion(batch->0)
        },
        Step::Reopen => opened(before.image) == Some(after),
    }
}

/// Each filesystem comes from the one before by a step.
pub open spec fn run(states: Seq<StorageView>, steps: Seq<Step>) -> bool {
    &&& states.len() == steps.len() + 1
    &&& forall|i: int|
        0 <= i < steps.len() ==> stepped(states[i], #[trigger] steps[i], states[i + 1])
}

/// Every step keeps a filesystem consistent.
pub proof fn lemma_step_keeps_consistent(before: StorageView, step: Step, after: StorageView)
    requires
        consistent(before),
        stepped(before, step, after),
    ensures
        consistent(after),
{
    reveal(stepped);
    match step {
        Step::Operate(operation, now, created_at) => {
            lemma_operation_keeps_consistent(
                before,
                operation,
                now,
                created_at,
                commit_made(before, operation, now, created_at),
            );
        },
        Step::CreateBranch(name, from) => {
            lemma_creation_keeps_consistent(
                before,
                name,
                from,
                before.branch_creation(name, from)->0,
            );
        },
        Step::SwitchBranch(name) => {
            let (number, active) = before.branch_switch(name)->0;
            lemma_switch_keeps_consistent(before, name, number, active);
        },
        Step::DeleteBranch(name) => {
            lemma_deletion_keeps_consistent(before, name, before.branch_deletion(name)->0);
        },
        Step::Reopen => {
            lemma_reopening_keeps_consistent(before);
        },
    }
}

/// A run of a consistent filesystem leads only to consistent ones.
pub proof fn lemma_run_is_consistent(states: Seq<StorageView>, steps: Seq<Step>, i: int)
    requires
        run(states, steps),
        consistent(states[0]),
        0 <= i < states.len(),
    ensures
        consistent(states[i]),
    decreases i,
{
    if i > 0 {
        lemma_run_is_consistent(states, steps, i - 1);
        assert(stepped(states[i - 1], steps[i - 1], states[i]));
        lemma_step_keeps_consistent(states[i - 1], steps[i - 1], states[i]);
    }
}

/// Whatever was done with it, a filesystem can be opened again: what it has written out passes every
/// check, and opening it gives the same tables, counters and branch and a state that shows the same.
pub proof fn lemma_run_can_be_opened(states: Seq<StorageView>, steps: Seq<Step>, i: int)
    requires
        run(states, steps),
        consistent(states[0]),
        0 <= i < states.len(),
    ensures
        ({
            let storage = states[i];
            let again = opened(storage.image);
            &&& stored_soundly(storage.image)
            &&& again is Some
            &&& again->0.image == storage.image
            &&& again->0.write == storage.write
            &&& again->0.active.branch == storage.active.branch
            &&& again->0.active.root == storage.active.root
            &&& alike(again->0.namespace(), storage.namespace())
        }),
{
    lemma_run_is_consistent(states, steps, i);
    reveal(consistent);
    lemma_stored_soundly(states[i]);
}

/// A branch is still there, under its name and with a head that is no earlier.
pub open spec fn branch_follows(before: Option<BranchView>, after: Option<BranchView>) -> bool {
    before is Some ==> {
        &&& after is Some
        &&& after->0.identifier == before->0.identifier
        &&& after->0.name == before->0.name
        &&& after->0.head_ordinal >= before->0.head_ordinal
    }
}

/// Nothing of the past is lost or changed: states, events, snapshots, contents and branches are still
/// there.
#[verifier::opaque]
pub open spec fn past_kept(before: Image, after: Image) -> bool {
    &&& before.nodes.submap_of(after.nodes)
    &&& before.manifests.submap_of(after.manifests)
    &&& before.chunks.submap_of(after.chunks)
    &&& before.events.submap_of(after.events)
    &&& before.branch_events.submap_of(after.branch_events)
    &&& before.branch_roots.submap_of(after.branch_roots)
    &&& before.snapshots.submap_of(after.snapshots)
    &&& forall|number: u64|
        branch_follows(branch_at(before, number), #[trigger] branch_at(after, number))
}

proof fn lemma_inserted<V>(map: Map<Seq<u8>, V>, key: Seq<u8>, value: V)
    requires
        !map.contains_key(key),
    ensures
        map.submap_of(map.insert(key, value)),
{
}

/// A commit keeps the past.
proof fn lemma_commit_keeps_past(storage: StorageView, made: Planned, prepared: PreparedView)
    requires
        consistent(storage),
        commit_planned(storage, made) == Some(prepared),
        faithful(storage, made, prepared),
        contents_only(made.rows),
    ensures
        past_kept(storage.image, storage.after(prepared).image),
{
    reveal(past_kept);
    reveal(commit_planned);
    lemma_commit_rows(
        storage,
        made.change,
        made.rows,
        made.payload,
        made.manifest,
        prepared,
    );
    let before = storage.image;
    let after = storage.after(prepared).image;
    assert(before.nodes.submap_of(after.nodes) && before.manifests.submap_of(after.manifests)
        && before.chunks.submap_of(after.chunks)) by {
        reveal(faithful);
        lemma_store_grows(before.nodes, prepared.batch.nodes);
        lemma_store_grows(before.manifests, prepared.batch.manifests);
        lemma_store_grows(before.chunks, prepared.batch.chunks);
    }
    let position = next_position(storage.active);
    let key = pair_key(position.branch_identifier.0, position.ordinal);
    lemma_put_one_row(
        before.events,
        u64_key(made.change.event.sequence.0),
        prepared.batch.events[0].1,
    );
    lemma_put_one_blob(before.branch_events, key, u64_key(made.change.event.sequence.0));
    lemma_put_one_row(before.branch_roots, key, prepared.batch.branch_roots[0].1);
    lemma_new_position(storage);
    lemma_inserted(
        before.events,
        u64_key(made.change.event.sequence.0),
        Some(prepared.batch.events[0].1),
    );
    lemma_inserted(before.branch_events, key, u64_key(made.change.event.sequence.0));
    lemma_inserted(before.branch_roots, key, Some(prepared.batch.branch_roots[0].1));
    let record = placed_event(storage.active, made.change.event);
    if prepared.batch.snapshots.len() > 0 {
        let (snapshot_key, row) = prepared.batch.snapshots[0];
        assert(prepared.batch.snapshots =~= seq![(snapshot_key, row)]);
        lemma_put_one_row(before.snapshots, snapshot_key, row);
        lemma_new_snapshot(storage, (record.file_identifier->0).0);
        lemma_inserted(before.snapshots, snapshot_key, Some(row));
    } else {
        assert(prepared.batch.snapshots =~= Seq::empty());
        assert(after.snapshots == before.snapshots);
    }
    let branch = prepared.branch;
    lemma_put_one_row(before.branches, u64_key(branch.identifier), branch);
    assert(branch_at(before, branch.identifier) == Some(storage.active.branch)) by {
        reveal(consistent);
    }
    assert forall|number: u64| branch_follows(
        branch_at(before, number),
        #[trigger] branch_at(after, number),
    ) by {
        lemma_u64_key_injective(number, branch.identifier);
    }
}

/// Nothing of a branch lies where its next event will.
proof fn lemma_new_position(storage: StorageView)
    requires
        consistent(storage),
        storage.active.branch.head_ordinal < u64::MAX,
    ensures
        ({
            let position = next_position(storage.active);
            let key = pair_key(position.branch_identifier.0, position.ordinal);
            &&& !storage.image.branch_roots.contains_key(key)
            &&& !storage.image.branch_events.contains_key(key)
        }),
{
    reveal(consistent);
    let position = next_position(storage.active);
    let key = pair_key(position.branch_identifier.0, position.ordinal);
    lemma_ordinal_round_trip(position.branch_identifier.0, position.ordinal);
    lemma_u64_round_trip(position.branch_identifier.0);
    assert(key.take(8) =~= u64_key(position.branch_identifier.0));
    assert(branch_at(storage.image, storage.active.branch.identifier) == Some(
        storage.active.branch,
    ));
    if storage.image.branch_events.contains_key(key) {
        assert(storage.image.branch_roots.contains_key(key));
    }
}

/// No snapshot lies where the next event of the branch will.
proof fn lemma_new_snapshot(storage: StorageView, file: u64)
    requires
        consistent(storage),
        storage.active.branch.head_ordinal < u64::MAX,
    ensures
        ({
            let position = next_position(storage.active);
            !storage.image.snapshots.contains_key(
                triple_key(position.branch_identifier.0, file, position.ordinal),
            )
        }),
{
    let position = next_position(storage.active);
    let key = triple_key(position.branch_identifier.0, file, position.ordinal);
    lemma_new_position(storage);
    lemma_triple_round_trip(position.branch_identifier.0, file, position.ordinal);
    if storage.image.snapshots.contains_key(key) {
        assert(snapshot_filed(storage.image, key)) by {
            reveal(consistent);
        }
    }
}

/// What an operation plans stores contents beside its commit and nothing else.
proof fn lemma_planned_rows(
    storage: StorageView,
    operation: Operation,
    now: StoredTime,
    created_at: time::UtcDateTime,
)
    requires
        planned(storage, operation, now, created_at) is Some,
    ensures
        contents_only(planned(storage, operation, now, created_at)->0.rows),
{
}

/// Creating a branch keeps the past.
proof fn lemma_creation_keeps_past(
    storage: StorageView,
    name: Seq<char>,
    from: BranchPosition,
    creation: BranchCreation,
)
    requires
        consistent(storage),
        storage.branch_creation(name, from) == Some(creation),
    ensures
        past_kept(storage.image, storage.after_creation(creation).image),
{
    reveal(past_kept);
    let before = storage.image;
    let after = storage.after_creation(creation).image;
    let branch = creation.branch;
    let key = pair_key(branch.identifier, from.ordinal);
    lemma_put_one_row(before.branch_roots, key, root_of(before, from)->0);
    lemma_put_one_row(before.branches, u64_key(branch.identifier), branch);
    lemma_ordinal_round_trip(branch.identifier, from.ordinal);
    lemma_u64_round_trip(branch.identifier);
    assert(key.take(8) =~= u64_key(branch.identifier));
    assert(!before.branch_roots.contains_key(key)) by {
        reveal(consistent);
        if before.branch_roots.contains_key(key) {
            assert(branch_at(before, branch.identifier) is Some);
        }
    }
    lemma_inserted(before.branch_roots, key, Some(root_of(before, from)->0));
    assert forall|number: u64| branch_follows(
        branch_at(before, number),
        #[trigger] branch_at(after, number),
    ) by {
        lemma_u64_key_injective(number, branch.identifier);
    }
}

/// Deleting a branch keeps the past.
proof fn lemma_deletion_keeps_past(storage: StorageView, name: Seq<char>, batch: BatchView)
    requires
        storage.branch_deletion(name) == Some(batch),
    ensures
        past_kept(storage.image, storage.after_deletion(batch).image),
{
    reveal(past_kept);
    let before = storage.image;
    let after = storage.after_deletion(batch).image;
    let number = number_of(before, name)->0;
    let branch = branch_at(before, number)->0;
    lemma_put_one_row(
        before.branches,
        u64_key(number),
        BranchView { status: BranchStatus::Deleted, ..branch },
    );
    assert forall|other: u64| branch_follows(
        branch_at(before, other),
        #[trigger] branch_at(after, other),
    ) by {
        lemma_u64_key_injective(other, number);
    }
}

/// Every step keeps the past.
pub proof fn lemma_step_keeps_past(before: StorageView, step: Step, after: StorageView)
    requires
        consistent(before),
        stepped(before, step, after),
    ensures
        past_kept(before.image, after.image),
{
    reveal(stepped);
    reveal(past_kept);
    match step {
        Step::Operate(operation, now, created_at) => {
            let made = planned(before, operation, now, created_at)->0;
            lemma_planned_rows(before, operation, now, created_at);
            lemma_commit_keeps_past(
                before,
                made,
                commit_made(before, operation, now, created_at),
            );
        },
        Step::CreateBranch(name, from) => {
            lemma_creation_keeps_past(before, name, from, before.branch_creation(name, from)->0);
        },
        Step::SwitchBranch(_) => {},
        Step::DeleteBranch(name) => {
            lemma_deletion_keeps_past(before, name, before.branch_deletion(name)->0);
        },
        Step::Reopen => {},
    }
}

proof fn lemma_submap_joins<V>(a: Map<Seq<u8>, V>, b: Map<Seq<u8>, V>, c: Map<Seq<u8>, V>)
    requires
        a.submap_of(b),
        b.submap_of(c),
    ensures
        a.submap_of(c),
{
    assert forall|key: Seq<u8>| #[trigger] a.dom().contains(key) implies c.dom().contains(key)
        && a[key] == c[key] by {
        assert(b.dom().contains(key));
    }
}

proof fn lemma_past_joins(a: Image, b: Image, c: Image)
    requires
        past_kept(a, b),
        past_kept(b, c),
    ensures
        past_kept(a, c),
{
    reveal(past_kept);
    lemma_submap_joins(a.nodes, b.nodes, c.nodes);
    lemma_submap_joins(a.manifests, b.manifests, c.manifests);
    lemma_submap_joins(a.chunks, b.chunks, c.chunks);
    lemma_submap_joins(a.events, b.events, c.events);
    lemma_submap_joins(a.branch_events, b.branch_events, c.branch_events);
    lemma_submap_joins(a.branch_roots, b.branch_roots, c.branch_roots);
    lemma_submap_joins(a.snapshots, b.snapshots, c.snapshots);
    assert forall|number: u64| branch_follows(
        branch_at(a, number),
        #[trigger] branch_at(c, number),
    ) by {
        assert(branch_follows(branch_at(a, number), branch_at(b, number)));
    }
}

/// Nothing of the past is lost or changed, whatever is done.
pub proof fn lemma_run_keeps_past(states: Seq<StorageView>, steps: Seq<Step>, i: int, j: int)
    requires
        run(states, steps),
        consistent(states[0]),
        0 <= i <= j < states.len(),
    ensures
        past_kept(states[i].image, states[j].image),
    decreases j - i,
{
    if i < j {
        lemma_run_keeps_past(states, steps, i, j - 1);
        lemma_run_is_consistent(states, steps, j - 1);
        assert(stepped(states[j - 1], steps[j - 1], states[j]));
        lemma_step_keeps_past(states[j - 1], steps[j - 1], states[j]);
        lemma_past_joins(states[i].image, states[j - 1].image, states[j].image);
    } else {
        reveal(past_kept);
    }
}

/// What a file had at a position is what the state there has of it.
proof fn lemma_contents_of_state(storage: StorageView, position: BranchPosition, file: FileIdentifier)
    requires
        consistent(storage),
        root_of(storage.image, position) is Some,
    ensures
        contents_at(storage.image, file, position) == match snapshot_in_root(
            storage.image,
            file,
            root_of(storage.image, position)->0,
        ) {
            Ok(Some(metadata)) => Some(metadata),
            _ => None,
        },
{
    let key = triple_key(position.branch_identifier.0, file.0, position.ordinal);
    lemma_triple_round_trip(position.branch_identifier.0, file.0, position.ordinal);
    if storage.image.snapshots.contains_key(key) {
        assert(snapshot_filed(storage.image, key)) by {
            reveal(consistent);
        }
    }
}

/// A state of the past is stored in every later filesystem as it was.
proof fn lemma_state_of_past(before: StorageView, after: StorageView, position: BranchPosition)
    requires
        consistent(before),
        past_kept(before.image, after.image),
        root_of(before.image, position) is Some,
    ensures
        root_of(after.image, position) == root_of(before.image, position),
        ({
            let name = root_of(before.image, position)->0.namespace_identifier;
            &&& stored_state(before.image.nodes, name) is Some
            &&& stored_state(after.image.nodes, name) == stored_state(before.image.nodes, name)
        }),
{
    reveal(past_kept);
    let key = pair_key(position.branch_identifier.0, position.ordinal);
    let name = root_of(before.image, position)->0.namespace_identifier;
    let next = before.write.next_inode_number;
    assert(before.image.branch_roots.dom().contains(key));
    assert(after.image.branch_roots.dom().contains(key));
    assert(kept(before.image.nodes, name, next)) by {
        reveal(consistent);
        assert(before.image.branch_roots.contains_key(key));
    }
    lemma_kept_is_stored(before.image.nodes, name, next);
    lemma_state_stays(
        before.image.nodes,
        after.image.nodes,
        name,
        stored_state(before.image.nodes, name)->0,
    );
}

/// Whatever is done later, every state of a branch, the contents of every file in it and every event
/// stay what they were.
pub proof fn lemma_past_is_read_later(
    states: Seq<StorageView>,
    steps: Seq<Step>,
    i: int,
    j: int,
    position: BranchPosition,
    file: FileIdentifier,
    sequence: u64,
)
    requires
        run(states, steps),
        consistent(states[0]),
        0 <= i <= j < states.len(),
    ensures
        ({
            let before = states[i].image;
            let after = states[j].image;
            let root = root_of(before, position);
            &&& root is Some ==> {
                &&& root_of(after, position) == root
                &&& stored_state(after.nodes, root->0.namespace_identifier) == stored_state(
                    before.nodes,
                    root->0.namespace_identifier,
                )
                &&& contents_at(after, file, position) == contents_at(before, file, position)
            }
            &&& before.events.contains_key(u64_key(sequence)) ==> event_of(after, sequence)
                == event_of(before, sequence)
        }),
{
    let before = states[i];
    let after = states[j];
    lemma_run_is_consistent(states, steps, i);
    lemma_run_is_consistent(states, steps, j);
    lemma_run_keeps_past(states, steps, i, j);
    if root_of(before.image, position) is Some {
        lemma_state_of_past(before, after, position);
        lemma_contents_of_state(before, position, file);
        lemma_contents_of_state(after, position, file);
    }
    if before.image.events.contains_key(u64_key(sequence)) {
        reveal(past_kept);
        assert(before.image.events.dom().contains(u64_key(sequence)));
        assert(after.image.events.dom().contains(u64_key(sequence)));
    }
}

/// The position of an event that was committed has the state that the commit left.
proof fn lemma_committed_state(
    storage: StorageView,
    operation: Operation,
    now: StoredTime,
    created_at: time::UtcDateTime,
    after: StorageView,
)
    requires
        consistent(storage),
        stepped(storage, Step::Operate(operation, now, created_at), after),
    ensures
        ({
            let position = next_position(storage.active);
            let root = root_of(after.image, position);
            &&& root is Some
            &&& stored_state(after.image.nodes, root->0.namespace_identifier) is Some
            &&& alike(
                stored_state(after.image.nodes, root->0.namespace_identifier)->0,
                after.namespace(),
            )
            &&& after.image.branch_events.contains_key(
                pair_key(position.branch_identifier.0, position.ordinal),
            )
        }),
{
    reveal(stepped);
    let made = planned(storage, operation, now, created_at)->0;
    let prepared = commit_made(storage, operation, now, created_at);
    lemma_planned_rows(storage, operation, now, created_at);
    lemma_made_numbered(storage, operation, now, created_at);
    reveal(commit_planned);
    lemma_recorded_state(storage, made, prepared);
}

proof fn lemma_made_numbered(
    storage: StorageView,
    operation: Operation,
    now: StoredTime,
    created_at: time::UtcDateTime,
)
    requires
        consistent(storage),
        planned(storage, operation, now, created_at) is Some,
    ensures
        crate::numbering::well_numbered(
            storage.namespace(),
            storage.write,
            planned(storage, operation, now, created_at)->0.change,
        ),
{
    assert(crate::soundness::rooted(storage.namespace())) by {
        reveal(consistent);
    }
    crate::operations::lemma_operation_orderly(storage, operation, now, created_at);
}

proof fn lemma_recorded_state(storage: StorageView, made: Planned, prepared: PreparedView)
    requires
        consistent(storage),
        storage.prepare(made.change, made.rows, made.payload, made.manifest) == Ok::<
            PreparedView,
            FuseError,
        >(prepared),
        faithful(storage, made, prepared),
        contents_only(made.rows),
        crate::numbering::well_numbered(storage.namespace(), storage.write, made.change),
    ensures
        ({
            let after = storage.after(prepared);
            let position = next_position(storage.active);
            let root = root_of(after.image, position);
            &&& root is Some
            &&& stored_state(after.image.nodes, root->0.namespace_identifier) is Some
            &&& alike(
                stored_state(after.image.nodes, root->0.namespace_identifier)->0,
                after.namespace(),
            )
            &&& after.image.branch_events.contains_key(
                pair_key(position.branch_identifier.0, position.ordinal),
            )
        }),
{
    reveal(consistent);
    reveal(faithful);
    lemma_state_is_recorded(
        storage,
        made.change,
        made.rows,
        made.payload,
        made.manifest,
        prepared,
    );
    lemma_commit_rows(
        storage,
        made.change,
        made.rows,
        made.payload,
        made.manifest,
        prepared,
    );
    let position = next_position(storage.active);
    lemma_put_one_blob(
        storage.image.branch_events,
        pair_key(position.branch_identifier.0, position.ordinal),
        u64_key(made.change.event.sequence.0),
    );
}

/// Every point of the past can be restored: right after any operation the state was recorded, and at any
/// later time, as long as the branch is open, a branch can be created there under a new name; once it
/// is made active, the filesystem shows what it showed right after the operation.
pub proof fn lemma_every_point_is_restored(
    states: Seq<StorageView>,
    steps: Seq<Step>,
    i: int,
    j: int,
    name: Seq<char>,
)
    requires
        run(states, steps),
        consistent(states[0]),
        0 <= i < j < states.len(),
        steps[i] is Operate,
        name.len() > 0,
        name_unused(states[j].image, name),
        branch_at(states[j].image, states[i].active.branch.identifier)->0.status
            == BranchStatus::Open,
        states[j].write.next_branch_identifier < u64::MAX,
    ensures
        ({
            let point = next_position(states[i].active);
            let creation = states[j].branch_creation(name, point);
            let switched = states[j].after_creation(creation->0).branch_switch(name);
            &&& creation is Some
            &&& switched is Some
            &&& (switched->0).0 == creation->0.branch.identifier
            &&& alike((switched->0).1.namespace, states[i + 1].namespace())
        }),
{
    let point = next_position(states[i].active);
    let key = pair_key(point.branch_identifier.0, point.ordinal);
    let recorded = states[i + 1];
    let later = states[j];
    lemma_run_is_consistent(states, steps, i);
    lemma_run_is_consistent(states, steps, i + 1);
    lemma_run_is_consistent(states, steps, j);
    lemma_run_keeps_past(states, steps, i, j);
    lemma_run_keeps_past(states, steps, i + 1, j);
    assert(stepped(states[i], steps[i], states[i + 1]));
    match steps[i] {
        Step::Operate(operation, now, created_at) => {
            lemma_committed_state(states[i], operation, now, created_at, states[i + 1]);
        },
        _ => {},
    }
    lemma_state_of_past(recorded, later, point);
    assert(branch_follows(
        branch_at(states[i].image, states[i].active.branch.identifier),
        branch_at(later.image, states[i].active.branch.identifier),
    )) by {
        reveal(past_kept);
    }
    assert(branch_at(states[i].image, states[i].active.branch.identifier) is Some) by {
        reveal(consistent);
    }
    assert(later.image.branch_events.dom().contains(key)) by {
        reveal(past_kept);
        assert(recorded.image.branch_events.dom().contains(key));
    }
    assert(forkable(later.image, point));
    lemma_restored(later, name, point);
}

proof fn lemma_restored(storage: StorageView, name: Seq<char>, from: BranchPosition)
    requires
        consistent(storage),
        name.len() > 0,
        name_unused(storage.image, name),
        forkable(storage.image, from),
        storage.write.next_branch_identifier < u64::MAX,
    ensures
        ({
            let creation = storage.branch_creation(name, from);
            let switched = storage.after_creation(creation->0).branch_switch(name);
            &&& creation is Some
            &&& switched is Some
            &&& (switched->0).0 == creation->0.branch.identifier
            &&& Some((switched->0).1.namespace) == stored_state(
                storage.image.nodes,
                root_of(storage.image, from)->0.namespace_identifier,
            )
        }),
{
    reveal(consistent);
    lemma_restoring_gives_state(storage, name, from);
}

/// A step leaves a branch alone: no operation while it is active, and no deletion of it.
pub open spec fn leaves_branch(storage: StorageView, step: Step, number: u64) -> bool {
    match step {
        Step::Operate(_, _, _) => storage.active.branch.identifier != number,
        Step::DeleteBranch(name) => number_of(storage.image, name) != Some(number),
        _ => true,
    }
}

/// A commit leaves all branches but the active one as they are.
proof fn lemma_commit_leaves_branch(
    storage: StorageView,
    made: Planned,
    prepared: PreparedView,
    number: u64,
)
    requires
        commit_planned(storage, made) == Some(prepared),
        contents_only(made.rows),
        storage.active.branch.identifier != number,
    ensures
        branch_at(storage.after(prepared).image, number) == branch_at(storage.image, number),
{
    reveal(commit_planned);
    lemma_commit_rows(
        storage,
        made.change,
        made.rows,
        made.payload,
        made.manifest,
        prepared,
    );
    lemma_put_one_row(
        storage.image.branches,
        u64_key(prepared.branch.identifier),
        prepared.branch,
    );
    lemma_u64_key_injective(number, prepared.branch.identifier);
}

proof fn lemma_operation_leaves_branch(
    storage: StorageView,
    operation: Operation,
    now: StoredTime,
    created_at: time::UtcDateTime,
    number: u64,
)
    requires
        commits(
            storage,
            operation,
            now,
            created_at,
            commit_made(storage, operation, now, created_at),
        ),
        storage.active.branch.identifier != number,
    ensures
        branch_at(
            storage.after(commit_made(storage, operation, now, created_at)).image,
            number,
        ) == branch_at(storage.image, number),
{
    lemma_planned_rows(storage, operation, now, created_at);
    lemma_commit_leaves_branch(
        storage,
        planned(storage, operation, now, created_at)->0,
        commit_made(storage, operation, now, created_at),
        number,
    );
}

proof fn lemma_creation_leaves_branch(
    storage: StorageView,
    name: Seq<char>,
    from: BranchPosition,
    creation: BranchCreation,
    number: u64,
)
    requires
        storage.branch_creation(name, from) == Some(creation),
        branch_at(storage.image, number) is Some,
    ensures
        branch_at(storage.after_creation(creation).image, number) == branch_at(
            storage.image,
            number,
        ),
{
    lemma_put_one_row(
        storage.image.branches,
        u64_key(creation.branch.identifier),
        creation.branch,
    );
    lemma_u64_key_injective(number, creation.branch.identifier);
}

proof fn lemma_switch_leaves_branch(
    storage: StorageView,
    other: u64,
    active: ActiveView,
    number: u64,
)
    ensures
        branch_at(
            storage.after_switch(StorageView::switch_rows(other), other, active).image,
            number,
        ) == branch_at(storage.image, number),
{
}

proof fn lemma_deletion_leaves_branch(
    storage: StorageView,
    name: Seq<char>,
    batch: BatchView,
    number: u64,
)
    requires
        storage.branch_deletion(name) == Some(batch),
        number_of(storage.image, name) != Some(number),
    ensures
        branch_at(storage.after_deletion(batch).image, number) == branch_at(storage.image, number),
{
    let other = number_of(storage.image, name)->0;
    let branch = branch_at(storage.image, other)->0;
    lemma_put_one_row(
        storage.image.branches,
        u64_key(other),
        BranchView { status: BranchStatus::Deleted, ..branch },
    );
    lemma_u64_key_injective(number, other);
}

/// A step that leaves a branch alone leaves it as it is.
proof fn lemma_branch_left(before: StorageView, step: Step, after: StorageView, number: u64)
    requires
        consistent(before),
        stepped(before, step, after),
        leaves_branch(before, step, number),
        branch_at(before.image, number) is Some,
    ensures
        branch_at(after.image, number) == branch_at(before.image, number),
{
    reveal(stepped);
    match step {
        Step::Operate(operation, now, created_at) => {
            lemma_operation_leaves_branch(before, operation, now, created_at, number);
        },
        Step::CreateBranch(name, from) => {
            lemma_creation_leaves_branch(
                before,
                name,
                from,
                before.branch_creation(name, from)->0,
                number,
            );
        },
        Step::SwitchBranch(name) => {
            let (other, active) = before.branch_switch(name)->0;
            lemma_switch_leaves_branch(before, other, active, number);
        },
        Step::DeleteBranch(name) => {
            lemma_deletion_leaves_branch(before, name, before.branch_deletion(name)->0, number);
        },
        Step::Reopen => {},
    }
}

proof fn lemma_run_leaves_branch(
    states: Seq<StorageView>,
    steps: Seq<Step>,
    number: u64,
    i: int,
)
    requires
        run(states, steps),
        consistent(states[0]),
        branch_at(states[0].image, number) is Some,
        0 <= i < states.len(),
        forall|k: int|
            0 <= k < steps.len() ==> leaves_branch(states[k], #[trigger] steps[k], number),
    ensures
        branch_at(states[i].image, number) == branch_at(states[0].image, number),
    decreases i,
{
    if i > 0 {
        lemma_run_leaves_branch(states, steps, number, i - 1);
        lemma_run_is_consistent(states, steps, i - 1);
        assert(stepped(states[i - 1], steps[i - 1], states[i]));
        assert(leaves_branch(states[i - 1], steps[i - 1], number));
        lemma_branch_left(states[i - 1], steps[i - 1], states[i], number);
    }
}

/// Switching back gives a branch as it was left: after any number of operations on other branches, of
/// branches created, deleted and switched to, and of openings, making the branch that was active at the
/// start active again gives the same branch and roots and a state that shows the same.
pub proof fn lemma_switching_back(states: Seq<StorageView>, steps: Seq<Step>)
    requires
        run(states, steps),
        consistent(states[0]),
        forall|k: int|
            0 <= k < steps.len() ==> leaves_branch(
                states[k],
                #[trigger] steps[k],
                states[0].active.branch.identifier,
            ),
    ensures
        ({
            let home = states[0].active;
            let back = states.last().branch_switch(home.branch.name);
            &&& back is Some
            &&& (back->0).0 == home.branch.identifier
            &&& (back->0).1.branch == home.branch
            &&& (back->0).1.root == home.root
            &&& alike((back->0).1.namespace, home.namespace)
        }),
{
    let home = states[0].active;
    let number = home.branch.identifier;
    let last = states.last();
    let at = states.len() - 1;
    assert(branch_at(states[0].image, number) == Some(home.branch)) by {
        reveal(consistent);
    }
    lemma_run_leaves_branch(states, steps, number, at);
    lemma_run_keeps_past(states, steps, 0, at);
    lemma_run_is_consistent(states, steps, at);
    lemma_switch_gives_head(states[0], last);
}

/// A later filesystem that has the active branch as it was gives it back.
proof fn lemma_switch_gives_head(before: StorageView, after: StorageView)
    requires
        consistent(before),
        consistent(after),
        past_kept(before.image, after.image),
        branch_at(after.image, before.active.branch.identifier) == Some(before.active.branch),
    ensures
        ({
            let home = before.active;
            let back = after.branch_switch(home.branch.name);
            &&& back is Some
            &&& (back->0).0 == home.branch.identifier
            &&& (back->0).1.branch == home.branch
            &&& (back->0).1.root == home.root
            &&& alike((back->0).1.namespace, home.namespace)
        }),
{
    reveal(past_kept);
    reveal(consistent);
    let home = before.active.branch;
    crate::indexes::lemma_switch_succeeds(after, home.name);
    assert(open_branch(after.image, home.identifier, home.name));
    lemma_state_stays(
        before.image.nodes,
        after.image.nodes,
        home.namespace_identifier,
        opened(before.image)->0.namespace(),
    );
}

} // verus!
