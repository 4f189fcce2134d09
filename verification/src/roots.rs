//! The states that branches went through: every event of a branch has a state, the head of every branch
//! is the newest of its states, and the sequences of the states rise along the branch. So a branch can be
//! forked at every event.

use vstd::prelude::*;

use crate::branches::{branch_at, name_taken, named_branch, number_of, BranchCreation};
use crate::changes::ChangeView;
use crate::commit::{ActiveView, PayloadExtents};
use crate::database::{BatchView, BranchRootView, BranchView, Image};
use crate::durability::{contents_only, lemma_commit_rows, lemma_put_one_blob, lemma_put_one_row};
use crate::error::FuseError;
use crate::filesystem::{BranchIdentifier, BranchPosition, BranchStatus, EventSequence};
use crate::history::root_of;
use crate::indexes::{branch_in, indexed, ordinal_in};
use crate::inode::InodeView;
use crate::keys::{
    lemma_ordinal_round_trip, lemma_pair_key_order, lemma_u64_key_injective, lemma_u64_key_of,
    lemma_u64_round_trip, pair_key, u64_key, u64_of,
};
use crate::opening::{initial_branch, initial_rows};
use crate::pages::keys_sized;
use crate::states::{lemma_listed_insert, listed};
use crate::storage::{PreparedView, StorageView};
use crate::table::{lemma_listed_keys, listed_keys, lists_keys};
use crate::timeline::lemma_name_is_not_reused;
use crate::trie::TriePlan;

verus! {

/// The position of the head of a branch.
pub open spec fn head_of(branch: BranchView) -> BranchPosition {
    BranchPosition {
        branch_identifier: BranchIdentifier(branch.identifier),
        ordinal: branch.head_ordinal,
    }
}

/// The state that the head of a branch names.
pub open spec fn head_root(branch: BranchView) -> BranchRootView {
    BranchRootView {
        sequence: branch.head_sequence,
        namespace_identifier: branch.namespace_identifier,
    }
}

/// Every state of a branch can be read and lies at or before the head of the branch.
pub open spec fn roots_placed(image: Image) -> bool {
    forall|key: Seq<u8>| #[trigger]
        image.branch_roots.contains_key(key) ==> {
            &&& image.branch_roots[key] is Some
            &&& branch_at(image, branch_in(key).0) is Some
            &&& ordinal_in(key) <= branch_at(image, branch_in(key).0)->0.head_ordinal
        }
}

/// Every event of a branch left a state, which names the event.
pub open spec fn events_have_roots(image: Image) -> bool {
    forall|key: Seq<u8>| #[trigger]
        image.branch_events.contains_key(key) ==> {
            &&& image.branch_roots.contains_key(key)
            &&& image.branch_roots[key] is Some
            &&& image.branch_events[key] == u64_key(image.branch_roots[key]->0.sequence)
        }
}

/// The head of a branch, where there is one, is one of its states.
pub open spec fn head_filed(image: Image, number: u64) -> bool {
    branch_at(image, number) is Some ==> root_of(image, head_of(branch_at(image, number)->0))
        == Some(head_root(branch_at(image, number)->0))
}

/// The head of every branch is one of its states.
pub open spec fn heads_have_roots(image: Image) -> bool {
    forall|number: u64| #[trigger] head_filed(image, number)
}

/// Every event and the head of every branch has a state, and no state lies past a head.
pub open spec fn roots_filed(image: Image) -> bool {
    &&& listed(image.branch_roots)
    &&& keys_sized(image.branch_roots, 16)
    &&& roots_placed(image)
    &&& events_have_roots(image)
    &&& heads_have_roots(image)
}

/// Every stored branch has a number that was given out.
pub open spec fn branches_numbered(storage: StorageView) -> bool {
    forall|number: u64|
        (#[trigger] branch_at(storage.image, number)) is Some ==> number
            < storage.write.next_branch_identifier
}

/// The sequence of the state under a key.
pub open spec fn root_sequence(image: Image, key: Seq<u8>) -> u64 {
    image.branch_roots[key]->0.sequence
}

/// No state has a sequence that is still to be given.
pub open spec fn roots_given(storage: StorageView) -> bool {
    forall|key: Seq<u8>| #[trigger]
        storage.image.branch_roots.contains_key(key) ==> root_sequence(storage.image, key)
            <= storage.write.last_event_sequence
}

/// Along a branch the sequences of the states rise.
pub open spec fn roots_rise(image: Image) -> bool {
    forall|a: Seq<u8>, b: Seq<u8>|
        #![trigger image.branch_roots.contains_key(a), image.branch_roots.contains_key(b)]
        image.branch_roots.contains_key(a) && image.branch_roots.contains_key(b) && branch_in(a)
            == branch_in(b) && ordinal_in(a) < ordinal_in(b) ==> root_sequence(image, a)
            < root_sequence(image, b)
}

/// The states of all branches are filed, in order, under numbers and sequences that were given out.
pub open spec fn rooted_branches(storage: StorageView) -> bool {
    &&& roots_filed(storage.image)
    &&& branches_numbered(storage)
    &&& roots_given(storage)
    &&& roots_rise(storage.image)
}

/// A branch with a new head: its state is added, and so is its event where there is one.
proof fn lemma_head_added(before: Image, after: Image, branch: BranchView)
    requires
        roots_filed(before),
        branch_at(before, branch.identifier) is Some ==> branch_at(
            before,
            branch.identifier,
        )->0.head_ordinal < branch.head_ordinal,
        forall|number: u64|
            (#[trigger] branch_at(before, number)) is Some ==> branch_at(
                before,
                number,
            )->0.identifier == number,
        after.branches == before.branches.insert(u64_key(branch.identifier), Some(branch)),
        after.branch_roots == before.branch_roots.insert(
            pair_key(branch.identifier, branch.head_ordinal),
            Some(head_root(branch)),
        ),
        after.branch_events == before.branch_events || after.branch_events
            == before.branch_events.insert(
            pair_key(branch.identifier, branch.head_ordinal),
            u64_key(branch.head_sequence),
        ),
    ensures
        roots_filed(after),
        !before.branch_roots.contains_key(pair_key(branch.identifier, branch.head_ordinal)),
{
    let id = branch.identifier;
    let new_key = pair_key(id, branch.head_ordinal);
    lemma_u64_round_trip(id);
    lemma_ordinal_round_trip(id, branch.head_ordinal);
    assert(new_key.take(8) =~= u64_key(id));
    assert(branch_in(new_key) == BranchIdentifier(id));
    assert(ordinal_in(new_key) == branch.head_ordinal);
    lemma_listed_insert(before.branch_roots, new_key, Some(head_root(branch)));
    assert(branch_at(after, id) == Some(branch));
    assert forall|number: u64| number != id implies #[trigger] branch_at(after, number)
        == branch_at(before, number) by {
        lemma_u64_key_injective(number, id);
    }
    assert forall|key: Seq<u8>| #[trigger] after.branch_roots.contains_key(key) implies {
        &&& after.branch_roots[key] is Some
        &&& branch_at(after, branch_in(key).0) is Some
        &&& ordinal_in(key) <= branch_at(after, branch_in(key).0)->0.head_ordinal
    } by {
        if key != new_key {
            assert(before.branch_roots.contains_key(key));
            if branch_in(key).0 != id {
                assert(branch_at(after, branch_in(key).0) == branch_at(before, branch_in(key).0));
            }
        }
    }
    assert forall|key: Seq<u8>| #[trigger] after.branch_events.contains_key(key) implies {
        &&& after.branch_roots.contains_key(key)
        &&& after.branch_roots[key] is Some
        &&& after.branch_events[key] == u64_key(after.branch_roots[key]->0.sequence)
    } by {
        if key != new_key {
            assert(before.branch_events.contains_key(key));
        } else if before.branch_events.contains_key(key) {
            assert(before.branch_roots.contains_key(key));
        }
    }
    assert forall|number: u64| #[trigger] head_filed(after, number) by {
        assert(head_filed(before, number));
        if number != id && branch_at(before, number) is Some {
            let other = branch_at(before, number)->0;
            lemma_pair_key_order(other.identifier, other.head_ordinal, id, branch.head_ordinal);
        }
    }
}

/// A state past all others of its branch, with a sequence past theirs, keeps the order of the sequences.
proof fn lemma_root_rises(before: Image, after: Image, key: Seq<u8>, root: BranchRootView)
    requires
        roots_rise(before),
        !before.branch_roots.contains_key(key),
        after.branch_roots == before.branch_roots.insert(key, Some(root)),
        forall|other: Seq<u8>| #[trigger]
            before.branch_roots.contains_key(other) && branch_in(other) == branch_in(key)
                ==> ordinal_in(other) < ordinal_in(key) && root_sequence(before, other)
                < root.sequence,
    ensures
        roots_rise(after),
{
    assert forall|a: Seq<u8>, b: Seq<u8>|
        #![trigger after.branch_roots.contains_key(a), after.branch_roots.contains_key(b)]
        after.branch_roots.contains_key(a) && after.branch_roots.contains_key(b) && branch_in(a)
            == branch_in(b) && ordinal_in(a) < ordinal_in(b) implies root_sequence(after, a)
        < root_sequence(after, b) by {
        if a != key {
            assert(before.branch_roots.contains_key(a));
        }
        if b != key {
            assert(before.branch_roots.contains_key(b));
        }
    }
}

/// A commit keeps the states filed and in order.
pub proof fn lemma_commit_keeps_roots(
    storage: StorageView,
    change: ChangeView,
    rows: BatchView,
    payload: PayloadExtents,
    manifest: Option<Seq<u8>>,
    prepared: PreparedView,
)
    requires
        indexed(storage),
        rooted_branches(storage),
        storage.write.sequence_to_give() == Ok::<EventSequence, FuseError>(change.event.sequence),
        storage.prepare(change, rows, payload, manifest) == Ok::<PreparedView, FuseError>(prepared),
        contents_only(rows),
    ensures
        rooted_branches(storage.after(prepared)),
{
    lemma_commit_rows(storage, change, rows, payload, manifest, prepared);
    let before = storage.image;
    let after = storage.after(prepared).image;
    let branch = prepared.branch;
    let key = pair_key(branch.identifier, branch.head_ordinal);
    lemma_put_one_row(before.branches, u64_key(branch.identifier), branch);
    lemma_put_one_row(before.branch_roots, key, head_root(branch));
    lemma_put_one_blob(before.branch_events, key, u64_key(branch.head_sequence));
    lemma_branches_placed(storage);
    lemma_head_added(before, after, branch);
    lemma_u64_round_trip(branch.identifier);
    lemma_ordinal_round_trip(branch.identifier, branch.head_ordinal);
    assert(key.take(8) =~= u64_key(branch.identifier));
    assert forall|other: Seq<u8>| #[trigger]
        before.branch_roots.contains_key(other) && branch_in(other) == branch_in(key) implies
        ordinal_in(other) < ordinal_in(key) && root_sequence(before, other)
        < branch.head_sequence by {
    }
    lemma_root_rises(before, after, key, head_root(branch));
    assert forall|other: Seq<u8>| #[trigger] after.branch_roots.contains_key(other) implies
        root_sequence(after, other) <= storage.after(prepared).write.last_event_sequence by {
        if other != key {
            assert(before.branch_roots.contains_key(other));
        }
    }
    assert forall|number: u64| (#[trigger] branch_at(after, number)) is Some implies number
        < storage.after(prepared).write.next_branch_identifier by {
        lemma_u64_key_injective(number, branch.identifier);
        assert(branch_at(before, number) is Some);
    }
}

/// Every stored branch carries its own number.
pub proof fn lemma_branches_placed(storage: StorageView)
    requires
        indexed(storage),
    ensures
        forall|number: u64|
            (#[trigger] branch_at(storage.image, number)) is Some ==> branch_at(
                storage.image,
                number,
            )->0.identifier == number,
{
    assert forall|number: u64|
        (#[trigger] branch_at(storage.image, number)) is Some implies branch_at(
        storage.image,
        number,
    )->0.identifier == number by {
        assert(storage.image.branches.contains_key(u64_key(number)));
        lemma_u64_round_trip(number);
    }
}

/// Creating a branch keeps the states filed and in order.
pub proof fn lemma_creation_keeps_roots(
    storage: StorageView,
    name: Seq<char>,
    from: BranchPosition,
    creation: BranchCreation,
)
    requires
        indexed(storage),
        rooted_branches(storage),
        storage.branch_creation(name, from) == Some(creation),
    ensures
        rooted_branches(storage.after_creation(creation)),
{
    let before = storage.image;
    let after = storage.after_creation(creation).image;
    let branch = creation.branch;
    let root = root_of(before, from)->0;
    let key = pair_key(branch.identifier, branch.head_ordinal);
    lemma_put_one_row(before.branches, u64_key(branch.identifier), branch);
    lemma_put_one_row(before.branch_roots, key, root);
    assert(root == head_root(branch));
    assert(after.branch_events == before.branch_events);
    lemma_branches_placed(storage);
    lemma_head_added(before, after, branch);
    lemma_u64_round_trip(branch.identifier);
    lemma_ordinal_round_trip(branch.identifier, branch.head_ordinal);
    assert(key.take(8) =~= u64_key(branch.identifier));
    assert forall|other: Seq<u8>| #[trigger]
        before.branch_roots.contains_key(other) && branch_in(other) == branch_in(key) implies
        ordinal_in(other) < ordinal_in(key) && root_sequence(before, other) < root.sequence by {
        assert(branch_at(before, branch.identifier) is Some);
    }
    lemma_root_rises(before, after, key, root);
    let from_key = pair_key(from.branch_identifier.0, from.ordinal);
    assert(before.branch_roots.contains_key(from_key));
    assert forall|other: Seq<u8>| #[trigger] after.branch_roots.contains_key(other) implies
        root_sequence(after, other) <= storage.write.last_event_sequence by {
        if other != key {
            assert(before.branch_roots.contains_key(other));
        }
    }
    assert forall|number: u64| (#[trigger] branch_at(after, number)) is Some implies number
        < creation.next_branch_identifier by {
        lemma_u64_key_injective(number, branch.identifier);
        if number != branch.identifier {
            assert(branch_at(before, number) is Some);
        }
    }
}

/// The same states and events, and branches with the same heads, are filed alike.
proof fn lemma_roots_stay(before: Image, after: Image)
    requires
        roots_filed(before),
        after.branch_roots == before.branch_roots,
        after.branch_events == before.branch_events,
        forall|number: u64|
            (#[trigger] branch_at(after, number)) is Some <==> branch_at(before, number) is Some,
        forall|number: u64|
            (#[trigger] branch_at(after, number)) is Some ==> head_of(branch_at(after, number)->0)
                == head_of(branch_at(before, number)->0) && head_root(branch_at(after, number)->0)
                == head_root(branch_at(before, number)->0),
    ensures
        roots_filed(after),
{
    assert forall|key: Seq<u8>| #[trigger] after.branch_roots.contains_key(key) implies {
        &&& after.branch_roots[key] is Some
        &&& branch_at(after, branch_in(key).0) is Some
        &&& ordinal_in(key) <= branch_at(after, branch_in(key).0)->0.head_ordinal
    } by {
        assert(before.branch_roots.contains_key(key));
        assert(branch_at(after, branch_in(key).0) is Some);
    }
    assert forall|key: Seq<u8>| #[trigger] after.branch_events.contains_key(key) implies {
        &&& after.branch_roots.contains_key(key)
        &&& after.branch_roots[key] is Some
        &&& after.branch_events[key] == u64_key(after.branch_roots[key]->0.sequence)
    } by {
        assert(before.branch_events.contains_key(key));
    }
    assert forall|number: u64| #[trigger] head_filed(after, number) by {
        assert(head_filed(before, number));
    }
}

proof fn lemma_rise_stays(before: Image, after: Image)
    requires
        roots_rise(before),
        after.branch_roots == before.branch_roots,
    ensures
        roots_rise(after),
{
    assert forall|a: Seq<u8>, b: Seq<u8>|
        #![trigger after.branch_roots.contains_key(a), after.branch_roots.contains_key(b)]
        after.branch_roots.contains_key(a) && after.branch_roots.contains_key(b) && branch_in(a)
            == branch_in(b) && ordinal_in(a) < ordinal_in(b) implies root_sequence(after, a)
        < root_sequence(after, b) by {
        assert(before.branch_roots.contains_key(a) && before.branch_roots.contains_key(b));
    }
}

/// Making a branch active keeps the states filed and in order.
pub proof fn lemma_switch_keeps_roots(storage: StorageView, number: u64, active: ActiveView)
    requires
        rooted_branches(storage),
    ensures
        rooted_branches(storage.after_switch(StorageView::switch_rows(number), number, active)),
{
    let before = storage.image;
    let switched = storage.after_switch(StorageView::switch_rows(number), number, active);
    let after = switched.image;
    assert(after.branches == before.branches);
    assert(after.branch_roots == before.branch_roots);
    assert(after.branch_events == before.branch_events);
    assert forall|other: u64| #[trigger] branch_at(after, other) == branch_at(before, other) by {}
    lemma_roots_stay(before, after);
    lemma_rise_stays(before, after);
    assert forall|key: Seq<u8>| #[trigger] after.branch_roots.contains_key(key) implies
        root_sequence(after, key) <= switched.write.last_event_sequence by {
        assert(before.branch_roots.contains_key(key));
    }
}

/// A branch with another status has the same head.
proof fn lemma_status_changed(
    before: StorageView,
    after: StorageView,
    branch: BranchView,
    status: BranchStatus,
)
    requires
        rooted_branches(before),
        after.write == before.write,
        branch_at(before.image, branch.identifier) == Some(branch),
        after.image.branches == before.image.branches.insert(
            u64_key(branch.identifier),
            Some(BranchView { status, ..branch }),
        ),
        after.image.branch_roots == before.image.branch_roots,
        after.image.branch_events == before.image.branch_events,
    ensures
        rooted_branches(after),
{
    assert forall|other: u64| #![trigger branch_at(after.image, other)]
        other != branch.identifier implies branch_at(after.image, other) == branch_at(
        before.image,
        other,
    ) by {
        lemma_u64_key_injective(other, branch.identifier);
    }
    lemma_roots_stay(before.image, after.image);
    lemma_rise_stays(before.image, after.image);
    assert forall|other: Seq<u8>| #[trigger] after.image.branch_roots.contains_key(other) implies
        root_sequence(after.image, other) <= after.write.last_event_sequence by {
        assert(before.image.branch_roots.contains_key(other));
    }
    assert forall|other: u64| (#[trigger] branch_at(after.image, other)) is Some implies other
        < after.write.next_branch_identifier by {
        assert(branch_at(before.image, other) is Some);
    }
}

/// Deleting a branch keeps the states filed and in order.
pub proof fn lemma_deletion_keeps_roots(storage: StorageView, name: Seq<char>, batch: BatchView)
    requires
        rooted_branches(storage),
        storage.branch_deletion(name) == Some(batch),
    ensures
        rooted_branches(storage.after_deletion(batch)),
{
    let number = number_of(storage.image, name)->0;
    let branch = branch_at(storage.image, number)->0;
    lemma_put_one_row(
        storage.image.branches,
        u64_key(number),
        BranchView { status: BranchStatus::Deleted, ..branch },
    );
    lemma_status_changed(
        storage,
        storage.after_deletion(batch),
        branch,
        BranchStatus::Deleted,
    );
}

/// The states of a new filesystem are filed and in order.
pub proof fn lemma_new_filesystem_has_roots(
    storage: StorageView,
    plan: TriePlan,
    root: InodeView,
    created_at: time::UtcDateTime,
)
    requires
        storage.image == Image::nothing().after(initial_rows(plan, root, created_at)),
        storage.write.next_branch_identifier == 2,
    ensures
        rooted_branches(storage),
{
    let none = Image::nothing();
    let image = storage.image;
    let branch = initial_branch(plan.identifier);
    let key = pair_key(branch.identifier, 0);
    assert(lists_keys(Seq::<Seq<u8>>::empty(), none.branch_roots));
    lemma_listed_keys(Seq::<Seq<u8>>::empty(), none.branch_roots);
    lemma_put_one_row(none.branches, u64_key(branch.identifier), branch);
    lemma_put_one_row(none.branch_roots, key, head_root(branch));
    lemma_put_one_blob(none.branch_events, key, u64_key(0));
    lemma_head_added(none, image, branch);
    lemma_root_rises(none, image, key, head_root(branch));
    assert forall|number: u64| (#[trigger] branch_at(image, number)) is Some implies number < 2 by {
        lemma_u64_key_injective(number, branch.identifier);
    }
}

/// No stored branch, be it open or deleted, carries a name.
pub open spec fn name_unused(image: Image, name: Seq<char>) -> bool {
    forall|number: u64|
        (#[trigger] branch_at(image, number)) is Some ==> branch_at(image, number)->0.name != name
}

/// A position of a branch can be forked: the branch is open, and the position is its head or that of one
/// of its events.
pub open spec fn forkable(image: Image, from: BranchPosition) -> bool {
    let source = branch_at(image, from.branch_identifier.0);
    &&& source is Some
    &&& source->0.status == BranchStatus::Open
    &&& from == head_of(source->0) || image.branch_events.contains_key(
        pair_key(from.branch_identifier.0, from.ordinal),
    )
}

proof fn lemma_name_not_taken(image: Image, name: Seq<char>, keys: Seq<Seq<u8>>)
    requires
        forall|i: int|
            0 <= i < keys.len() ==> (#[trigger] keys[i]).len() == 8 && image.branches[keys[i]] is Some
                && image.branches[keys[i]]->0.name != name,
    ensures
        name_taken(image, name, keys) == Some(false),
    decreases keys.len(),
{
    if keys.len() > 0 {
        let rest = keys.skip(1);
        assert(keys[0].len() == 8);
        assert forall|i: int| 0 <= i < rest.len() implies (#[trigger] rest[i]).len() == 8
            && image.branches[rest[i]] is Some && image.branches[rest[i]]->0.name != name by {
            assert(rest[i] == keys[i + 1]);
        }
        lemma_name_not_taken(image, name, rest);
    }
}

/// A branch can be created just where its name is new, the source is open, and the position is the head
/// of the source or that of one of its events, as long as there is a number left.
pub proof fn lemma_creation_succeeds(storage: StorageView, name: Seq<char>, from: BranchPosition)
    requires
        indexed(storage),
        rooted_branches(storage),
    ensures
        storage.branch_creation(name, from) is Some <==> name_unused(storage.image, name)
            && forkable(storage.image, from) && storage.write.next_branch_identifier < u64::MAX,
{
    let image = storage.image;
    let number = storage.write.next_branch_identifier;
    let from_key = pair_key(from.branch_identifier.0, from.ordinal);
    let keys = listed_keys(image.branches);
    lemma_branches_placed(storage);
    lemma_u64_round_trip(from.branch_identifier.0);
    lemma_ordinal_round_trip(from.branch_identifier.0, from.ordinal);
    assert(from_key.take(8) =~= u64_key(from.branch_identifier.0));
    if storage.branch_creation(name, from) is Some {
        assert forall|other: u64| (#[trigger] branch_at(image, other)) is Some implies branch_at(
            image,
            other,
        )->0.name != name by {
            if branch_at(image, other)->0.name == name {
                lemma_name_is_not_reused(storage, other, name, from, keys);
            }
        }
    }
    if name_unused(image, name) && forkable(image, from) && number < u64::MAX {
        assert forall|i: int| 0 <= i < keys.len() implies (#[trigger] keys[i]).len() == 8
            && image.branches[keys[i]] is Some && image.branches[keys[i]]->0.name != name by {
            assert(image.branches.contains_key(keys[i]));
            assert(named_branch(image, keys[i]) is Some);
            lemma_u64_key_of(keys[i]);
            assert(branch_at(image, u64_of(keys[i])) is Some);
        }
        lemma_name_not_taken(image, name, keys);
        assert(!image.branches.contains_key(u64_key(number))) by {
            if image.branches.contains_key(u64_key(number)) {
                assert(named_branch(image, u64_key(number)) is Some);
                assert(branch_at(image, number) is Some);
            }
        }
        let source = branch_at(image, from.branch_identifier.0)->0;
        assert(image.branches.contains_key(u64_key(from.branch_identifier.0)));
        assert(named_branch(image, u64_key(from.branch_identifier.0)) is Some);
        assert(head_filed(image, from.branch_identifier.0));
        if from != head_of(source) {
            assert(image.branch_events.contains_key(from_key));
            assert(image.branch_roots.contains_key(from_key));
            lemma_u64_round_trip(image.branch_roots[from_key]->0.sequence);
        }
    }
}

} // verus!
