//! What becomes of branches: a new one starts where it was forked off, a deleted one is marked and
//! loses its name, and no other branch changes.

use vstd::prelude::*;

use crate::branches::{branch_at, describes, number_of, BranchCreation};
use crate::commit::ActiveView;
use crate::database::{BatchView, BranchView};
use crate::durability::{lemma_put_one_blob, lemma_put_one_row};
use crate::filesystem::{BranchIdentifier, BranchPosition, BranchRecord, BranchStatus};
use crate::history::root_of;
use crate::keys::{lemma_u64_key_injective, lemma_u64_round_trip, pair_key, u64_key};
use crate::storage::StorageView;

verus! {

proof fn lemma_names_differ(name: Seq<char>, other: Seq<char>)
    requires
        name != other,
    ensures
        vstd::utf8::encode_utf8(name) != vstd::utf8::encode_utf8(other),
{
    vstd::utf8::encode_utf8_decode_utf8(name);
    vstd::utf8::encode_utf8_decode_utf8(other);
}

/// A new branch has the next number and the name that was asked for, is open, and starts with the head
/// and the state of the position that it was forked off, which it remembers. The next branch gets the
/// number after it. Other branches, their names and the active branch stay.
pub proof fn lemma_fork_is_recorded(
    storage: StorageView,
    name: Seq<char>,
    from: BranchPosition,
    creation: BranchCreation,
    other: u64,
    other_name: Seq<char>,
)
    requires
        storage.branch_creation(name, from) == Some(creation),
    ensures
        ({
            let after = storage.after_creation(creation);
            let number = storage.write.next_branch_identifier;
            let branch = branch_at(after.image, number)->0;
            let start = BranchPosition {
                branch_identifier: BranchIdentifier(number),
                ordinal: from.ordinal,
            };
            &&& branch_at(storage.image, number) is None
            &&& number_of(after.image, name) == Some(number)
            &&& branch_at(after.image, number) is Some
            &&& branch.identifier == number
            &&& branch.name == name
            &&& branch.status == BranchStatus::Open
            &&& branch.head_ordinal == from.ordinal
            &&& root_of(storage.image, from) is Some
            &&& branch.head_sequence == root_of(storage.image, from)->0.sequence
            &&& branch.namespace_identifier == root_of(
                storage.image,
                from,
            )->0.namespace_identifier
            &&& branch.fork_branch_identifier == Some(from.branch_identifier.0)
            &&& branch.fork_ordinal == Some(from.ordinal)
            &&& creation.branch == branch
            &&& root_of(after.image, start) == root_of(storage.image, from)
            &&& after.write.next_branch_identifier == number + 1
            &&& after.active == storage.active
            &&& after.image.events == storage.image.events
            &&& after.image.nodes == storage.image.nodes
            &&& other != number ==> branch_at(after.image, other) == branch_at(
                storage.image,
                other,
            )
            &&& other_name != name ==> number_of(after.image, other_name) == number_of(
                storage.image,
                other_name,
            )
        }),
{
    let after = storage.after_creation(creation);
    let number = storage.write.next_branch_identifier;
    let root = root_of(storage.image, from)->0;
    lemma_put_one_row(storage.image.branches, u64_key(number), creation.branch);
    lemma_put_one_row(storage.image.branch_roots, pair_key(number, from.ordinal), root);
    lemma_put_one_blob(
        storage.image.branch_names,
        vstd::utf8::encode_utf8(name),
        u64_key(number),
    );
    lemma_u64_round_trip(number);
    if other != number && u64_key(other) == u64_key(number) {
        lemma_u64_key_injective(other, number);
    }
    if other_name != name {
        lemma_names_differ(name, other_name);
    }
    assert(after.image.branch_names == storage.image.branch_names.insert(
        vstd::utf8::encode_utf8(name),
        u64_key(number),
    ));
}

/// A deleted branch keeps its number, its head and its state, is marked as deleted, and is no longer
/// found under its name. It was neither the first nor the active one. Other branches, their names, all
/// events and all states stay.
pub proof fn lemma_deletion_is_recorded(
    storage: StorageView,
    name: Seq<char>,
    batch: BatchView,
    other: u64,
    other_name: Seq<char>,
)
    requires
        storage.branch_deletion(name) == Some(batch),
    ensures
        ({
            let after = storage.after_deletion(batch);
            let number = number_of(storage.image, name)->0;
            &&& number_of(storage.image, name) is Some
            &&& number != 1
            &&& number != storage.write.active_branch_identifier
            &&& branch_at(storage.image, number) is Some
            &&& branch_at(storage.image, number)->0.status == BranchStatus::Open
            &&& branch_at(after.image, number) == Some(
                BranchView { status: BranchStatus::Deleted, ..branch_at(storage.image, number)->0 },
            )
            &&& number_of(after.image, name) is None
            &&& after.active == storage.active
            &&& after.write == storage.write
            &&& after.image.events == storage.image.events
            &&& after.image.nodes == storage.image.nodes
            &&& after.image.branch_roots == storage.image.branch_roots
            &&& other != number ==> branch_at(after.image, other) == branch_at(
                storage.image,
                other,
            )
            &&& other_name != name ==> number_of(after.image, other_name) == number_of(
                storage.image,
                other_name,
            )
        }),
{
    let after = storage.after_deletion(batch);
    let number = number_of(storage.image, name)->0;
    let key = vstd::utf8::encode_utf8(name);
    let branch = branch_at(storage.image, number)->0;
    lemma_put_one_row(
        storage.image.branches,
        u64_key(number),
        BranchView { status: BranchStatus::Deleted, ..branch },
    );
    assert(batch.branch_name_deletes.drop_last() =~= Seq::<Seq<u8>>::empty());
    assert(crate::database::remove_keys_of(
        storage.image.branch_names,
        batch.branch_name_deletes.drop_last(),
    ) == storage.image.branch_names);
    assert(batch.branch_name_deletes.last() == key);
    assert(after.image.branch_names == storage.image.branch_names.remove(key));
    if other != number && u64_key(other) == u64_key(number) {
        lemma_u64_key_injective(other, number);
    }
    if other_name != name {
        lemma_names_differ(name, other_name);
    }
}

/// Making a branch active gives the branch that has the name, which is open, its head and the state of
/// its head. No branch, event or state changes.
pub proof fn lemma_switch_is_recorded(
    storage: StorageView,
    name: Seq<char>,
    number: u64,
    active: ActiveView,
)
    requires
        storage.branch_switch(name) == Some((number, active)),
    ensures
        ({
            let after = storage.after_switch(StorageView::switch_rows(number), number, active);
            &&& number_of(storage.image, name) == Some(number)
            &&& branch_at(storage.image, number) == Some(active.branch)
            &&& active.branch.status == BranchStatus::Open
            &&& after.active.branch == active.branch
            &&& after.write.active_branch_identifier == number
            &&& after.write.active_branch_head_sequence == active.branch.head_sequence
            &&& after.write.active_branch_head_ordinal == active.branch.head_ordinal
            &&& after.write.last_event_sequence == storage.write.last_event_sequence
            &&& after.write.next_inode_number == storage.write.next_inode_number
            &&& after.write.next_branch_identifier == storage.write.next_branch_identifier
            &&& after.image.branches == storage.image.branches
            &&& after.image.branch_names == storage.image.branch_names
            &&& after.image.events == storage.image.events
            &&& after.image.nodes == storage.image.nodes
        }),
{
}

/// A record tells the number, name, state and head of the branch that it describes.
pub proof fn lemma_record_tells(record: BranchRecord, branch: BranchView)
    requires
        describes(record, branch),
    ensures
        record.branch_identifier.0 == branch.identifier,
        record.name@ == branch.name,
        record.status == branch.status,
        record.head_position.branch_identifier.0 == branch.identifier,
        record.head_position.ordinal == branch.head_ordinal,
        record.head_sequence.0 == branch.head_sequence,
{
}

} // verus!
