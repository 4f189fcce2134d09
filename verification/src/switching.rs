//! Branches do not disturb each other: what is done on one leaves what a switch to another gives.

use vstd::prelude::*;

use crate::branches::{branch_at, number_of};
use crate::changes::ChangeView;
use crate::commit::{ActiveView, PayloadExtents};
use crate::database::BatchView;
use crate::durability::{
    all_kept, contents_only, lemma_commit_rows, lemma_kept_is_stored, lemma_put_one_row,
    lemma_state_stays, persisted,
};
use crate::error::FuseError;
use crate::files::{lemma_store_grows, uncollided};
use crate::indexes::{indexed, lemma_switch_succeeds, open_branch};
use crate::keys::{lemma_u64_key_injective, u64_key};
use crate::persist::stored_state;
use crate::states::alike;
use crate::storage::{PreparedView, StorageView};

verus! {

/// Switching to the active branch gives it as it is: the same branch and roots and a state that shows
/// the same.
pub proof fn lemma_switch_to_active(storage: StorageView)
    requires
        persisted(storage),
        indexed(storage),
    ensures
        ({
            let active = storage.active;
            let switched = storage.branch_switch(active.branch.name);
            &&& switched is Some
            &&& (switched->0).0 == active.branch.identifier
            &&& (switched->0).1.branch == active.branch
            &&& (switched->0).1.root == active.root
            &&& alike((switched->0).1.namespace, active.namespace)
        }),
{
    let active = storage.active;
    lemma_switch_succeeds(storage, active.branch.name);
    assert(open_branch(storage.image, active.branch.identifier, active.branch.name));
    assert(branch_at(storage.image, active.branch.identifier) is Some);
}

/// A commit leaves what a switch to any other branch gives.
pub proof fn lemma_commit_leaves_others(
    storage: StorageView,
    change: ChangeView,
    rows: BatchView,
    payload: PayloadExtents,
    manifest: Option<Seq<u8>>,
    prepared: PreparedView,
    name: Seq<char>,
)
    requires
        all_kept(storage.image, storage.write.next_inode_number),
        storage.prepare(change, rows, payload, manifest) == Ok::<PreparedView, FuseError>(prepared),
        contents_only(rows),
        uncollided(storage.image.nodes, prepared.batch.nodes),
        number_of(storage.image, name) != Some(storage.active.branch.identifier),
    ensures
        storage.after(prepared).branch_switch(name) == storage.branch_switch(name),
{
    let before = storage.image;
    let after = storage.after(prepared).image;
    lemma_commit_rows(storage, change, rows, payload, manifest, prepared);
    lemma_store_grows(before.nodes, prepared.batch.nodes);
    lemma_put_one_row(before.branches, u64_key(prepared.branch.identifier), prepared.branch);
    assert(after.branch_names == before.branch_names);
    if number_of(before, name) is Some {
        let number = number_of(before, name)->0;
        lemma_u64_key_injective(number, prepared.branch.identifier);
        assert(branch_at(after, number) == branch_at(before, number));
        if branch_at(before, number) is Some {
            let root = branch_at(before, number)->0.namespace_identifier;
            assert(before.branches.contains_key(u64_key(number)));
            lemma_kept_is_stored(before.nodes, root, storage.write.next_inode_number);
            lemma_state_stays(
                before.nodes,
                after.nodes,
                root,
                stored_state(before.nodes, root)->0,
            );
        }
    }
}

/// Making a branch active leaves what a switch to any branch gives.
pub proof fn lemma_switch_leaves_all(
    storage: StorageView,
    number: u64,
    active: ActiveView,
    name: Seq<char>,
)
    ensures
        storage.after_switch(StorageView::switch_rows(number), number, active).branch_switch(name)
            == storage.branch_switch(name),
{
    let before = storage.image;
    let after = storage.after_switch(StorageView::switch_rows(number), number, active).image;
    assert(after.branches == before.branches);
    assert(after.branch_names == before.branch_names);
    assert(after.nodes == before.nodes);
}

} // verus!
