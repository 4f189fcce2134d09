//! The counters of a filesystem: the sequences from the first to the last one all have their event, the
//! tables carry the current version, and the numbers of new inodes start past the root directory.

use vstd::prelude::*;

use crate::branches::BranchCreation;
use crate::changes::ChangeView;
use crate::commit::{ActiveView, PayloadExtents};
use crate::database::{BatchView, Image};
use crate::durability::{
    contents_only, lemma_commit_rows, lemma_initial_metadata, lemma_metadata_keys,
    lemma_put_more_blobs, lemma_put_one_blob, lemma_put_one_row,
};
use crate::error::{FilesystemError, FuseError};
use crate::filesystem::{BranchPosition, EventSequence};
use crate::hash::Blobs;
use crate::inode::{InodeView, INODE_FIRST_ALLOCATED};
use crate::keys::{lemma_u64_round_trip, u64_key};
use crate::metadata::{
    active_branch_identifier_key, last_event_sequence_key, next_branch_identifier_key,
    next_inode_number_key, number_at, schema_version_key,
};
use crate::numbering::well_numbered;
use crate::opening::{initial_event, initial_rows, STORAGE_SCHEMA_VERSION_CURRENT};
use crate::storage::{PreparedView, StorageView};
use crate::success::{
    lemma_commit_gives_sequences, lemma_new_filesystem_gives_sequences, sequences_given,
};
use crate::trie::TriePlan;

verus! {

/// Every sequence up to the last one has its event.
pub open spec fn events_unbroken(storage: StorageView) -> bool {
    forall|number: u64|
        number <= storage.write.last_event_sequence ==> #[trigger]
        storage.image.events.contains_key(u64_key(number))
}

/// The tables carry the current version.
pub open spec fn schema_current(metadata: Blobs) -> bool {
    number_at(metadata, schema_version_key()) == Ok::<u64, FilesystemError>(
        STORAGE_SCHEMA_VERSION_CURRENT,
    )
}

/// The events have just the sequences from the first to the last one, the tables carry the current
/// version, and no new inode gets the number of the root directory.
pub open spec fn counted(storage: StorageView) -> bool {
    &&& sequences_given(storage)
    &&& events_unbroken(storage)
    &&& schema_current(storage.image.metadata)
    &&& storage.write.next_inode_number >= INODE_FIRST_ALLOCATED
}

proof fn lemma_schema_stays(metadata: Blobs, key: Seq<u8>, value: Seq<u8>)
    requires
        schema_current(metadata),
        key.len() != schema_version_key().len(),
    ensures
        schema_current(metadata.insert(key, value)),
{
}

/// A commit keeps the counters.
pub proof fn lemma_commit_keeps_count(
    storage: StorageView,
    change: ChangeView,
    rows: BatchView,
    payload: PayloadExtents,
    manifest: Option<Seq<u8>>,
    prepared: PreparedView,
)
    requires
        counted(storage),
        storage.write.sequence_to_give() == Ok::<EventSequence, FuseError>(change.event.sequence),
        storage.prepare(change, rows, payload, manifest) == Ok::<PreparedView, FuseError>(prepared),
        contents_only(rows),
        well_numbered(storage.namespace(), storage.write, change),
    ensures
        counted(storage.after(prepared)),
{
    let after = storage.after(prepared);
    let sequence = change.event.sequence.0;
    let metadata = storage.image.metadata;
    lemma_commit_rows(storage, change, rows, payload, manifest, prepared);
    lemma_commit_gives_sequences(storage, change, rows, payload, manifest, prepared);
    lemma_put_one_row(storage.image.events, u64_key(sequence), prepared.batch.events[0].1);
    assert forall|number: u64| number <= after.write.last_event_sequence implies #[trigger]
        after.image.events.contains_key(u64_key(number)) by {
        if number != sequence {
            assert(storage.image.events.contains_key(u64_key(number)));
        }
    }
    lemma_metadata_keys();
    lemma_put_one_blob(metadata, last_event_sequence_key(), u64_key(sequence));
    lemma_schema_stays(metadata, last_event_sequence_key(), u64_key(sequence));
    match change.next_inode_number {
        Some(next) => {
            lemma_put_more_blobs(
                metadata,
                seq![(last_event_sequence_key(), u64_key(sequence))],
                next_inode_number_key(),
                u64_key(next),
            );
            lemma_schema_stays(
                metadata.insert(last_event_sequence_key(), u64_key(sequence)),
                next_inode_number_key(),
                u64_key(next),
            );
        },
        None => {
            assert(prepared.batch.metadata =~= seq![(last_event_sequence_key(), u64_key(sequence))]);
        },
    }
}

/// Creating a branch keeps the counters.
pub proof fn lemma_creation_keeps_count(
    storage: StorageView,
    name: Seq<char>,
    from: BranchPosition,
    creation: BranchCreation,
)
    requires
        counted(storage),
        storage.branch_creation(name, from) == Some(creation),
    ensures
        counted(storage.after_creation(creation)),
{
    let after = storage.after_creation(creation);
    assert(after.image.events == storage.image.events);
    lemma_metadata_keys();
    lemma_put_one_blob(
        storage.image.metadata,
        next_branch_identifier_key(),
        u64_key(creation.next_branch_identifier),
    );
    lemma_schema_stays(
        storage.image.metadata,
        next_branch_identifier_key(),
        u64_key(creation.next_branch_identifier),
    );
}

/// Making a branch active keeps the counters.
pub proof fn lemma_switch_keeps_count(storage: StorageView, number: u64, active: ActiveView)
    requires
        counted(storage),
    ensures
        counted(storage.after_switch(StorageView::switch_rows(number), number, active)),
{
    let after = storage.after_switch(StorageView::switch_rows(number), number, active);
    assert(after.image.events == storage.image.events);
    lemma_metadata_keys();
    lemma_put_one_blob(
        storage.image.metadata,
        active_branch_identifier_key(),
        u64_key(number),
    );
    lemma_schema_stays(storage.image.metadata, active_branch_identifier_key(), u64_key(number));
}

/// Deleting a branch keeps the counters.
pub proof fn lemma_deletion_keeps_count(storage: StorageView, name: Seq<char>, batch: BatchView)
    requires
        counted(storage),
        storage.branch_deletion(name) == Some(batch),
    ensures
        counted(storage.after_deletion(batch)),
{
    let after = storage.after_deletion(batch);
    assert(after.image.events == storage.image.events);
    assert(after.image.metadata == storage.image.metadata);
}

/// A new filesystem has its first event and is counted.
pub proof fn lemma_new_filesystem_is_counted(
    storage: StorageView,
    plan: TriePlan,
    root: InodeView,
    created_at: time::UtcDateTime,
)
    requires
        storage.image == Image::nothing().after(initial_rows(plan, root, created_at)),
        storage.write.last_event_sequence == 0,
        storage.write.next_inode_number == INODE_FIRST_ALLOCATED,
    ensures
        counted(storage),
{
    lemma_new_filesystem_gives_sequences(storage, plan, root, created_at);
    lemma_put_one_row(Image::nothing().events, u64_key(0), initial_event(root, created_at));
    lemma_initial_metadata(
        initial_rows(plan, root, created_at).metadata,
        Image::nothing().metadata,
    );
    lemma_metadata_keys();
    lemma_u64_round_trip(0);
}

} // verus!
