//! Snapshots and states: every snapshot has what the state right after its event has of the file. So the
//! snapshot found at or before a sequence is the newest one there, and it is found again at its own
//! position.

use vstd::prelude::*;

use crate::branches::BranchCreation;
use crate::bytes::{bytes_before, has_prefix};
use crate::changes::ChangeView;
use crate::commit::{leaves_snapshot, next_position, snapshot_size, ActiveView, PayloadExtents};
use crate::database::{BatchView, Image, SnapshotView};
use crate::durability::{contents_only, lemma_commit_rows, lemma_put_one_row, persisted};
use crate::error::{FilesystemError, FuseError};
use crate::files::uncollided;
use crate::filesystem::{BranchIdentifier, BranchPosition, FileIdentifier, FileSnapshot};
use crate::history::{
    contents_at, keys_up_to, root_of, root_walk, snapshot_at, snapshot_by_position,
    snapshot_by_sequence, snapshot_in_root, snapshot_walk,
};
use crate::indexes::{branch_in, file_in, file_ordinal_in, indexed, ordinal_in};
use crate::inode::{InodeView, StoredNodeKind};
use crate::keys::{
    lemma_ordinal_round_trip, lemma_pair_key_order, lemma_triple_key_order, lemma_triple_round_trip,
    lemma_u64_round_trip, pair_key, triple_key, u64_key,
};
use crate::namespace::{inode_after, Namespace};
use crate::numbering::well_numbered;
use crate::opening::initial_rows;
use crate::pages::{keys_sized, lemma_pair_of, lemma_triple_of};
use crate::persist::stored_state;
use crate::roots::{rooted_branches, roots_filed, roots_rise};
use crate::snapshots::{lemma_between, lemma_up_to, lemma_up_to_key};
use crate::states::{lemma_listed_insert, listed};
use crate::storage::{PreparedView, StorageView};
use crate::table::{lemma_listed_keys, listed_keys, lists_keys, sorted_keys};
use crate::timeline::{lemma_past_is_kept, lemma_state_is_recorded};
use crate::trie::TriePlan;

verus! {

/// The position that a key of the snapshot table names.
pub open spec fn snapshot_position(key: Seq<u8>) -> BranchPosition {
    BranchPosition { branch_identifier: branch_in(key), ordinal: file_ordinal_in(key) }
}

/// A snapshot is what the state at its position has of the file.
pub open spec fn snapshot_filed(image: Image, key: Seq<u8>) -> bool {
    let root = root_of(image, snapshot_position(key));
    &&& image.snapshots[key] is Some
    &&& root is Some
    &&& snapshot_in_root(image, file_in(key), root->0) == Ok::<
        Option<SnapshotView>,
        FilesystemError,
    >(image.snapshots[key])
}

/// Every snapshot is what the state at its position has of the file.
pub open spec fn snapshots_filed(image: Image) -> bool {
    &&& listed(image.snapshots)
    &&& keys_sized(image.snapshots, 24)
    &&& forall|key: Seq<u8>| #[trigger]
        image.snapshots.contains_key(key) ==> snapshot_filed(image, key)
}

/// The size and the manifest with which a change leaves a snapshot are those of the file after it.
pub open spec fn snapshot_follows(
    namespace: Namespace,
    change: ChangeView,
    manifest: Option<Seq<u8>>,
) -> bool {
    leaves_snapshot(change.event.kind) && change.event.file_identifier is Some ==> {
        let number = (change.event.file_identifier->0).0;
        let inode = namespace.after(change.mutation).inode(number);
        &&& inode is Some
        &&& inode->0.kind == StoredNodeKind::RegularFile
        &&& inode->0.size == snapshot_size(change.event)
        &&& inode_after(namespace, change.mutation, number) == inode
        &&& manifest is Some ==> inode->0.content_manifest_identifier == manifest
    }
}

proof fn lemma_snapshot_key(branch: u64, file: u64, ordinal: u64)
    ensures
        ({
            let key = triple_key(branch, file, ordinal);
            &&& key.len() == 24
            &&& branch_in(key) == BranchIdentifier(branch)
            &&& file_in(key) == FileIdentifier(file)
            &&& file_ordinal_in(key) == ordinal
            &&& has_prefix(key, pair_key(branch, file))
        }),
{
    let key = triple_key(branch, file, ordinal);
    lemma_triple_round_trip(branch, file, ordinal);
    assert(key.take(16) =~= pair_key(branch, file));
}

/// A snapshot stays what its state has.
proof fn lemma_snapshot_stays(before: Image, after: Image, key: Seq<u8>)
    requires
        snapshot_filed(before, key),
        after.snapshots[key] == before.snapshots[key],
        root_of(after, snapshot_position(key)) == root_of(before, snapshot_position(key)),
        stored_state(
            after.nodes,
            root_of(before, snapshot_position(key))->0.namespace_identifier,
        ) == stored_state(
            before.nodes,
            root_of(before, snapshot_position(key))->0.namespace_identifier,
        ),
    ensures
        snapshot_filed(after, key),
{
}

/// The snapshot that a commit leaves is what its state has of the file.
proof fn lemma_left_snapshot_filed(
    storage: StorageView,
    change: ChangeView,
    rows: BatchView,
    payload: PayloadExtents,
    manifest: Option<Seq<u8>>,
    prepared: PreparedView,
    file: FileIdentifier,
)
    requires
        persisted(storage),
        storage.prepare(change, rows, payload, manifest) == Ok::<PreparedView, FuseError>(prepared),
        contents_only(rows),
        storage.stores_state(change.mutation),
        well_numbered(storage.namespace(), storage.write, change),
        uncollided(storage.image.nodes, prepared.batch.nodes),
        snapshot_follows(storage.namespace(), change, manifest),
        leaves_snapshot(change.event.kind),
        change.event.file_identifier == Some(file),
    ensures
        ({
            let position = next_position(storage.active);
            let key = triple_key(position.branch_identifier.0, file.0, position.ordinal);
            &&& prepared.batch.snapshots.len() == 1
            &&& prepared.batch.snapshots[0].0 == key
            &&& storage.after(prepared).image.snapshots == storage.image.snapshots.insert(
                key,
                Some(prepared.batch.snapshots[0].1),
            )
            &&& snapshot_filed(storage.after(prepared).image, key)
        }),
{
    let after = storage.after(prepared);
    let position = next_position(storage.active);
    let key = triple_key(position.branch_identifier.0, file.0, position.ordinal);
    lemma_commit_rows(storage, change, rows, payload, manifest, prepared);
    lemma_snapshot_key(position.branch_identifier.0, file.0, position.ordinal);
    lemma_state_is_recorded(storage, change, rows, payload, manifest, prepared);
    let row = prepared.batch.snapshots[0].1;
    assert(prepared.batch.snapshots =~= seq![(key, row)]);
    lemma_put_one_row(storage.image.snapshots, key, row);
    let root = root_of(after.image, position)->0;
    let state = stored_state(after.image.nodes, root.namespace_identifier)->0;
    assert(state.inode(file.0) == after.namespace().inode(file.0));
}

/// A commit keeps every snapshot what its state has of the file.
pub proof fn lemma_commit_keeps_snapshots(
    storage: StorageView,
    change: ChangeView,
    rows: BatchView,
    payload: PayloadExtents,
    manifest: Option<Seq<u8>>,
    prepared: PreparedView,
)
    requires
        persisted(storage),
        indexed(storage),
        rooted_branches(storage),
        snapshots_filed(storage.image),
        storage.prepare(change, rows, payload, manifest) == Ok::<PreparedView, FuseError>(prepared),
        contents_only(rows),
        storage.stores_state(change.mutation),
        well_numbered(storage.namespace(), storage.write, change),
        uncollided(storage.image.nodes, prepared.batch.nodes),
        snapshot_follows(storage.namespace(), change, manifest),
    ensures
        snapshots_filed(storage.after(prepared).image),
{
    let before = storage.image;
    let after = storage.after(prepared).image;
    let position = next_position(storage.active);
    lemma_commit_rows(storage, change, rows, payload, manifest, prepared);
    let left = leaves_snapshot(change.event.kind) && change.event.file_identifier is Some;
    let file = change.event.file_identifier->0;
    let new_key = triple_key(position.branch_identifier.0, file.0, position.ordinal);
    if left {
        lemma_left_snapshot_filed(storage, change, rows, payload, manifest, prepared, file);
        lemma_listed_insert(before.snapshots, new_key, Some(prepared.batch.snapshots[0].1));
        lemma_snapshot_key(position.branch_identifier.0, file.0, position.ordinal);
    } else {
        assert(prepared.batch.snapshots =~= Seq::<(Seq<u8>, SnapshotView)>::empty());
        assert(after.snapshots == before.snapshots);
    }
    assert forall|key: Seq<u8>| #[trigger] after.snapshots.contains_key(key) implies snapshot_filed(
        after,
        key,
    ) by {
        if !(left && key == new_key) {
            assert(before.snapshots.contains_key(key));
            assert(snapshot_filed(before, key));
            lemma_old_position(storage, key);
            lemma_past_is_kept(
                storage,
                change,
                rows,
                payload,
                manifest,
                prepared,
                snapshot_position(key),
                file_in(key),
                if storage.active.branch.identifier == 0 {
                    1
                } else {
                    0
                },
            );
            lemma_snapshot_stays(before, after, key);
        }
    }
}

/// No snapshot lies where the next event will.
proof fn lemma_old_position(storage: StorageView, key: Seq<u8>)
    requires
        indexed(storage),
        roots_filed(storage.image),
        snapshot_filed(storage.image, key),
        storage.active.branch.head_ordinal < u64::MAX,
    ensures
        snapshot_position(key) != next_position(storage.active),
{
    let position = snapshot_position(key);
    let root_key = pair_key(position.branch_identifier.0, position.ordinal);
    assert(storage.image.branch_roots.contains_key(root_key));
    lemma_ordinal_round_trip(position.branch_identifier.0, position.ordinal);
    lemma_u64_round_trip(position.branch_identifier.0);
    assert(root_key.take(8) =~= u64_key(position.branch_identifier.0));
}

/// Creating a branch keeps every snapshot what its state has of the file.
pub proof fn lemma_creation_keeps_snapshots(
    storage: StorageView,
    name: Seq<char>,
    from: BranchPosition,
    creation: BranchCreation,
)
    requires
        indexed(storage),
        rooted_branches(storage),
        snapshots_filed(storage.image),
        storage.branch_creation(name, from) == Some(creation),
    ensures
        snapshots_filed(storage.after_creation(creation).image),
{
    let before = storage.image;
    let after = storage.after_creation(creation).image;
    let root = root_of(before, from)->0;
    let new_key = pair_key(creation.branch.identifier, from.ordinal);
    lemma_put_one_row(before.branch_roots, new_key, root);
    assert(after.snapshots == before.snapshots);
    assert(after.nodes == before.nodes);
    assert forall|key: Seq<u8>| #[trigger] after.snapshots.contains_key(key) implies snapshot_filed(
        after,
        key,
    ) by {
        assert(before.snapshots.contains_key(key));
        assert(snapshot_filed(before, key));
        let position = snapshot_position(key);
        let root_key = pair_key(position.branch_identifier.0, position.ordinal);
        assert(before.branch_roots.contains_key(root_key));
        lemma_ordinal_round_trip(position.branch_identifier.0, position.ordinal);
        lemma_u64_round_trip(position.branch_identifier.0);
        assert(root_key.take(8) =~= u64_key(position.branch_identifier.0));
        lemma_pair_key_order(
            position.branch_identifier.0,
            position.ordinal,
            creation.branch.identifier,
            from.ordinal,
        );
        assert(position.branch_identifier.0 != creation.branch.identifier);
        lemma_snapshot_stays(before, after, key);
    }
}

/// The same snapshots and states are filed alike.
proof fn lemma_snapshots_stay(before: Image, after: Image)
    requires
        snapshots_filed(before),
        after.snapshots == before.snapshots,
        after.branch_roots == before.branch_roots,
        after.nodes == before.nodes,
    ensures
        snapshots_filed(after),
{
    assert forall|key: Seq<u8>| #[trigger] after.snapshots.contains_key(key) implies snapshot_filed(
        after,
        key,
    ) by {
        assert(before.snapshots.contains_key(key));
        lemma_snapshot_stays(before, after, key);
    }
}

/// Making a branch active keeps every snapshot what its state has of the file.
pub proof fn lemma_switch_keeps_snapshots(storage: StorageView, number: u64, active: ActiveView)
    requires
        snapshots_filed(storage.image),
    ensures
        snapshots_filed(
            storage.after_switch(StorageView::switch_rows(number), number, active).image,
        ),
{
    let after = storage.after_switch(StorageView::switch_rows(number), number, active).image;
    assert(after.snapshots == storage.image.snapshots);
    assert(after.branch_roots == storage.image.branch_roots);
    assert(after.nodes == storage.image.nodes);
    lemma_snapshots_stay(storage.image, after);
}

/// Deleting a branch keeps every snapshot what its state has of the file.
pub proof fn lemma_deletion_keeps_snapshots(
    storage: StorageView,
    name: Seq<char>,
    batch: BatchView,
)
    requires
        snapshots_filed(storage.image),
        storage.branch_deletion(name) == Some(batch),
    ensures
        snapshots_filed(storage.after_deletion(batch).image),
{
    let after = storage.after_deletion(batch).image;
    assert(after.snapshots == storage.image.snapshots);
    assert(after.branch_roots == storage.image.branch_roots);
    assert(after.nodes == storage.image.nodes);
    lemma_snapshots_stay(storage.image, after);
}

/// A new filesystem has no snapshots.
pub proof fn lemma_new_filesystem_has_snapshots_filed(
    image: Image,
    plan: TriePlan,
    root: InodeView,
    created_at: time::UtcDateTime,
)
    requires
        image == Image::nothing().after(initial_rows(plan, root, created_at)),
    ensures
        snapshots_filed(image),
{
    assert(image.snapshots == Image::nothing().snapshots);
    assert(lists_keys(Seq::<Seq<u8>>::empty(), image.snapshots));
    lemma_listed_keys(Seq::<Seq<u8>>::empty(), image.snapshots);
}

/// The snapshot of a file at an ordinal of a branch is there and not newer than a sequence.
pub open spec fn snapshot_within(
    image: Image,
    branch: BranchIdentifier,
    file: FileIdentifier,
    ordinal: u64,
    newest: u64,
) -> bool {
    let key = triple_key(branch.0, file.0, ordinal);
    image.snapshots.contains_key(key) && image.snapshots[key]->0.sequence <= newest
}

/// A branch has a state at an ordinal that is not newer than a sequence and has a file as a regular
/// file.
pub open spec fn state_within(
    image: Image,
    branch: BranchIdentifier,
    file: FileIdentifier,
    ordinal: u64,
    newest: u64,
) -> bool {
    let root = root_of(image, BranchPosition { branch_identifier: branch, ordinal });
    &&& root is Some
    &&& root->0.sequence <= newest
    &&& snapshot_in_root(image, file, root->0) is Ok
    &&& snapshot_in_root(image, file, root->0)->Ok_0 is Some
}

/// What a key of the snapshot table of a file on a branch stands for.
proof fn lemma_row_read(
    image: Image,
    branch: BranchIdentifier,
    file: FileIdentifier,
    key: Seq<u8>,
)
    requires
        snapshots_filed(image),
        image.snapshots.contains_key(key),
        has_prefix(key, pair_key(branch.0, file.0)),
    ensures
        key == triple_key(branch.0, file.0, file_ordinal_in(key)),
        snapshot_at(image, branch, file, key) == Some(
            FileSnapshot {
                file_identifier: file,
                sequence: crate::filesystem::EventSequence(image.snapshots[key]->0.sequence),
                branch_position: BranchPosition {
                    branch_identifier: branch,
                    ordinal: file_ordinal_in(key),
                },
                file_size: image.snapshots[key]->0.file_size,
            },
        ),
        snapshot_position(key) == (BranchPosition {
            branch_identifier: branch,
            ordinal: file_ordinal_in(key),
        }),
        file_in(key) == file,
{
    lemma_triple_of(branch.0, file.0, key);
    lemma_triple_round_trip(branch.0, file.0, file_ordinal_in(key));
    assert(snapshot_filed(image, key));
}

/// The walk over the snapshots of a file from the newest down stops at the newest one that is not newer
/// than the sequence.
proof fn lemma_snapshot_walk_stops(
    image: Image,
    branch: BranchIdentifier,
    file: FileIdentifier,
    newest: u64,
    count: int,
) -> (at: int)
    requires
        snapshots_filed(image),
        0 <= count <= listed_keys(image.snapshots).len(),
    ensures
        ({
            let keys = listed_keys(image.snapshots);
            let prefix = pair_key(branch.0, file.0);
            let walked = snapshot_walk(image, branch, file, newest, keys.take(count));
            &&& 0 <= at <= count
            &&& forall|i: int|
                at <= i < count ==> has_prefix(#[trigger] keys[i], prefix)
                    && image.snapshots[keys[i]]->0.sequence > newest
            &&& match walked {
                Err(_) => false,
                Ok(None) => at == 0 || !has_prefix(keys[at - 1], prefix),
                Ok(Some(snapshot)) => {
                    &&& at > 0
                    &&& has_prefix(keys[at - 1], prefix)
                    &&& image.snapshots[keys[at - 1]]->0.sequence <= newest
                    &&& snapshot_at(image, branch, file, keys[at - 1]) == Some(snapshot)
                },
            }
        }),
    decreases count,
{
    let keys = listed_keys(image.snapshots);
    let prefix = pair_key(branch.0, file.0);
    if count == 0 {
        0
    } else {
        let front = keys.take(count);
        assert(front.last() == keys[count - 1]);
        assert(front.drop_last() =~= keys.take(count - 1));
        assert(image.snapshots.contains_key(keys[count - 1]));
        if has_prefix(keys[count - 1], prefix) {
            lemma_row_read(image, branch, file, keys[count - 1]);
            if image.snapshots[keys[count - 1]]->0.sequence > newest {
                lemma_snapshot_walk_stops(image, branch, file, newest, count - 1)
            } else {
                count
            }
        } else {
            count
        }
    }
}

/// All keys of a prefix up to its end stand in one run that ends where the keys up to the end do.
proof fn lemma_prefix_reaches(keys: Seq<Seq<u8>>, prefix: Seq<u8>, end: Seq<u8>, at: int, i: int)
    requires
        sorted_keys(keys),
        has_prefix(end, prefix),
        0 <= at < keys_up_to(keys, end).len(),
        has_prefix(keys[at], prefix),
        at <= i < keys_up_to(keys, end).len(),
    ensures
        has_prefix(keys[i], prefix),
{
    let front = keys_up_to(keys, end);
    lemma_up_to(keys, end);
    let top = front.len() - 1;
    assert(front.last() == keys[top]);
    crate::bytes::lemma_bytes_before_irreflexive(keys[at]);
    assert(!bytes_before(keys[i], keys[at])) by {
        if at < i {
            assert(bytes_before(keys[at], keys[i]));
            if bytes_before(keys[i], keys[at]) {
                crate::bytes::lemma_bytes_before_asymmetric(keys[at], keys[i]);
            }
        }
    }
    assert(!bytes_before(end, keys[i])) by {
        if i < top {
            assert(bytes_before(keys[i], keys[top]));
            if bytes_before(end, keys[i]) {
                crate::bytes::lemma_bytes_before_transitive(end, keys[i], keys[top]);
            }
        }
    }
    lemma_between(prefix, keys[at], keys[i], end);
}

/// Where the snapshot of a file at an ordinal stands in the table.
proof fn lemma_row_place(
    image: Image,
    branch: BranchIdentifier,
    file: FileIdentifier,
    ordinal: u64,
    last: u64,
) -> (at: int)
    requires
        listed(image.snapshots),
        image.snapshots.contains_key(triple_key(branch.0, file.0, ordinal)),
        ordinal <= last,
    ensures
        0 <= at < keys_up_to(
            listed_keys(image.snapshots),
            triple_key(branch.0, file.0, last),
        ).len(),
        listed_keys(image.snapshots)[at] == triple_key(branch.0, file.0, ordinal),
{
    let keys = listed_keys(image.snapshots);
    let key = triple_key(branch.0, file.0, ordinal);
    let end = triple_key(branch.0, file.0, last);
    assert(keys.contains(key));
    let at = choose|i: int| 0 <= i < keys.len() && keys[i] == key;
    lemma_up_to(keys, end);
    lemma_triple_key_order(branch.0, file.0, last, branch.0, file.0, ordinal);
    at
}

/// What the walk over the snapshots of a file finds is the newest that is not newer than the sequence.
proof fn lemma_walk_is_newest(
    image: Image,
    branch: BranchIdentifier,
    file: FileIdentifier,
    newest: u64,
    ordinal: u64,
)
    requires
        snapshots_filed(image),
    ensures
        ({
            let keys = keys_up_to(
                listed_keys(image.snapshots),
                triple_key(branch.0, file.0, u64::MAX),
            );
            match snapshot_walk(image, branch, file, newest, keys) {
                Err(_) => false,
                Ok(None) => !snapshot_within(image, branch, file, ordinal, newest),
                Ok(Some(snapshot)) => {
                    let found = triple_key(branch.0, file.0, snapshot.branch_position.ordinal);
                    &&& image.snapshots.contains_key(found)
                    &&& snapshot_at(image, branch, file, found) == Some(snapshot)
                    &&& image.snapshots[found]->0.sequence <= newest
                    &&& snapshot_within(image, branch, file, ordinal, newest) ==> ordinal
                        <= snapshot.branch_position.ordinal
                },
            }
        }),
{
    let keys = listed_keys(image.snapshots);
    let prefix = pair_key(branch.0, file.0);
    let end = triple_key(branch.0, file.0, u64::MAX);
    let front = keys_up_to(keys, end);
    lemma_up_to(keys, end);
    lemma_snapshot_key(branch.0, file.0, u64::MAX);
    let at = lemma_snapshot_walk_stops(image, branch, file, newest, front.len() as int);
    if at > 0 {
        assert(image.snapshots.contains_key(keys[at - 1]));
        if has_prefix(keys[at - 1], prefix) {
            lemma_row_read(image, branch, file, keys[at - 1]);
        }
    }
    if snapshot_within(image, branch, file, ordinal, newest) {
        let place = lemma_row_place(image, branch, file, ordinal, u64::MAX);
        lemma_snapshot_key(branch.0, file.0, ordinal);
        assert(place < at);
        lemma_prefix_reaches(keys, prefix, end, place, at - 1);
        if place < at - 1 {
            assert(bytes_before(keys[place], keys[at - 1]));
            lemma_triple_key_order(
                branch.0,
                file.0,
                ordinal,
                branch.0,
                file.0,
                file_ordinal_in(keys[at - 1]),
            );
        }
    }
}

/// The walk over the states of a branch from the newest down stops at the newest one that is not newer
/// than the sequence and has the file.
proof fn lemma_root_walk_stops(
    image: Image,
    branch: BranchIdentifier,
    file: FileIdentifier,
    newest: u64,
    count: int,
) -> (at: int)
    requires
        roots_filed(image),
        states_readable(image),
        0 <= count <= listed_keys(image.branch_roots).len(),
    ensures
        ({
            let keys = listed_keys(image.branch_roots);
            let prefix = u64_key(branch.0);
            let walked = root_walk(image, branch, file, Some(newest), keys.take(count));
            &&& 0 <= at <= count
            &&& forall|i: int|
                at <= i < count ==> has_prefix(#[trigger] keys[i], prefix) && !state_within(
                    image,
                    branch,
                    file,
                    ordinal_in(keys[i]),
                    newest,
                )
            &&& match walked {
                Err(_) => false,
                Ok(None) => at == 0 || !has_prefix(keys[at - 1], prefix),
                Ok(Some(snapshot)) => {
                    let ordinal = snapshot.branch_position.ordinal;
                    &&& at > 0
                    &&& keys[at - 1] == pair_key(branch.0, ordinal)
                    &&& state_within(image, branch, file, ordinal, newest)
                    &&& root_walk(image, branch, file, None, keys.take(at)) == walked
                    &&& snapshot.file_identifier == file
                    &&& snapshot.branch_position.branch_identifier == branch
                },
            }
        }),
    decreases count,
{
    let keys = listed_keys(image.branch_roots);
    let prefix = u64_key(branch.0);
    if count == 0 {
        0
    } else {
        let front = keys.take(count);
        let key = keys[count - 1];
        assert(front.last() == key);
        assert(front.drop_last() =~= keys.take(count - 1));
        assert(image.branch_roots.contains_key(key));
        if has_prefix(key, prefix) {
            lemma_pair_of(branch.0, key);
            lemma_ordinal_round_trip(branch.0, ordinal_in(key));
            if state_within(image, branch, file, ordinal_in(key), newest) {
                count
            } else {
                lemma_root_walk_stops(image, branch, file, newest, count - 1)
            }
        } else {
            count
        }
    }
}

/// Every state that a branch went through can be loaded.
pub open spec fn states_readable(image: Image) -> bool {
    forall|key: Seq<u8>| #[trigger]
        image.branch_roots.contains_key(key) && image.branch_roots[key] is Some ==> stored_state(
            image.nodes,
            image.branch_roots[key]->0.namespace_identifier,
        ) is Some
}

/// What the walk over the states of a branch finds is the newest state that is not newer than the
/// sequence and has the file.
proof fn lemma_root_walk_is_newest(
    image: Image,
    branch: BranchIdentifier,
    file: FileIdentifier,
    newest: u64,
    ordinal: u64,
)
    requires
        roots_filed(image),
        states_readable(image),
    ensures
        ({
            let keys = keys_up_to(
                listed_keys(image.branch_roots),
                pair_key(branch.0, u64::MAX),
            );
            match root_walk(image, branch, file, Some(newest), keys) {
                Err(_) => false,
                Ok(None) => !state_within(image, branch, file, ordinal, newest),
                Ok(Some(snapshot)) => {
                    let found = snapshot.branch_position.ordinal;
                    &&& snapshot.file_identifier == file
                    &&& snapshot.branch_position.branch_identifier == branch
                    &&& state_within(image, branch, file, found, newest)
                    &&& root_walk(
                        image,
                        branch,
                        file,
                        None,
                        keys_up_to(listed_keys(image.branch_roots), pair_key(branch.0, found)),
                    ) == Ok::<Option<FileSnapshot>, FilesystemError>(Some(snapshot))
                    &&& state_within(image, branch, file, ordinal, newest) ==> ordinal <= found
                },
            }
        }),
{
    let keys = listed_keys(image.branch_roots);
    let prefix = u64_key(branch.0);
    let end = pair_key(branch.0, u64::MAX);
    let front = keys_up_to(keys, end);
    lemma_up_to(keys, end);
    assert(end.take(8) =~= prefix);
    let at = lemma_root_walk_stops(image, branch, file, newest, front.len() as int);
    if root_walk(image, branch, file, Some(newest), front)->Ok_0 is Some {
        lemma_up_to_key(keys, at - 1);
    }
    if state_within(image, branch, file, ordinal, newest) {
        let key = pair_key(branch.0, ordinal);
        assert(image.branch_roots.contains_key(key));
        assert(keys.contains(key));
        let place = choose|i: int| 0 <= i < keys.len() && keys[i] == key;
        lemma_pair_key_order(branch.0, u64::MAX, branch.0, ordinal);
        assert(place < front.len());
        assert(key.take(8) =~= prefix);
        lemma_ordinal_round_trip(branch.0, ordinal);
        assert(place < at);
        lemma_prefix_reaches(keys, prefix, end, place, at - 1);
        if place < at - 1 {
            assert(bytes_before(keys[place], keys[at - 1]));
            lemma_pair_of(branch.0, keys[at - 1]);
            lemma_pair_key_order(branch.0, ordinal, branch.0, ordinal_in(keys[at - 1]));
        }
    }
}

/// Where no snapshot of a file lies at or before an ordinal, asking at that ordinal falls back on the
/// states.
proof fn lemma_no_row_up_to(
    image: Image,
    branch: BranchIdentifier,
    file: FileIdentifier,
    ordinal: u64,
)
    requires
        snapshots_filed(image),
        forall|other: u64|
            other <= ordinal ==> !image.snapshots.contains_key(
                #[trigger] triple_key(branch.0, file.0, other),
            ),
    ensures
        ({
            let front = keys_up_to(
                listed_keys(image.snapshots),
                triple_key(branch.0, file.0, ordinal),
            );
            front.len() == 0 || !has_prefix(front.last(), pair_key(branch.0, file.0))
        }),
{
    let keys = listed_keys(image.snapshots);
    let end = triple_key(branch.0, file.0, ordinal);
    let front = keys_up_to(keys, end);
    lemma_up_to(keys, end);
    if front.len() > 0 && has_prefix(front.last(), pair_key(branch.0, file.0)) {
        let key = front.last();
        assert(key == keys[front.len() - 1]);
        assert(image.snapshots.contains_key(key));
        lemma_row_read(image, branch, file, key);
        lemma_triple_key_order(branch.0, file.0, ordinal, branch.0, file.0, file_ordinal_in(key));
    }
}

/// A snapshot at its position has what the state there has, and is found again there.
proof fn lemma_row_is_found_again(
    image: Image,
    branch: BranchIdentifier,
    file: FileIdentifier,
    snapshot: FileSnapshot,
)
    requires
        snapshots_filed(image),
        ({
            let key = triple_key(branch.0, file.0, snapshot.branch_position.ordinal);
            &&& image.snapshots.contains_key(key)
            &&& snapshot_at(image, branch, file, key) == Some(snapshot)
        }),
    ensures
        snapshot.file_identifier == file,
        snapshot.branch_position.branch_identifier == branch,
        snapshot_by_position(image, branch, file, snapshot.branch_position) == Ok::<
            Option<FileSnapshot>,
            FilesystemError,
        >(Some(snapshot)),
        recorded_as(image, snapshot),
{
    let keys = listed_keys(image.snapshots);
    let ordinal = snapshot.branch_position.ordinal;
    let key = triple_key(branch.0, file.0, ordinal);
    lemma_snapshot_key(branch.0, file.0, ordinal);
    lemma_row_read(image, branch, file, key);
    assert(keys.contains(key));
    let at = choose|i: int| 0 <= i < keys.len() && keys[i] == key;
    lemma_up_to_key(keys, at);
    assert(keys.take(at + 1).last() == key);
    assert(snapshot_filed(image, key));
}

/// A snapshot is what the state right after its event has of the file: the state at its position has
/// its sequence, and the contents there are those of the file in that state.
pub open spec fn recorded_as(image: Image, snapshot: FileSnapshot) -> bool {
    let root = root_of(image, snapshot.branch_position);
    let contents = contents_at(image, snapshot.file_identifier, snapshot.branch_position);
    &&& root is Some
    &&& root->0.sequence == snapshot.sequence.0
    &&& contents is Some
    &&& contents->0.sequence == snapshot.sequence.0
    &&& contents->0.file_size == snapshot.file_size
    &&& snapshot_in_root(image, snapshot.file_identifier, root->0) == Ok::<
        Option<SnapshotView>,
        FilesystemError,
    >(contents)
}

/// The snapshots of a file on a branch before an ordinal are older.
proof fn lemma_earlier_row_is_older(
    image: Image,
    branch: BranchIdentifier,
    file: FileIdentifier,
    earlier: u64,
    later: u64,
    newest: u64,
)
    requires
        roots_filed(image),
        roots_rise(image),
        snapshots_filed(image),
        image.snapshots.contains_key(triple_key(branch.0, file.0, earlier)),
        state_within(image, branch, file, later, newest),
        earlier <= later,
    ensures
        snapshot_within(image, branch, file, earlier, newest),
{
    let key = triple_key(branch.0, file.0, earlier);
    lemma_snapshot_key(branch.0, file.0, earlier);
    lemma_row_read(image, branch, file, key);
    assert(snapshot_filed(image, key));
    let a = pair_key(branch.0, earlier);
    let b = pair_key(branch.0, later);
    assert(image.branch_roots.contains_key(a));
    assert(image.branch_roots.contains_key(b));
    lemma_ordinal_round_trip(branch.0, earlier);
    lemma_ordinal_round_trip(branch.0, later);
    assert(a.take(8) =~= u64_key(branch.0));
    assert(b.take(8) =~= u64_key(branch.0));
}

/// Asking for the snapshot of a file on a branch at or before a sequence never fails, and gives the
/// newest one there: it is not newer than the sequence, no snapshot of the file on the branch that is
/// not newer than the sequence lies after it, it has what the state right after its event has of the
/// file, and asking for it at its own position gives it back. Where there is no snapshot, the newest
/// state that has the file takes its place; nothing is found just where there is no such state either.
pub proof fn lemma_snapshot_before_sequence(
    image: Image,
    branch: BranchIdentifier,
    file: FileIdentifier,
    newest: u64,
    ordinal: u64,
)
    requires
        roots_filed(image),
        roots_rise(image),
        states_readable(image),
        snapshots_filed(image),
    ensures
        match snapshot_by_sequence(image, branch, file, newest) {
            Err(_) => false,
            Ok(None) => {
                &&& !snapshot_within(image, branch, file, ordinal, newest)
                &&& !state_within(image, branch, file, ordinal, newest)
            },
            Ok(Some(snapshot)) => {
                let found = snapshot.branch_position.ordinal;
                let row = image.snapshots.contains_key(triple_key(branch.0, file.0, found));
                &&& snapshot.file_identifier == file
                &&& snapshot.branch_position.branch_identifier == branch
                &&& snapshot.sequence.0 <= newest
                &&& recorded_as(image, snapshot)
                &&& snapshot_within(image, branch, file, ordinal, newest) ==> row && ordinal <= found
                &&& !row && state_within(image, branch, file, ordinal, newest) ==> ordinal <= found
                &&& snapshot_by_position(image, branch, file, snapshot.branch_position) == Ok::<
                    Option<FileSnapshot>,
                    FilesystemError,
                >(Some(snapshot))
            },
        },
{
    let front = keys_up_to(
        listed_keys(image.snapshots),
        triple_key(branch.0, file.0, u64::MAX),
    );
    lemma_walk_is_newest(image, branch, file, newest, ordinal);
    let walked = snapshot_walk(image, branch, file, newest, front);
    if walked->Ok_0 is Some {
        let snapshot = walked->Ok_0->0;
        lemma_snapshot_key(branch.0, file.0, snapshot.branch_position.ordinal);
        lemma_row_read(
            image,
            branch,
            file,
            triple_key(branch.0, file.0, snapshot.branch_position.ordinal),
        );
        lemma_row_is_found_again(image, branch, file, snapshot);
    } else {
        lemma_root_walk_is_newest(image, branch, file, newest, ordinal);
        let roots = keys_up_to(listed_keys(image.branch_roots), pair_key(branch.0, u64::MAX));
        let found = root_walk(image, branch, file, Some(newest), roots);
        if found->Ok_0 is Some {
            let snapshot = found->Ok_0->0;
            let last = snapshot.branch_position.ordinal;
            assert forall|other: u64| other <= last implies !image.snapshots.contains_key(
                #[trigger] triple_key(branch.0, file.0, other),
            ) by {
                if image.snapshots.contains_key(triple_key(branch.0, file.0, other)) {
                    lemma_earlier_row_is_older(image, branch, file, other, last, newest);
                    lemma_walk_is_newest(image, branch, file, newest, other);
                }
            }
            lemma_no_row_up_to(image, branch, file, last);
            lemma_state_found(image, branch, file, snapshot);
        }
    }
}

/// A file that is found in a state is found with what the state has of it.
proof fn lemma_state_found(
    image: Image,
    branch: BranchIdentifier,
    file: FileIdentifier,
    snapshot: FileSnapshot,
)
    requires
        roots_filed(image),
        snapshot.file_identifier == file,
        snapshot.branch_position.branch_identifier == branch,
        !image.snapshots.contains_key(
            triple_key(branch.0, file.0, snapshot.branch_position.ordinal),
        ),
        state_within(image, branch, file, snapshot.branch_position.ordinal, u64::MAX),
        root_walk(
            image,
            branch,
            file,
            None,
            keys_up_to(
                listed_keys(image.branch_roots),
                pair_key(branch.0, snapshot.branch_position.ordinal),
            ),
        ) == Ok::<Option<FileSnapshot>, FilesystemError>(Some(snapshot)),
    ensures
        recorded_as(image, snapshot),
{
    let keys = listed_keys(image.branch_roots);
    let ordinal = snapshot.branch_position.ordinal;
    let key = pair_key(branch.0, ordinal);
    assert(image.branch_roots.contains_key(key));
    assert(keys.contains(key));
    let at = choose|i: int| 0 <= i < keys.len() && keys[i] == key;
    lemma_up_to_key(keys, at);
    assert(keys.take(at + 1).last() == key);
    assert(key.take(8) =~= u64_key(branch.0));
    lemma_ordinal_round_trip(branch.0, ordinal);
}

/// Asking for the snapshot of a file on a branch at or before a position gives the newest one there,
/// with what the state right after its event has of the file.
pub proof fn lemma_snapshot_before_position(
    image: Image,
    branch: BranchIdentifier,
    file: FileIdentifier,
    position: BranchPosition,
    ordinal: u64,
)
    requires
        snapshots_filed(image),
        ordinal <= position.ordinal,
        image.snapshots.contains_key(triple_key(branch.0, file.0, ordinal)),
    ensures
        ({
            let found = snapshot_by_position(image, branch, file, position);
            let snapshot = found->Ok_0->0;
            &&& found is Ok
            &&& found->Ok_0 is Some
            &&& snapshot.file_identifier == file
            &&& snapshot.branch_position.branch_identifier == branch
            &&& ordinal <= snapshot.branch_position.ordinal <= position.ordinal
            &&& recorded_as(image, snapshot)
        }),
{
    let keys = listed_keys(image.snapshots);
    let prefix = pair_key(branch.0, file.0);
    let end = triple_key(branch.0, file.0, position.ordinal);
    let front = keys_up_to(keys, end);
    lemma_up_to(keys, end);
    lemma_snapshot_key(branch.0, file.0, position.ordinal);
    lemma_snapshot_key(branch.0, file.0, ordinal);
    let place = lemma_row_place(image, branch, file, ordinal, position.ordinal);
    let top = front.len() - 1;
    let key = keys[top];
    assert(front.last() == key);
    lemma_prefix_reaches(keys, prefix, end, place, top);
    assert(image.snapshots.contains_key(key));
    lemma_row_read(image, branch, file, key);
    lemma_triple_key_order(
        branch.0,
        file.0,
        position.ordinal,
        branch.0,
        file.0,
        file_ordinal_in(key),
    );
    lemma_triple_key_order(branch.0, file.0, ordinal, branch.0, file.0, file_ordinal_in(key));
    if place < top {
        assert(bytes_before(keys[place], keys[top]));
    }
    lemma_row_is_found_again(
        image,
        branch,
        file,
        snapshot_at(image, branch, file, key)->0,
    );
}

} // verus!
