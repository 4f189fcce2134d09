//! The past of a branch stays: commits and forks leave every earlier state, snapshot and event as it
//! was, on all branches.

use vstd::prelude::*;

use crate::branches::{branch_at, name_taken, BranchCreation};
use crate::changes::ChangeView;
use crate::commit::{leaves_snapshot, next_position, placed_event, snapshot_size, PayloadExtents};
use crate::database::{put_blobs, put_rows, BatchView, Image, SnapshotView};
use crate::durability::{
    all_kept, contents_only, keeps_state, kept, lemma_branch_creation_persists,
    lemma_commit_persists, lemma_commit_rows, lemma_put_one_row, lemma_state_stays, persisted,
};
use crate::error::FuseError;
use crate::files::{lemma_store_grows, manifest_of, uncollided};
use crate::filesystem::{BranchIdentifier, BranchPosition, EventSequence, FileIdentifier};
use crate::history::{contents_at, root_of, snapshot_in_root};
use crate::indexes::{active_filed, indexed, lemma_commit_keeps_indexes};
use crate::inode::{InodeView, StoredTime};
use crate::keys::{
    lemma_pair_key_order, lemma_triple_key_order, lemma_u64_key_injective, pair_key, triple_key,
    u64_key,
};
use crate::namespace::inode_after;
use crate::numbering::{numbered, well_numbered};
use crate::opening::opened;
use crate::persist::stored_state;
use crate::roots::{
    forkable, lemma_commit_keeps_roots, lemma_creation_succeeds, name_unused, rooted_branches,
};
use crate::states::alike;
use crate::storage::{resize_commit, write_commit, EntrySnapshot, PreparedView, StorageView};
use crate::table::{lemma_listed_keys, lists_keys};
use crate::writes::{resize_change, write_change};

verus! {

proof fn lemma_row_elsewhere<W>(
    map: Map<Seq<u8>, Option<W>>,
    puts: Seq<(Seq<u8>, W)>,
    key: Seq<u8>,
)
    requires
        puts.len() <= 1,
        puts.len() == 1 ==> puts[0].0 != key,
    ensures
        put_rows(map, puts).contains_key(key) == map.contains_key(key),
        map.contains_key(key) ==> put_rows(map, puts)[key] == map[key],
{
    reveal_with_fuel(put_rows, 2);
}

proof fn lemma_row_here<W>(map: Map<Seq<u8>, Option<W>>, puts: Seq<(Seq<u8>, W)>)
    requires
        puts.len() == 1,
    ensures
        put_rows(map, puts).contains_key(puts[0].0),
        put_rows(map, puts)[puts[0].0] == Some(puts[0].1),
{
    reveal_with_fuel(put_rows, 2);
}

/// A state that is stored stays what it is when nodes are added.
pub proof fn lemma_kept_state_stays(image: Image, nodes: crate::hash::Blobs, name: Seq<u8>, next: u64)
    requires
        kept(image.nodes, name, next),
        image.nodes.submap_of(nodes),
    ensures
        stored_state(nodes, name) == stored_state(image.nodes, name),
        stored_state(nodes, name) is Some,
{
    let namespace = choose|namespace: crate::namespace::Namespace| #[trigger]
        keeps_state(image.nodes, name, namespace) && numbered(namespace, next);
    lemma_state_stays(image.nodes, nodes, name, namespace);
    lemma_state_stays(image.nodes, image.nodes, name, namespace);
}

/// A commit leaves the past as it was: at every position but the new one the state of the branch and
/// the contents of every file are the same, and so is every branch but the active one.
pub proof fn lemma_past_is_kept(
    storage: StorageView,
    change: ChangeView,
    rows: BatchView,
    payload: PayloadExtents,
    manifest: Option<Seq<u8>>,
    prepared: PreparedView,
    position: BranchPosition,
    file: FileIdentifier,
    other: u64,
)
    requires
        all_kept(storage.image, storage.write.next_inode_number),
        storage.prepare(change, rows, payload, manifest) == Ok::<PreparedView, FuseError>(prepared),
        contents_only(rows),
        uncollided(storage.image.nodes, prepared.batch.nodes),
        position != next_position(storage.active),
        other != storage.active.branch.identifier,
    ensures
        ({
            let before = storage.image;
            let after = storage.after(prepared).image;
            &&& root_of(after, position) == root_of(before, position)
            &&& root_of(before, position) is Some ==> stored_state(
                after.nodes,
                root_of(before, position)->0.namespace_identifier,
            ) == stored_state(before.nodes, root_of(before, position)->0.namespace_identifier)
            &&& contents_at(after, file, position) == contents_at(before, file, position)
            &&& branch_at(after, other) == branch_at(before, other)
            &&& branch_at(before, other) is Some ==> stored_state(
                after.nodes,
                branch_at(before, other)->0.namespace_identifier,
            ) == stored_state(before.nodes, branch_at(before, other)->0.namespace_identifier)
        }),
{
    let before = storage.image;
    let after = storage.after(prepared).image;
    let next = next_position(storage.active);
    lemma_commit_rows(storage, change, rows, payload, manifest, prepared);
    lemma_store_grows(before.nodes, prepared.batch.nodes);
    let root_key = pair_key(position.branch_identifier.0, position.ordinal);
    let snapshot_key = triple_key(position.branch_identifier.0, file.0, position.ordinal);
    let record = placed_event(storage.active, change.event);
    assert(position.branch_identifier.0 != next.branch_identifier.0 || position.ordinal
        != next.ordinal);
    lemma_pair_key_order(
        position.branch_identifier.0,
        position.ordinal,
        next.branch_identifier.0,
        next.ordinal,
    );
    lemma_row_elsewhere(before.branch_roots, prepared.batch.branch_roots, root_key);
    if record.file_identifier is Some {
        lemma_triple_key_order(
            position.branch_identifier.0,
            file.0,
            position.ordinal,
            next.branch_identifier.0,
            (record.file_identifier->0).0,
            next.ordinal,
        );
    }
    lemma_row_elsewhere(before.snapshots, prepared.batch.snapshots, snapshot_key);
    lemma_u64_key_injective(other, prepared.branch.identifier);
    lemma_row_elsewhere(before.branches, prepared.batch.branches, u64_key(other));
    if root_of(before, position) is Some {
        assert(before.branch_roots.contains_key(root_key));
        lemma_kept_state_stays(
            before,
            after.nodes,
            root_of(before, position)->0.namespace_identifier,
            storage.write.next_inode_number,
        );
    }
    if branch_at(before, other) is Some {
        assert(before.branches.contains_key(u64_key(other)));
        lemma_kept_state_stays(
            before,
            after.nodes,
            branch_at(before, other)->0.namespace_identifier,
            storage.write.next_inode_number,
        );
    }
}

/// A commit records the state that it leaves at its position, where it can be loaded and forked from.
/// What is loaded shows the same as the state in memory.
pub proof fn lemma_state_is_recorded(
    storage: StorageView,
    change: ChangeView,
    rows: BatchView,
    payload: PayloadExtents,
    manifest: Option<Seq<u8>>,
    prepared: PreparedView,
)
    requires
        persisted(storage),
        storage.prepare(change, rows, payload, manifest) == Ok::<PreparedView, FuseError>(prepared),
        contents_only(rows),
        storage.stores_state(change.mutation),
        well_numbered(storage.namespace(), storage.write, change),
        uncollided(storage.image.nodes, prepared.batch.nodes),
    ensures
        ({
            let after = storage.after(prepared);
            let root = root_of(after.image, next_position(storage.active));
            &&& root is Some
            &&& root->0.sequence == change.event.sequence.0
            &&& root->0.namespace_identifier == after.active.branch.namespace_identifier
            &&& stored_state(after.image.nodes, root->0.namespace_identifier) == Some(
                opened(after.image)->0.namespace(),
            )
            &&& alike(opened(after.image)->0.namespace(), after.namespace())
        }),
{
    lemma_commit_rows(storage, change, rows, payload, manifest, prepared);
    lemma_row_here(storage.image.branch_roots, prepared.batch.branch_roots);
    lemma_commit_persists(storage, change, rows, payload, manifest, prepared);
}

/// A commit about a file whose kind leaves a snapshot leaves one at its position.
pub proof fn lemma_snapshot_is_left(
    storage: StorageView,
    change: ChangeView,
    rows: BatchView,
    payload: PayloadExtents,
    manifest: Option<Seq<u8>>,
    prepared: PreparedView,
    file: FileIdentifier,
)
    requires
        storage.prepare(change, rows, payload, manifest) == Ok::<PreparedView, FuseError>(prepared),
        contents_only(rows),
        leaves_snapshot(change.event.kind),
        change.event.file_identifier == Some(file),
    ensures
        contents_at(storage.after(prepared).image, file, next_position(storage.active)) == Some(
            SnapshotView {
                file_size: snapshot_size(change.event),
                sequence: change.event.sequence.0,
                content_manifest_identifier: match manifest {
                    Some(identifier) => identifier,
                    None => match inode_after(storage.namespace(), change.mutation, file.0) {
                        Some(inode) => match inode.content_manifest_identifier {
                            Some(identifier) => identifier,
                            None => crate::manifest::empty_identifier(),
                        },
                        None => crate::manifest::empty_identifier(),
                    },
                },
            },
        ),
{
    lemma_commit_rows(storage, change, rows, payload, manifest, prepared);
    lemma_row_here(storage.image.snapshots, prepared.batch.snapshots);
}

/// A write leaves a snapshot of the file as it then is.
pub proof fn lemma_write_leaves_snapshot(
    storage: StorageView,
    number: u64,
    offset: u64,
    data: Seq<u8>,
    append: bool,
    clear_privileges: bool,
    now: StoredTime,
    created_at: time::UtcDateTime,
    prepared: PreparedView,
)
    requires
        write_commit(
            storage,
            number,
            offset,
            data,
            append,
            clear_privileges,
            now,
            created_at,
        ) == Ok::<PreparedView, FuseError>(prepared),
    ensures
        ({
            let after = storage.after(prepared);
            let written = after.namespace().inode(number);
            &&& written is Some
            &&& contents_at(
                after.image,
                FileIdentifier(number),
                next_position(storage.active),
            ) == Some(
                SnapshotView {
                    file_size: written->0.size,
                    sequence: prepared.sequence.0,
                    content_manifest_identifier: manifest_of(written->0),
                },
            )
        }),
{
    let content = write_change(
        storage.image,
        storage.namespace(),
        storage.write,
        number,
        offset,
        data,
        append,
        clear_privileges,
        now,
        created_at,
    )->Ok_0;
    crate::files::lemma_inode_stored(storage.namespace(), number, content.inode, number);
    lemma_snapshot_is_left(
        storage,
        content.change,
        content.rows,
        content.payload,
        Some(content.plan.identifier),
        prepared,
        FileIdentifier(number),
    );
}

/// A change of size leaves a snapshot of the file as it then is.
pub proof fn lemma_resize_leaves_snapshot(
    storage: StorageView,
    number: u64,
    inode: InodeView,
    new_size: u64,
    created_at: time::UtcDateTime,
    answer: EntrySnapshot,
    prepared: PreparedView,
)
    requires
        resize_commit(storage, number, inode, new_size, created_at) == Ok::<
            (EntrySnapshot, Option<PreparedView>),
            FuseError,
        >((answer, Some(prepared))),
    ensures
        ({
            let after = storage.after(prepared);
            let resized = after.namespace().inode(number);
            &&& resized is Some
            &&& contents_at(
                after.image,
                FileIdentifier(number),
                next_position(storage.active),
            ) == Some(
                SnapshotView {
                    file_size: new_size,
                    sequence: prepared.sequence.0,
                    content_manifest_identifier: manifest_of(resized->0),
                },
            )
        }),
{
    let content = resize_change(
        storage.image,
        storage.namespace(),
        storage.write,
        number,
        inode,
        new_size,
        created_at,
    )->Ok_0->0;
    crate::files::lemma_inode_stored(storage.namespace(), number, content.inode, number);
    lemma_snapshot_is_left(
        storage,
        content.change,
        content.rows,
        content.payload,
        Some(content.plan.identifier),
        prepared,
        FileIdentifier(number),
    );
}

/// Creating a branch leaves the past of every other branch as it was.
pub proof fn lemma_fork_keeps_past(
    storage: StorageView,
    name: Seq<char>,
    from: BranchPosition,
    creation: BranchCreation,
    position: BranchPosition,
    file: FileIdentifier,
)
    requires
        storage.branch_creation(name, from) == Some(creation),
        position.branch_identifier.0 != creation.branch.identifier,
    ensures
        ({
            let before = storage.image;
            let after = storage.after_creation(creation).image;
            &&& root_of(after, position) == root_of(before, position)
            &&& contents_at(after, file, position) == contents_at(before, file, position)
            &&& after.events == before.events
            &&& after.branch_events == before.branch_events
            &&& after.snapshots == before.snapshots
        }),
{
    let before = storage.image;
    let number = creation.branch.identifier;
    lemma_pair_key_order(
        position.branch_identifier.0,
        position.ordinal,
        number,
        from.ordinal,
    );
    lemma_row_elsewhere(
        before.branch_roots,
        creation.batch.branch_roots,
        pair_key(position.branch_identifier.0, position.ordinal),
    );
    reveal_with_fuel(put_rows, 1);
    reveal_with_fuel(put_blobs, 1);
}

/// A fork starts with the contents that its source has at the fork, for files of which the fork has no
/// snapshot of its own.
pub proof fn lemma_fork_shares_contents(
    storage: StorageView,
    name: Seq<char>,
    from: BranchPosition,
    creation: BranchCreation,
    file: FileIdentifier,
)
    requires
        storage.branch_creation(name, from) == Some(creation),
        !storage.image.snapshots.contains_key(
            triple_key(creation.branch.identifier, file.0, from.ordinal),
        ),
    ensures
        ({
            let after = storage.after_creation(creation).image;
            let start = BranchPosition {
                branch_identifier: BranchIdentifier(creation.branch.identifier),
                ordinal: from.ordinal,
            };
            &&& root_of(after, start) == root_of(storage.image, from)
            &&& contents_at(after, file, start) == match snapshot_in_root(
                storage.image,
                file,
                root_of(storage.image, from)->0,
            ) {
                Ok(Some(metadata)) => Some(metadata),
                _ => None,
            }
        }),
{
    lemma_row_here(storage.image.branch_roots, creation.batch.branch_roots);
    reveal_with_fuel(put_rows, 1);
    reveal_with_fuel(put_blobs, 1);
}

proof fn lemma_name_found(
    image: Image,
    name: Seq<char>,
    keys: Seq<Seq<u8>>,
    at: int,
)
    requires
        0 <= at < keys.len(),
        image.branches[keys[at]] is Some,
        image.branches[keys[at]]->0.name == name,
    ensures
        name_taken(image, name, keys) != Some(false),
    decreases keys.len(),
{
    if at > 0 {
        assert(keys.skip(1)[at - 1] == keys[at]);
        lemma_name_found(image, name, keys.skip(1), at - 1);
    }
}

/// The name of a branch that is stored, be it open or deleted, is not given again.
pub proof fn lemma_name_is_not_reused(
    storage: StorageView,
    number: u64,
    name: Seq<char>,
    from: BranchPosition,
    keys: Seq<Seq<u8>>,
)
    requires
        branch_at(storage.image, number) is Some,
        branch_at(storage.image, number)->0.name == name,
        lists_keys(keys, storage.image.branches),
    ensures
        storage.branch_creation(name, from) is None,
{
    lemma_listed_keys(keys, storage.image.branches);
    assert(storage.image.branches.contains_key(u64_key(number)));
    let at = choose|i: int| 0 <= i < keys.len() && keys[i] == u64_key(number);
    lemma_name_found(storage.image, name, keys, at);
}

/// The filesystem can be restored to any earlier point: at the head of an open branch and at every event
/// of it a branch can be created under a new name, and once it is made active, the filesystem has the
/// state that the source had there.
pub proof fn lemma_restoring_gives_state(
    storage: StorageView,
    name: Seq<char>,
    from: BranchPosition,
)
    requires
        persisted(storage),
        indexed(storage),
        rooted_branches(storage),
        name.len() > 0,
        name_unused(storage.image, name),
        forkable(storage.image, from),
        storage.write.next_branch_identifier < u64::MAX,
    ensures
        ({
            let creation = storage.branch_creation(name, from);
            let forked = storage.after_creation(creation->0);
            let switched = forked.branch_switch(name);
            let state = stored_state(
                storage.image.nodes,
                root_of(storage.image, from)->0.namespace_identifier,
            );
            &&& creation is Some
            &&& root_of(storage.image, from) is Some
            &&& state is Some
            &&& switched is Some
            &&& (switched->0).0 == creation->0.branch.identifier
            &&& (switched->0).1.branch == creation->0.branch
            &&& (switched->0).1.namespace == state->0
        }),
{
    lemma_creation_succeeds(storage, name, from);
    lemma_branch_creation_persists(
        storage,
        name,
        from,
        storage.branch_creation(name, from)->0,
        0,
    );
}

/// A commit uses no new name.
proof fn lemma_commit_leaves_names(
    storage: StorageView,
    change: ChangeView,
    rows: BatchView,
    payload: PayloadExtents,
    manifest: Option<Seq<u8>>,
    prepared: PreparedView,
    name: Seq<char>,
)
    requires
        active_filed(storage),
        storage.prepare(change, rows, payload, manifest) == Ok::<PreparedView, FuseError>(prepared),
        contents_only(rows),
        name_unused(storage.image, name),
    ensures
        name_unused(storage.after(prepared).image, name),
        forkable(storage.after(prepared).image, next_position(storage.active)),
        storage.after(prepared).write.next_branch_identifier
            == storage.write.next_branch_identifier,
{
    lemma_commit_rows(storage, change, rows, payload, manifest, prepared);
    let after = storage.after(prepared).image;
    let branch = prepared.branch;
    lemma_put_one_row(storage.image.branches, u64_key(branch.identifier), branch);
    assert(branch_at(storage.image, branch.identifier) is Some);
    assert forall|number: u64| (#[trigger] branch_at(after, number)) is Some implies branch_at(
        after,
        number,
    )->0.name != name by {
        lemma_u64_key_injective(number, branch.identifier);
        assert(branch_at(storage.image, number) is Some);
    }
}

/// A branch that is forked right after an event and made active shows what the active branch showed
/// then; it can be forked under every new name.
pub proof fn lemma_fork_shows_recorded(
    storage: StorageView,
    change: ChangeView,
    rows: BatchView,
    payload: PayloadExtents,
    manifest: Option<Seq<u8>>,
    prepared: PreparedView,
    name: Seq<char>,
)
    requires
        persisted(storage),
        indexed(storage),
        rooted_branches(storage),
        storage.write.sequence_to_give() == Ok::<EventSequence, FuseError>(change.event.sequence),
        storage.prepare(change, rows, payload, manifest) == Ok::<PreparedView, FuseError>(prepared),
        contents_only(rows),
        storage.stores_state(change.mutation),
        well_numbered(storage.namespace(), storage.write, change),
        uncollided(storage.image.nodes, prepared.batch.nodes),
        name.len() > 0,
        name_unused(storage.image, name),
        storage.write.next_branch_identifier < u64::MAX,
    ensures
        ({
            let after = storage.after(prepared);
            let creation = after.branch_creation(name, next_position(storage.active));
            let switched = after.after_creation(creation->0).branch_switch(name);
            &&& creation is Some
            &&& switched is Some
            &&& (switched->0).1.branch.head_sequence == change.event.sequence.0
            &&& alike((switched->0).1.namespace, after.namespace())
        }),
{
    let after = storage.after(prepared);
    lemma_commit_persists(storage, change, rows, payload, manifest, prepared);
    lemma_commit_keeps_indexes(storage, change, rows, payload, manifest, prepared);
    lemma_commit_keeps_roots(storage, change, rows, payload, manifest, prepared);
    lemma_state_is_recorded(storage, change, rows, payload, manifest, prepared);
    lemma_commit_leaves_names(storage, change, rows, payload, manifest, prepared, name);
    lemma_restoring_gives_state(after, name, next_position(storage.active));
}

} // verus!
