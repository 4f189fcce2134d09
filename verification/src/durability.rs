//! What is written out is what is in memory: opening the stored tables again gives the filesystem as it
//! is, and the event log only grows.

use vstd::prelude::*;

use crate::branches::{branch_at, number_of, BranchCreation, BRANCH_IDENTIFIER_INITIAL};
use crate::changes::ChangeView;
use crate::commit::{
    commit_of, index_rows, next_position, payload_rows, placed_event, snapshot_rows, ActiveView,
    PayloadExtents,
};
use crate::database::{
    put_blobs, put_rows, remove_keys_of, BatchView, BranchRootView, BranchView, Image,
    StoredEventView, WriteState,
};
use crate::error::FuseError;
use crate::files::uncollided;
use crate::filesystem::{BranchPosition, EventRecordView, EventSequence};
use crate::hash::Blobs;
use crate::history::{event_of, root_of};
use crate::inode::{INODE_FIRST_ALLOCATED, INODE_ROOT};
use crate::keys::{lemma_u64_key_injective, lemma_u64_round_trip, pair_key, u64_key};
use crate::maps::lemma_holds_grows;
use crate::metadata::{
    active_branch_identifier_key, last_event_sequence_key, next_branch_identifier_key,
    next_inode_number_key, schema_version_key, text_at, volume_name_key,
};
use crate::namespace::Namespace;
use crate::numbering::{lemma_change_keeps_alike, next_after, numbered, well_numbered};
use crate::opening::{
    initial_branch, initial_event, initial_namespace, initial_rows, opened, root_directory,
    stored_counters,
};
use crate::persist::{
    active_mutation_plan, encodable, entries_decode, inodes_decode, state_plan, stored_state,
};
use crate::states::{
    alike, finite_state, lemma_change_is_held, lemma_change_keeps_finite, lemma_finite_encodable,
    lemma_loading_gives_state, lemma_state_is_held, state_held, stored_after, well_keyed,
};
use crate::storage::{inode_counter_rows, PreparedView, StorageView};
use crate::trie::{node_puts, nodes_sound, root_at, NamespaceMapKind};

verus! {

/// A batch of chunks and manifests alone.
pub open spec fn contents_only(rows: BatchView) -> bool {
    rows == (BatchView {
        chunks: rows.chunks,
        manifests: rows.manifests,
        ..BatchView::nothing()
    })
}

/// A state is stored under a name and loaded as it is.
pub open spec fn keeps_state(nodes: Blobs, name: Seq<u8>, namespace: Namespace) -> bool {
    &&& root_at(nodes, name) is Some
    &&& state_held(nodes, root_at(nodes, name)->0, namespace)
    &&& well_keyed(namespace)
    &&& finite_state(namespace)
    &&& inodes_decode(namespace.inodes)
    &&& entries_decode(namespace.entries)
}

/// Some state is stored under a name, with inode numbers below one.
pub open spec fn kept(nodes: Blobs, name: Seq<u8>, next: u64) -> bool {
    exists|namespace: Namespace| #[trigger]
        keeps_state(nodes, name, namespace) && numbered(namespace, next)
}

/// The states of all branches, at their heads and at every position, are stored, with inode numbers
/// below one.
pub open spec fn all_kept(image: Image, next: u64) -> bool {
    &&& forall|key: Seq<u8>| #[trigger]
        image.branches.contains_key(key) && image.branches[key] is Some ==> kept(
            image.nodes,
            image.branches[key]->0.namespace_identifier,
            next,
        )
    &&& forall|key: Seq<u8>| #[trigger]
        image.branch_roots.contains_key(key) && image.branch_roots[key] is Some ==> kept(
            image.nodes,
            image.branch_roots[key]->0.namespace_identifier,
            next,
        )
}

/// Opening the stored tables gives the counters, the branch and the roots as they are and a state that
/// shows the same; all states are stored, and none has an inode or an extended attribute with a number
/// that a new inode can get.
pub open spec fn persisted(storage: StorageView) -> bool {
    &&& opened(storage.image) is Some
    &&& opened(storage.image)->0 == (StorageView {
        active: ActiveView { namespace: opened(storage.image)->0.namespace(), ..storage.active },
        ..storage
    })
    &&& alike(opened(storage.image)->0.namespace(), storage.namespace())
    &&& keeps_state(
        storage.image.nodes,
        storage.active.branch.namespace_identifier,
        opened(storage.image)->0.namespace(),
    )
    &&& well_keyed(storage.namespace())
    &&& finite_state(storage.namespace())
    &&& numbered(storage.namespace(), storage.write.next_inode_number)
    &&& numbered(opened(storage.image)->0.namespace(), storage.write.next_inode_number)
    &&& all_kept(storage.image, storage.write.next_inode_number)
}

/// What is persisted can be stored again.
pub proof fn lemma_persisted_encodable(storage: StorageView)
    requires
        persisted(storage),
    ensures
        encodable(storage.namespace()),
{
    lemma_finite_encodable(storage.namespace());
}

/// Opening what is persisted gives what is persisted.
pub proof fn lemma_reopening_persists(storage: StorageView)
    requires
        persisted(storage),
    ensures
        opened(storage.image) is Some,
        persisted(opened(storage.image)->0),
        alike(opened(storage.image)->0.namespace(), storage.namespace()),
{
}

/// Adding nodes keeps states.
pub proof fn lemma_state_stays(nodes: Blobs, larger: Blobs, name: Seq<u8>, namespace: Namespace)
    requires
        keeps_state(nodes, name, namespace),
        nodes.submap_of(larger),
    ensures
        keeps_state(larger, name, namespace),
        root_at(larger, name) == root_at(nodes, name),
        stored_state(larger, name) == Some(namespace),
{
    let root = root_at(nodes, name)->0;
    assert(nodes.dom().contains(name));
    assert(larger.dom().contains(name));
    lemma_holds_grows(
        nodes,
        larger,
        NamespaceMapKind::Inodes,
        root.inodes,
        0,
        crate::persist::encoded_inodes(namespace.inodes),
    );
    lemma_holds_grows(
        nodes,
        larger,
        NamespaceMapKind::DirectoryEntries,
        root.entries,
        0,
        crate::persist::encoded_entries(namespace.entries),
    );
    lemma_holds_grows(
        nodes,
        larger,
        NamespaceMapKind::ExtendedAttributes,
        root.attributes,
        0,
        namespace.attributes,
    );
    lemma_loading_gives_state(larger, name, root, namespace);
}

proof fn lemma_kept_stays(nodes: Blobs, larger: Blobs, name: Seq<u8>, next: u64, later: u64)
    requires
        kept(nodes, name, next),
        nodes.submap_of(larger),
        next <= later,
    ensures
        kept(larger, name, later),
{
    let namespace = choose|namespace: Namespace| #[trigger]
        keeps_state(nodes, name, namespace) && numbered(namespace, next);
    lemma_state_stays(nodes, larger, name, namespace);
}

/// What is kept can be loaded.
pub proof fn lemma_kept_is_stored(nodes: Blobs, name: Seq<u8>, next: u64)
    requires
        kept(nodes, name, next),
    ensures
        root_at(nodes, name) is Some,
        stored_state(nodes, name) is Some,
        keeps_state(nodes, name, stored_state(nodes, name)->0),
        numbered(stored_state(nodes, name)->0, next),
{
    let namespace = choose|namespace: Namespace| #[trigger]
        keeps_state(nodes, name, namespace) && numbered(namespace, next);
    lemma_state_stays(nodes, nodes, name, namespace);
}

/// The keys of the stored counters and names all differ.
pub proof fn lemma_metadata_keys()
    ensures
        schema_version_key().len() == 14,
        next_inode_number_key().len() == 17,
        last_event_sequence_key().len() == 29,
        next_branch_identifier_key().len() == 22,
        active_branch_identifier_key().len() == 24,
        volume_name_key().len() == 11,
{
}

/// Storing one row.
pub proof fn lemma_put_one_row<W>(map: Map<Seq<u8>, Option<W>>, key: Seq<u8>, row: W)
    ensures
        put_rows(map, seq![(key, row)]) == map.insert(key, Some(row)),
{
    assert(seq![(key, row)].drop_last() =~= Seq::<(Seq<u8>, W)>::empty());
    assert(put_rows(map, seq![(key, row)].drop_last()) == map);
}

/// Storing one value.
pub proof fn lemma_put_one_blob(map: Blobs, key: Seq<u8>, value: Seq<u8>)
    ensures
        put_blobs(map, seq![(key, value)]) == map.insert(key, value),
{
    assert(seq![(key, value)].drop_last() =~= Seq::<(Seq<u8>, Seq<u8>)>::empty());
    assert(put_blobs(map, seq![(key, value)].drop_last()) == map);
}

pub proof fn lemma_put_more_blobs(
    map: Blobs,
    puts: Seq<(Seq<u8>, Seq<u8>)>,
    key: Seq<u8>,
    value: Seq<u8>,
)
    ensures
        put_blobs(map, puts.push((key, value))) == put_blobs(map, puts).insert(key, value),
{
    assert(puts.push((key, value)).drop_last() =~= puts);
}

/// The rows of a commit, one table after the other.
pub proof fn lemma_commit_rows(
    storage: StorageView,
    change: ChangeView,
    rows: BatchView,
    payload: PayloadExtents,
    manifest: Option<Seq<u8>>,
    prepared: PreparedView,
)
    requires
        storage.prepare(change, rows, payload, manifest) == Ok::<PreparedView, FuseError>(prepared),
        contents_only(rows),
    ensures
        ({
            let sequence = change.event.sequence.0;
            let record = placed_event(storage.active, change.event);
            let position = next_position(storage.active);
            let (plan, root) = active_mutation_plan(
                storage.image.nodes,
                storage.active.root,
                storage.active.namespace,
                change.mutation,
            )->0;
            let index = index_rows(sequence, record, position, plan.identifier);
            let inode = match record.file_identifier {
                Some(file) => crate::namespace::inode_after(
                    storage.active.namespace,
                    change.mutation,
                    file.0,
                ),
                None => None,
            };
            let batch = prepared.batch;
            &&& active_mutation_plan(
                storage.image.nodes,
                storage.active.root,
                storage.active.namespace,
                change.mutation,
            ) is Some
            &&& storage.active.branch.identifier == storage.write.active_branch_identifier
            &&& storage.active.branch.head_ordinal < u64::MAX
            &&& !storage.image.events.contains_key(u64_key(sequence))
            &&& prepared.sequence == change.event.sequence
            &&& prepared.mutation == change.mutation
            &&& prepared.next_inode_number == change.next_inode_number
            &&& prepared.root == root
            &&& prepared.branch == (BranchView {
                head_sequence: sequence,
                head_ordinal: position.ordinal,
                namespace_identifier: plan.identifier,
                ..storage.active.branch
            })
            &&& batch.nodes == node_puts(plan.nodes)
            &&& batch.events == seq![
                (u64_key(sequence), StoredEventView { record, mutation: change.mutation }),
            ]
            &&& batch.branches == seq![(u64_key(prepared.branch.identifier), prepared.branch)]
            &&& batch.metadata == seq![(last_event_sequence_key(), u64_key(sequence))]
                + inode_counter_rows(change.next_inode_number).metadata
            &&& batch.branch_names == Seq::<(Seq<u8>, Seq<u8>)>::empty()
            &&& batch.branch_name_deletes == Seq::<Seq<u8>>::empty()
            &&& batch.file_events == index.file_events
            &&& batch.branch_events == index.branch_events
            &&& batch.branch_file_events == index.branch_file_events
            &&& batch.branch_roots == index.branch_roots
            &&& batch.snapshots == snapshot_rows(
                sequence,
                record,
                position,
                inode,
                manifest,
            ).snapshots
            &&& payload_rows(sequence, record, payload) is Some
            &&& batch.payloads == payload_rows(sequence, record, payload)->0.payloads
            &&& batch.chunks == rows.chunks
            &&& batch.manifests == rows.manifests + payload_rows(
                sequence,
                record,
                payload,
            )->0.manifests
        }),
{
    let sequence = change.event.sequence.0;
    let record = placed_event(storage.active, change.event);
    let position = next_position(storage.active);
    let commit = commit_of(
        storage.image,
        storage.active,
        storage.write.active_branch_identifier,
        change.event.sequence,
        change.event,
        payload,
        manifest,
        change.mutation,
    )->0;
    let (plan, root) = active_mutation_plan(
        storage.image.nodes,
        storage.active.root,
        storage.active.namespace,
        change.mutation,
    )->0;
    let index = index_rows(sequence, record, position, plan.identifier);
    let paid = payload_rows(sequence, record, payload)->0;
    let batch = prepared.batch;
    let inode = match record.file_identifier {
        Some(file) => crate::namespace::inode_after(
            storage.active.namespace,
            change.mutation,
            file.0,
        ),
        None => None,
    };
    let snapshot = snapshot_rows(sequence, record, position, inode, manifest);
    assert(paid == (BatchView {
        manifests: paid.manifests,
        payloads: paid.payloads,
        ..BatchView::nothing()
    })) by {
        assert(paid =~= BatchView {
            manifests: paid.manifests,
            payloads: paid.payloads,
            ..BatchView::nothing()
        });
    }
    assert(batch.nodes =~= node_puts(plan.nodes));
    assert(batch.events =~= seq![
        (u64_key(sequence), StoredEventView { record, mutation: change.mutation }),
    ]);
    assert(batch.branches =~= seq![(u64_key(prepared.branch.identifier), prepared.branch)]);
    assert(batch.metadata =~= seq![(last_event_sequence_key(), u64_key(sequence))]
        + inode_counter_rows(change.next_inode_number).metadata);
    assert(batch.branch_names =~= Seq::<(Seq<u8>, Seq<u8>)>::empty());
    assert(batch.branch_name_deletes =~= Seq::<Seq<u8>>::empty());
    assert(batch.file_events =~= index.file_events);
    assert(batch.branch_events =~= index.branch_events);
    assert(batch.branch_file_events =~= index.branch_file_events);
    assert(batch.branch_roots =~= index.branch_roots);
    assert(batch.snapshots =~= snapshot.snapshots);
    assert(batch.payloads =~= paid.payloads);
    assert(batch.chunks =~= rows.chunks);
    assert(batch.manifests =~= rows.manifests + paid.manifests);
}

/// A commit adds its event to the log and changes no other: the new event has the next sequence, lies
/// one position past the head of the active branch, and names the head before it as its parent.
pub proof fn lemma_commit_appends_event(
    storage: StorageView,
    change: ChangeView,
    rows: BatchView,
    payload: PayloadExtents,
    manifest: Option<Seq<u8>>,
    prepared: PreparedView,
    other: u64,
)
    requires
        storage.prepare(change, rows, payload, manifest) == Ok::<PreparedView, FuseError>(prepared),
        contents_only(rows),
    ensures
        ({
            let after = storage.after(prepared);
            let record = placed_event(storage.active, change.event);
            &&& event_of(after.image, change.event.sequence.0) == Ok::<
                Option<EventRecordView>,
                crate::error::FilesystemError,
            >(Some(record))
            &&& record.first_parent_sequence == Some(
                EventSequence(storage.active.branch.head_sequence),
            )
            &&& record.branch_position == Some(next_position(storage.active))
            &&& other != change.event.sequence.0 ==> event_of(after.image, other) == event_of(
                storage.image,
                other,
            )
            &&& event_of(storage.image, change.event.sequence.0) == Ok::<
                Option<EventRecordView>,
                crate::error::FilesystemError,
            >(None)
            &&& after.write.last_event_sequence == change.event.sequence.0
            &&& after.active.branch.head_sequence == change.event.sequence.0
            &&& after.active.branch.head_ordinal == storage.active.branch.head_ordinal + 1
        }),
{
    lemma_commit_rows(storage, change, rows, payload, manifest, prepared);
    let sequence = change.event.sequence.0;
    let record = placed_event(storage.active, change.event);
    lemma_put_one_row(
        storage.image.events,
        u64_key(sequence),
        StoredEventView { record, mutation: change.mutation },
    );
    if other != sequence && u64_key(other) == u64_key(sequence) {
        lemma_u64_key_injective(other, sequence);
    }
}

proof fn lemma_counters_after(
    storage: StorageView,
    change: ChangeView,
    rows: BatchView,
    payload: PayloadExtents,
    manifest: Option<Seq<u8>>,
    prepared: PreparedView,
)
    requires
        stored_counters(storage.image) == Some(storage.write),
        branch_at(storage.image, storage.write.active_branch_identifier) == Some(
            storage.active.branch,
        ),
        storage.prepare(change, rows, payload, manifest) == Ok::<PreparedView, FuseError>(prepared),
        contents_only(rows),
    ensures
        stored_counters(storage.after(prepared).image) == Some(storage.after(prepared).write),
        branch_at(storage.after(prepared).image, storage.write.active_branch_identifier) == Some(
            prepared.branch,
        ),
{
    lemma_commit_rows(storage, change, rows, payload, manifest, prepared);
    lemma_metadata_keys();
    let after = storage.after(prepared);
    let sequence = change.event.sequence.0;
    let metadata = storage.image.metadata;
    lemma_put_one_row(
        storage.image.branches,
        u64_key(prepared.branch.identifier),
        prepared.branch,
    );
    lemma_put_one_blob(metadata, last_event_sequence_key(), u64_key(sequence));
    lemma_u64_round_trip(sequence);
    match change.next_inode_number {
        Some(next) => {
            lemma_put_more_blobs(
                metadata,
                seq![(last_event_sequence_key(), u64_key(sequence))],
                next_inode_number_key(),
                u64_key(next),
            );
            assert(prepared.batch.metadata =~= seq![
                (last_event_sequence_key(), u64_key(sequence)),
            ].push((next_inode_number_key(), u64_key(next))));
            lemma_u64_round_trip(next);
        },
        None => {
            assert(prepared.batch.metadata =~= seq![
                (last_event_sequence_key(), u64_key(sequence)),
            ]);
        },
    }
    let expected = match change.next_inode_number {
        Some(next) => metadata.insert(last_event_sequence_key(), u64_key(sequence)).insert(
            next_inode_number_key(),
            u64_key(next),
        ),
        None => metadata.insert(last_event_sequence_key(), u64_key(sequence)),
    };
    assert(after.image.metadata == expected);
}

/// A commit that is written out leaves nothing to be seen in memory that opening the tables would not
/// give.
pub proof fn lemma_commit_persists(
    storage: StorageView,
    change: ChangeView,
    rows: BatchView,
    payload: PayloadExtents,
    manifest: Option<Seq<u8>>,
    prepared: PreparedView,
)
    requires
        persisted(storage),
        storage.prepare(change, rows, payload, manifest) == Ok::<PreparedView, FuseError>(prepared),
        contents_only(rows),
        storage.stores_state(change.mutation),
        well_numbered(storage.namespace(), storage.write, change),
        uncollided(storage.image.nodes, prepared.batch.nodes),
    ensures
        persisted(storage.after(prepared)),
        stored_state(
            storage.after(prepared).image.nodes,
            storage.after(prepared).active.branch.namespace_identifier,
        ) == Some(opened(storage.after(prepared).image)->0.namespace()),
{
    lemma_commit_rows(storage, change, rows, payload, manifest, prepared);
    lemma_counters_after(storage, change, rows, payload, manifest, prepared);
    let after = storage.after(prepared);
    let nodes = storage.image.nodes;
    let root = storage.active.root;
    let seen = storage.namespace();
    let stored = opened(storage.image)->0.namespace();
    let held = stored_after(stored, seen, change.mutation);
    let next = storage.write.next_inode_number;
    let later = next_after(storage.write, change);
    let (plan, changed) = active_mutation_plan(nodes, root, seen, change.mutation)->0;
    lemma_change_is_held(nodes, root, stored, seen, change.mutation);
    lemma_change_keeps_alike(stored, seen, storage.write, change);
    lemma_change_keeps_finite(stored, seen, change.mutation);
    let position = next_position(storage.active);
    let position_key = pair_key(position.branch_identifier.0, position.ordinal);
    lemma_put_one_row(
        storage.image.branch_roots,
        position_key,
        BranchRootView {
            sequence: change.event.sequence.0,
            namespace_identifier: plan.identifier,
        },
    );
    lemma_put_one_row(
        storage.image.branches,
        u64_key(prepared.branch.identifier),
        prepared.branch,
    );
    assert(keeps_state(after.image.nodes, plan.identifier, held));
    assert(kept(after.image.nodes, plan.identifier, later));
    assert(after.write.next_inode_number == later);
    assert forall|key: Seq<u8>| #[trigger]
        after.image.branches.contains_key(key) && after.image.branches[key] is Some implies kept(
        after.image.nodes,
        after.image.branches[key]->0.namespace_identifier,
        later,
    ) by {
        if key != u64_key(prepared.branch.identifier) {
            assert(storage.image.branches.contains_key(key));
            lemma_kept_stays(
                nodes,
                after.image.nodes,
                storage.image.branches[key]->0.namespace_identifier,
                next,
                later,
            );
        }
    }
    assert forall|key: Seq<u8>| #[trigger]
        after.image.branch_roots.contains_key(key)
            && after.image.branch_roots[key] is Some implies kept(
        after.image.nodes,
        after.image.branch_roots[key]->0.namespace_identifier,
        later,
    ) by {
        if key != position_key {
            assert(storage.image.branch_roots.contains_key(key));
            lemma_kept_stays(
                nodes,
                after.image.nodes,
                storage.image.branch_roots[key]->0.namespace_identifier,
                next,
                later,
            );
        }
    }
    assert(opened(after.image)->0.namespace() == held);
}

/// A new filesystem that is written out opens: the root directory is there, the branch `main` is active
/// and has one event, and the name of the filesystem is `eventfs`.
pub proof fn lemma_new_filesystem_opens(
    uid: u32,
    gid: u32,
    now: crate::inode::StoredTime,
    created_at: time::UtcDateTime,
)
    requires
        ({
            let root = root_directory(uid, gid, now);
            let plan = state_plan(initial_namespace(root));
            &&& plan is Some
            &&& nodes_sound((plan->0).0.nodes)
            &&& encodable(initial_namespace(root))
            &&& uncollided(Map::empty(), node_puts((plan->0).0.nodes))
        }),
    ensures
        ({
            let root = root_directory(uid, gid, now);
            let plan = (state_plan(initial_namespace(root))->0).0;
            let image = Image::nothing().after(initial_rows(plan, root, created_at));
            &&& opened(image) is Some
            &&& persisted(opened(image)->0)
            &&& opened(image)->0.namespace() == initial_namespace(root)
            &&& opened(image)->0.active.branch == initial_branch(plan.identifier)
            &&& opened(image)->0.write == (WriteState {
                next_inode_number: INODE_FIRST_ALLOCATED,
                last_event_sequence: 0,
                next_branch_identifier: 2,
                active_branch_identifier: BRANCH_IDENTIFIER_INITIAL,
                active_branch_head_sequence: 0,
                active_branch_head_ordinal: 0,
            })
            &&& number_of(image, "main"@) == Some(BRANCH_IDENTIFIER_INITIAL)
            &&& text_at(image.metadata, volume_name_key()) == Ok::<
                Seq<char>,
                crate::error::FilesystemError,
            >("eventfs"@)
            &&& event_of(image, 0) == Ok::<Option<EventRecordView>, crate::error::FilesystemError>(
                Some(initial_event(root, created_at).record),
            )
        }),
{
    let root = root_directory(uid, gid, now);
    let namespace = initial_namespace(root);
    let plan = (state_plan(namespace)->0).0;
    let rows = initial_rows(plan, root, created_at);
    let empty = Image::nothing();
    let image = empty.after(rows);
    lemma_state_is_held(empty.nodes, namespace);
    lemma_metadata_keys();
    lemma_initial_metadata(rows.metadata, empty.metadata);
    lemma_u64_round_trip(0);
    lemma_u64_round_trip(1);
    lemma_u64_round_trip(2);
    vstd::utf8::encode_utf8_decode_utf8("eventfs"@);
    vstd::utf8::encode_utf8_valid_utf8("eventfs"@);
    let branch_key = u64_key(BRANCH_IDENTIFIER_INITIAL);
    let position_key = pair_key(BRANCH_IDENTIFIER_INITIAL, 0);
    lemma_put_one_row(empty.branches, branch_key, initial_branch(plan.identifier));
    lemma_put_one_row(
        empty.branch_roots,
        position_key,
        BranchRootView { sequence: 0, namespace_identifier: plan.identifier },
    );
    lemma_put_one_row(empty.events, u64_key(0), initial_event(root, created_at));
    lemma_put_one_blob(empty.branch_names, vstd::utf8::encode_utf8("main"@), branch_key);
    assert(image.branch_names == empty.branch_names.insert(
        vstd::utf8::encode_utf8("main"@),
        branch_key,
    ));
    assert(stored_counters(image) is Some);
    assert(keeps_state(image.nodes, plan.identifier, namespace));
    assert(numbered(namespace, 2)) by {
        assert forall|number: u64| (#[trigger] namespace.inode(number)) is Some implies number
            < 2 by {
            lemma_u64_key_injective(number, INODE_ROOT);
        }
    }
    assert(kept(image.nodes, plan.identifier, 2));
    assert(all_kept(image, 2)) by {
        assert forall|key: Seq<u8>| #[trigger]
            image.branches.contains_key(key) && image.branches[key] is Some implies kept(
            image.nodes,
            image.branches[key]->0.namespace_identifier,
            2,
        ) by {
            assert(key == branch_key);
        }
        assert forall|key: Seq<u8>| #[trigger]
            image.branch_roots.contains_key(key) && image.branch_roots[key] is Some implies kept(
            image.nodes,
            image.branch_roots[key]->0.namespace_identifier,
            2,
        ) by {
            assert(key == position_key);
        }
    }
}

pub proof fn lemma_initial_metadata(puts: Seq<(Seq<u8>, Seq<u8>)>, empty: Blobs)
    requires
        puts == seq![
            (schema_version_key(), u64_key(0)),
            (next_inode_number_key(), u64_key(2)),
            (last_event_sequence_key(), u64_key(0)),
            (next_branch_identifier_key(), u64_key(2)),
            (active_branch_identifier_key(), u64_key(1)),
            (volume_name_key(), vstd::utf8::encode_utf8("eventfs"@)),
        ],
    ensures
        put_blobs(empty, puts) == empty.insert(schema_version_key(), u64_key(0)).insert(
            next_inode_number_key(),
            u64_key(2),
        ).insert(last_event_sequence_key(), u64_key(0)).insert(
            next_branch_identifier_key(),
            u64_key(2),
        ).insert(active_branch_identifier_key(), u64_key(1)).insert(
            volume_name_key(),
            vstd::utf8::encode_utf8("eventfs"@),
        ),
{
    reveal_with_fuel(put_blobs, 7);
    assert(puts.drop_last().drop_last().drop_last().drop_last().drop_last().drop_last() =~= Seq::<
        (Seq<u8>, Seq<u8>),
    >::empty());
}

/// Creating a branch persists, leaves the active branch and every other branch as they are, and makes
/// one with a new number whose state is that of its source at the fork.
pub proof fn lemma_branch_creation_persists(
    storage: StorageView,
    name: Seq<char>,
    from: BranchPosition,
    creation: BranchCreation,
    other: u64,
)
    requires
        persisted(storage),
        storage.branch_creation(name, from) == Some(creation),
    ensures
        ({
            let after = storage.after_creation(creation);
            &&& persisted(after)
            &&& after.active == storage.active
            &&& branch_at(after.image, creation.branch.identifier) == Some(creation.branch)
            &&& branch_at(storage.image, creation.branch.identifier) is None
            &&& number_of(after.image, name) == Some(creation.branch.identifier)
            &&& other != creation.branch.identifier ==> branch_at(after.image, other) == branch_at(
                storage.image,
                other,
            )
            &&& root_of(storage.image, from) is Some
            &&& stored_state(after.image.nodes, creation.branch.namespace_identifier)
                == stored_state(
                storage.image.nodes,
                root_of(storage.image, from)->0.namespace_identifier,
            )
            &&& stored_state(after.image.nodes, creation.branch.namespace_identifier) is Some
            &&& creation.branch.head_sequence == root_of(storage.image, from)->0.sequence
        }),
{
    let after = storage.after_creation(creation);
    let next = storage.write.next_inode_number;
    let number = storage.write.next_branch_identifier;
    let root = root_of(storage.image, from)->0;
    let from_key = pair_key(from.branch_identifier.0, from.ordinal);
    let new_key = pair_key(number, from.ordinal);
    lemma_metadata_keys();
    lemma_put_one_row(storage.image.branches, u64_key(number), creation.branch);
    lemma_put_one_row(storage.image.branch_roots, new_key, root);
    lemma_put_one_blob(
        storage.image.branch_names,
        vstd::utf8::encode_utf8(name),
        u64_key(number),
    );
    lemma_put_one_blob(
        storage.image.metadata,
        next_branch_identifier_key(),
        u64_key((number + 1) as u64),
    );
    lemma_u64_round_trip((number + 1) as u64);
    lemma_u64_round_trip(number);
    assert(after.image.branch_names == storage.image.branch_names.insert(
        vstd::utf8::encode_utf8(name),
        u64_key(number),
    ));
    assert(after.image.nodes == storage.image.nodes);
    if other != number && u64_key(other) == u64_key(number) {
        lemma_u64_key_injective(other, number);
    }
    assert(kept(storage.image.nodes, root.namespace_identifier, next)) by {
        assert(storage.image.branch_roots.contains_key(from_key));
    }
    let namespace = choose|namespace: Namespace| #[trigger]
        keeps_state(storage.image.nodes, root.namespace_identifier, namespace) && numbered(
            namespace,
            next,
        );
    lemma_state_stays(
        storage.image.nodes,
        storage.image.nodes,
        root.namespace_identifier,
        namespace,
    );
    assert(branch_at(after.image, storage.write.active_branch_identifier) == Some(
        storage.active.branch,
    )) by {
        if u64_key(storage.write.active_branch_identifier) == u64_key(number) {
            assert(storage.image.branches.contains_key(u64_key(number)));
        }
    }
    assert(stored_counters(after.image) == Some(after.write));
    assert(all_kept(after.image, next)) by {
        assert forall|key: Seq<u8>| #[trigger]
            after.image.branches.contains_key(key)
                && after.image.branches[key] is Some implies kept(
            after.image.nodes,
            after.image.branches[key]->0.namespace_identifier,
            next,
        ) by {
            if key != u64_key(number) {
                assert(storage.image.branches.contains_key(key));
            }
        }
        assert forall|key: Seq<u8>| #[trigger]
            after.image.branch_roots.contains_key(key)
                && after.image.branch_roots[key] is Some implies kept(
            after.image.nodes,
            after.image.branch_roots[key]->0.namespace_identifier,
            next,
        ) by {
            if key != new_key {
                assert(storage.image.branch_roots.contains_key(key));
            }
        }
    }
}

/// Switching to a branch persists; the active branch is then the named one, in its stored state.
pub proof fn lemma_branch_switch_persists(
    storage: StorageView,
    name: Seq<char>,
    number: u64,
    active: ActiveView,
)
    requires
        persisted(storage),
        storage.branch_switch(name) == Some((number, active)),
    ensures
        ({
            let after = storage.after_switch(StorageView::switch_rows(number), number, active);
            &&& persisted(after)
            &&& after.active == active
            &&& branch_at(after.image, number) == Some(active.branch)
            &&& after.image.branches == storage.image.branches
            &&& after.image.events == storage.image.events
        }),
{
    let rows = StorageView::switch_rows(number);
    let after = storage.after_switch(rows, number, active);
    let next = storage.write.next_inode_number;
    lemma_metadata_keys();
    lemma_put_one_blob(
        storage.image.metadata,
        active_branch_identifier_key(),
        u64_key(number),
    );
    lemma_u64_round_trip(number);
    assert(after.image.branches == storage.image.branches);
    assert(after.image.nodes == storage.image.nodes);
    assert(storage.image.branches.contains_key(u64_key(number)));
    assert(kept(storage.image.nodes, active.branch.namespace_identifier, next));
    let namespace = choose|namespace: Namespace| #[trigger]
        keeps_state(storage.image.nodes, active.branch.namespace_identifier, namespace) && numbered(
            namespace,
            next,
        );
    lemma_state_stays(
        storage.image.nodes,
        storage.image.nodes,
        active.branch.namespace_identifier,
        namespace,
    );
    assert(active.namespace == namespace);
    assert(stored_counters(after.image) == Some(after.write));
    assert(all_kept(after.image, next)) by {
        assert forall|key: Seq<u8>| #[trigger]
            after.image.branches.contains_key(key)
                && after.image.branches[key] is Some implies kept(
            after.image.nodes,
            after.image.branches[key]->0.namespace_identifier,
            next,
        ) by {
            assert(storage.image.branches.contains_key(key));
        }
        assert forall|key: Seq<u8>| #[trigger]
            after.image.branch_roots.contains_key(key)
                && after.image.branch_roots[key] is Some implies kept(
            after.image.nodes,
            after.image.branch_roots[key]->0.namespace_identifier,
            next,
        ) by {
            assert(storage.image.branch_roots.contains_key(key));
        }
    }
}

/// Deleting a branch persists. The branch is neither the first nor the active one; it keeps its row,
/// marked as deleted, and its events, but has no number under its name any more.
pub proof fn lemma_branch_deletion_persists(
    storage: StorageView,
    name: Seq<char>,
    batch: BatchView,
)
    requires
        persisted(storage),
        storage.branch_deletion(name) == Some(batch),
    ensures
        ({
            let after = storage.after_deletion(batch);
            let number = number_of(storage.image, name)->0;
            &&& persisted(after)
            &&& number_of(storage.image, name) is Some
            &&& number != BRANCH_IDENTIFIER_INITIAL
            &&& number != storage.write.active_branch_identifier
            &&& number_of(after.image, name) is None
            &&& branch_at(after.image, number) is Some
            &&& branch_at(after.image, number)->0.status
                == crate::filesystem::BranchStatus::Deleted
            &&& branch_at(after.image, number)->0.name == name
            &&& after.branch_switch(name) is None
            &&& after.active == storage.active
            &&& after.image.events == storage.image.events
            &&& after.image.branch_events == storage.image.branch_events
            &&& after.image.branch_roots == storage.image.branch_roots
        }),
{
    let after = storage.after_deletion(batch);
    let next = storage.write.next_inode_number;
    let number = number_of(storage.image, name)->0;
    let branch = branch_at(storage.image, number)->0;
    let deleted = BranchView { status: crate::filesystem::BranchStatus::Deleted, ..branch };
    lemma_put_one_row(storage.image.branches, u64_key(number), deleted);
    let key = vstd::utf8::encode_utf8(name);
    assert(seq![key].drop_last() =~= Seq::<Seq<u8>>::empty());
    assert(remove_keys_of(storage.image.branch_names, seq![key].drop_last())
        == storage.image.branch_names);
    assert(put_blobs(storage.image.branch_names, batch.branch_names)
        == storage.image.branch_names);
    assert(after.image.branch_names == storage.image.branch_names.remove(key));
    assert(after.image.nodes == storage.image.nodes);
    assert(after.image.metadata == storage.image.metadata);
    assert(after.image.branch_roots == storage.image.branch_roots);
    assert(branch_at(after.image, storage.write.active_branch_identifier) == Some(
        storage.active.branch,
    )) by {
        if u64_key(storage.write.active_branch_identifier) == u64_key(number) {
            lemma_u64_key_injective(storage.write.active_branch_identifier, number);
        }
    }
    assert(stored_counters(after.image) == Some(after.write));
    assert(all_kept(after.image, next)) by {
        assert forall|at: Seq<u8>| #[trigger]
            after.image.branches.contains_key(at) && after.image.branches[at] is Some implies kept(
            after.image.nodes,
            after.image.branches[at]->0.namespace_identifier,
            next,
        ) by {
            if at == u64_key(number) {
                assert(storage.image.branches.contains_key(u64_key(number)));
            } else {
                assert(storage.image.branches.contains_key(at));
            }
        }
    }
}

} // verus!
