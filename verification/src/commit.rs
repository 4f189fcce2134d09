//! Committing an event: the rows that are stored for it, and the new head of the active branch.

use vstd::prelude::*;

use crate::bytes::copy_bytes;
use crate::database::{
    push_bytes, push_row, Batch, BatchView, BranchRootView, BranchView, Database, Image,
    PayloadView, SnapshotView, StoredBranch, StoredBranchRoot, StoredEvent,
    StoredEventPayloadManifest, StoredEventView, StoredSnapshotMetadata,
};
use crate::edit::{all_sound, extents_plan, manifest_puts, put_content_manifest};
use crate::error::FuseError;
use crate::extents::{
    extent_views, extents_bounded, validate_extent_bounds, ExtentView, StoredExtent,
};
use crate::filesystem::{
    BranchIdentifier, BranchPosition, EventKind, EventPayload, EventRecord, EventRecordView,
    EventSequence,
};
use crate::inode::{InodeView, StoredInode};
use crate::keys::{
    encode_branch_file_position_key, encode_branch_position_key, encode_event_payload_manifest_key,
    encode_file_sequence_key, encode_file_snapshot_manifest_key, encode_u64, pair_key, part_key,
    triple_key, u64_key,
};
use crate::manifest::{
    empty_content_manifest_identifier, empty_identifier, named_chunks, Manifest,
};
use crate::metadata::{last_event_sequence_key, last_event_sequence_key_bytes};
use crate::namespace::{
    inode_after, namespace_inode_after_mutation, MaterializedBranchState, MutationView, Namespace,
    StoredMutation,
};
use crate::persist::{
    active_mutation_plan, encodable, put_namespace_mutation_from_active_in_database, puts_encodable,
};
use crate::trie::{node_puts, nodes_sound, RootView, StoredNamespaceRoot};

verus! {

/// Marks the overwritten bytes of an event.
pub const EVENT_PAYLOAD_PART_OVERWRITTEN: u8 = 111;

/// Marks the written bytes of an event.
pub const EVENT_PAYLOAD_PART_WRITTEN: u8 = 119;

/// Where the bytes of an event lie.
#[derive(Debug, PartialEq, Eq)]
pub enum EventPayloadExtents {
    /// The event has no bytes.
    Nothing,
    /// The event is a write.
    FileWrite {
        /// Where the overwritten bytes lie.
        overwritten_extents: Vec<StoredExtent>,
        /// Where the written bytes lie.
        written_extents: Vec<StoredExtent>,
    },
}

/// The value of where the bytes of an event lie.
pub ghost enum PayloadExtents {
    Nothing,
    FileWrite(Seq<ExtentView>, Seq<ExtentView>),
}

impl View for EventPayloadExtents {
    type V = PayloadExtents;

    open spec fn view(&self) -> PayloadExtents {
        match self {
            EventPayloadExtents::Nothing => PayloadExtents::Nothing,
            EventPayloadExtents::FileWrite { overwritten_extents, written_extents } =>
                PayloadExtents::FileWrite(
                extent_views(overwritten_extents@),
                extent_views(written_extents@),
            ),
        }
    }
}

/// What is stored beside an event.
#[derive(Debug, PartialEq, Eq)]
pub struct CommitEventPayloads {
    /// Where the bytes of the event lie.
    pub event_payload_extents: EventPayloadExtents,
    /// Manifest of the file after the event.
    pub snapshot_content_manifest_identifier: Option<Vec<u8>>,
}

impl CommitEventPayloads {
    /// Nothing beside the event.
    pub fn none() -> (payloads: Self)
        ensures
            payloads.event_payload_extents@ == PayloadExtents::Nothing,
            payloads.snapshot_content_manifest_identifier is None,
    {
        CommitEventPayloads {
            event_payload_extents: EventPayloadExtents::Nothing,
            snapshot_content_manifest_identifier: None,
        }
    }

    /// The bytes of a write and the manifest of the file after it.
    pub fn file_write(
        overwritten_extents: Vec<StoredExtent>,
        written_extents: Vec<StoredExtent>,
        snapshot_content_manifest_identifier: Vec<u8>,
    ) -> (payloads: Self)
        ensures
            payloads.event_payload_extents@ == PayloadExtents::FileWrite(
                extent_views(overwritten_extents@),
                extent_views(written_extents@),
            ),
            crate::bytes::optional_view(payloads.snapshot_content_manifest_identifier) == Some(
                snapshot_content_manifest_identifier@,
            ),
    {
        CommitEventPayloads {
            event_payload_extents: EventPayloadExtents::FileWrite {
                overwritten_extents,
                written_extents,
            },
            snapshot_content_manifest_identifier: Some(snapshot_content_manifest_identifier),
        }
    }
}

/// The active branch, its roots and its state.
#[derive(Debug, PartialEq, Eq)]
pub struct ActiveBranchState {
    /// The branch.
    pub branch: StoredBranch,
    /// The roots of its state.
    pub namespace_root: StoredNamespaceRoot,
    /// Its state.
    pub namespace: MaterializedBranchState,
}

/// The value of the active branch, its roots and its state.
pub ghost struct ActiveView {
    pub branch: BranchView,
    pub root: RootView,
    pub namespace: Namespace,
}

impl View for ActiveBranchState {
    type V = ActiveView;

    open spec fn view(&self) -> ActiveView {
        ActiveView {
            branch: self.branch@,
            root: self.namespace_root@,
            namespace: self.namespace@,
        }
    }
}

/// A commit of the active branch.
#[derive(Debug, PartialEq, Eq)]
pub struct ActiveBranchCommit {
    /// The branch after the commit.
    pub branch: StoredBranch,
    /// The roots of its state after the commit.
    pub namespace_root: StoredNamespaceRoot,
    /// What the commit changed.
    pub mutation: StoredMutation,
}

impl ActiveBranchState {
    /// Creates the active branch.
    pub fn new(
        branch: StoredBranch,
        namespace_root: StoredNamespaceRoot,
        namespace: MaterializedBranchState,
    ) -> (state: Self)
        ensures
            state@ == (ActiveView {
                branch: branch@,
                root: namespace_root@,
                namespace: namespace@,
            }),
    {
        ActiveBranchState { branch, namespace_root, namespace }
    }

    /// Moves the active branch to a commit.
    pub fn apply_commit(&mut self, commit: ActiveBranchCommit)
        ensures
            final(self)@ == (ActiveView {
                branch: commit.branch@,
                root: commit.namespace_root@,
                namespace: old(self)@.namespace.after(commit.mutation@),
            }),
    {
        self.branch = commit.branch;
        self.namespace_root = commit.namespace_root;
        self.namespace.apply(&commit.mutation);
    }
}

/// Joining batches does not depend on how they are grouped.
pub proof fn lemma_batches_join(a: BatchView, b: BatchView, c: BatchView)
    ensures
        a.then_batch(b).then_batch(c) == a.then_batch(b.then_batch(c)),
        a.then_batch(BatchView::nothing()) == a,
        BatchView::nothing().then_batch(a) == a,
{
    assert(a.then_batch(b).then_batch(c) =~= a.then_batch(b.then_batch(c)));
    assert(a.then_batch(BatchView::nothing()) =~= a);
    assert(BatchView::nothing().then_batch(a) =~= a);
}

/// The rows for one part of the bytes of an event: none for no bytes. Not possible where an extent
/// ends past the bytes.
pub open spec fn payload_part(
    sequence: u64,
    part: u8,
    byte_length: u64,
    extents: Seq<ExtentView>,
) -> Option<BatchView> {
    if byte_length == 0 {
        Some(BatchView::nothing())
    } else if !extents_bounded(extents, byte_length) {
        None
    } else {
        Some(
            BatchView {
                manifests: manifest_puts(extents_plan(extents).nodes),
                payloads: seq![
                    (
                        part_key(sequence, part),
                        PayloadView {
                            byte_length,
                            content_manifest_identifier: extents_plan(extents).identifier,
                        },
                    ),
                ],
                ..BatchView::nothing()
            },
        )
    }
}

/// What adding rows to a batch gives: the batch with them, or an integrity error where they cannot be
/// made.
pub open spec fn adds_rows(
    result: Result<(), FuseError>,
    before: BatchView,
    after: BatchView,
    rows: Option<BatchView>,
) -> bool {
    match result {
        Ok(_) => rows is Some && after == before.then_batch(rows->0),
        Err(error) => error == FuseError::Integrity && rows is None,
    }
}

/// Stores one part of the bytes of an event.
pub fn put_event_payload_manifest(
    batch: &mut Batch,
    event_sequence: EventSequence,
    part: u8,
    byte_length: u64,
    extents: &[StoredExtent],
) -> (result: Result<(), FuseError>)
    ensures
        adds_rows(
            result,
            old(batch)@,
            final(batch)@,
            payload_part(event_sequence.0, part, byte_length, extent_views(extents@)),
        ),
        named_chunks(extent_views(extents@)) ==> all_sound(
            extents_plan(extent_views(extents@)).nodes,
        ) || byte_length == 0 || result is Err,
{
    let ghost before = batch@;
    if byte_length == 0 {
        proof {
            lemma_batches_join(before, before, before);
        }
        return Ok(());
    }
    match validate_extent_bounds(extents, byte_length) {
        Err(error) => return Err(error),
        Ok(_) => {},
    }
    let content_manifest_identifier = put_content_manifest(
        &mut batch.content_manifest_nodes,
        extents,
    );
    push_row(
        &mut batch.event_payload_manifests,
        encode_event_payload_manifest_key(event_sequence.get(), part),
        StoredEventPayloadManifest { byte_length, content_manifest_identifier },
    );
    proof {
        let rows = payload_part(
            event_sequence.0,
            part,
            byte_length,
            extent_views(extents@),
        )->0;
        assert(batch@ =~= before.then_batch(rows));
    }
    Ok(())
}

/// The rows for the bytes of an event.
pub open spec fn payload_rows(
    sequence: u64,
    event: EventRecordView,
    payload: PayloadExtents,
) -> Option<BatchView> {
    match payload {
        PayloadExtents::Nothing => Some(BatchView::nothing()),
        PayloadExtents::FileWrite(overwritten, written) => {
            let first = payload_part(
                sequence,
                EVENT_PAYLOAD_PART_OVERWRITTEN,
                match event.overwritten_length() {
                    Some(length) => length,
                    None => 0,
                },
                overwritten,
            );
            let second = payload_part(
                sequence,
                EVENT_PAYLOAD_PART_WRITTEN,
                match event.written_length() {
                    Some(length) => length,
                    None => 0,
                },
                written,
            );
            if first is Some && second is Some {
                Some(first->0.then_batch(second->0))
            } else {
                None
            }
        },
    }
}

/// The manifests stored for one part of the bytes of an event.
pub open spec fn part_manifests(byte_length: Option<u64>, extents: Seq<ExtentView>) -> Seq<Manifest> {
    match byte_length {
        Some(length) => if length == 0 {
            Seq::empty()
        } else {
            extents_plan(extents).nodes
        },
        None => Seq::empty(),
    }
}

/// The manifests stored for the bytes of an event.
pub open spec fn payload_manifests(event: EventRecordView, payload: PayloadExtents) -> Seq<Manifest> {
    match payload {
        PayloadExtents::Nothing => Seq::empty(),
        PayloadExtents::FileWrite(overwritten, written) => part_manifests(
            event.overwritten_length(),
            overwritten,
        ) + part_manifests(event.written_length(), written),
    }
}

/// The bytes of an event lie in chunks with identifiers of the usual length.
pub open spec fn payload_named(payload: PayloadExtents) -> bool {
    match payload {
        PayloadExtents::Nothing => true,
        PayloadExtents::FileWrite(overwritten, written) => named_chunks(overwritten)
            && named_chunks(written),
    }
}

/// The rows for the bytes of an event store just their manifests.
pub proof fn lemma_payload_manifests(
    sequence: u64,
    event: EventRecordView,
    payload: PayloadExtents,
)
    requires
        payload_rows(sequence, event, payload) is Some,
    ensures
        payload_rows(sequence, event, payload)->0.manifests == manifest_puts(
            payload_manifests(event, payload),
        ),
{
    assert(payload_rows(sequence, event, payload)->0.manifests =~= manifest_puts(
        payload_manifests(event, payload),
    ));
}

/// Stores the bytes of an event.
pub fn put_event_payloads(
    batch: &mut Batch,
    event_sequence: EventSequence,
    event: &EventRecord,
    payload_extents: EventPayloadExtents,
) -> (result: Result<(), FuseError>)
    ensures
        adds_rows(
            result,
            old(batch)@,
            final(batch)@,
            payload_rows(event_sequence.0, event@, payload_extents@),
        ),
        result is Ok && payload_named(payload_extents@) ==> all_sound(
            payload_manifests(event@, payload_extents@),
        ),
{
    let ghost before = batch@;
    match payload_extents {
        EventPayloadExtents::Nothing => {
            proof {
                lemma_batches_join(before, before, before);
            }
            Ok(())
        },
        EventPayloadExtents::FileWrite { overwritten_extents, written_extents } => {
            let overwritten_length: u64 = match event.overwritten_byte_length() {
                Some(length) => length,
                None => 0,
            };
            let written_length: u64 = match event.written_byte_length() {
                Some(length) => length,
                None => 0,
            };
            match put_event_payload_manifest(
                batch,
                event_sequence,
                EVENT_PAYLOAD_PART_OVERWRITTEN,
                overwritten_length,
                overwritten_extents.as_slice(),
            ) {
                Err(error) => return Err(error),
                Ok(_) => {},
            }
            let result = put_event_payload_manifest(
                batch,
                event_sequence,
                EVENT_PAYLOAD_PART_WRITTEN,
                written_length,
                written_extents.as_slice(),
            );
            proof {
                let first = payload_part(
                    event_sequence.0,
                    EVENT_PAYLOAD_PART_OVERWRITTEN,
                    overwritten_length,
                    extent_views(overwritten_extents@),
                )->0;
                let second = payload_part(
                    event_sequence.0,
                    EVENT_PAYLOAD_PART_WRITTEN,
                    written_length,
                    extent_views(written_extents@),
                );
                if second is Some {
                    lemma_batches_join(before, first, second->0);
                }
            }
            result
        },
    }
}

/// The rows that list an event: under its file, under its branch, under both, and the state of the
/// branch after it.
pub open spec fn index_rows(
    sequence: u64,
    event: EventRecordView,
    position: BranchPosition,
    namespace_identifier: Seq<u8>,
) -> BatchView {
    let branch = position.branch_identifier.0;
    let ordinal = position.ordinal;
    BatchView {
        file_events: match event.file_identifier {
            Some(file) => seq![(pair_key(file.0, sequence), Seq::empty())],
            None => Seq::empty(),
        },
        branch_events: seq![(pair_key(branch, ordinal), u64_key(sequence))],
        branch_file_events: match event.file_identifier {
            Some(file) => seq![(triple_key(branch, file.0, ordinal), u64_key(sequence))],
            None => Seq::empty(),
        },
        branch_roots: seq![
            (pair_key(branch, ordinal), BranchRootView { sequence, namespace_identifier }),
        ],
        ..BatchView::nothing()
    }
}

/// Lists an event under its file, under its branch and under both, and stores the state of the branch
/// after it.
pub fn put_event_indexes(
    batch: &mut Batch,
    event_sequence: EventSequence,
    event: &EventRecord,
    branch_position: BranchPosition,
    namespace_identifier: &[u8],
)
    ensures
        final(batch)@ == old(batch)@.then_batch(
            index_rows(event_sequence.0, event@, branch_position, namespace_identifier@),
        ),
{
    let ghost before = batch@;
    let branch: u64 = branch_position.branch_identifier().get();
    let ordinal: u64 = branch_position.ordinal();
    match event.file_identifier() {
        Some(file_identifier) => {
            let empty: Vec<u8> = Vec::new();
            proof {
                assert(empty@ =~= Seq::<u8>::empty());
            }
            push_bytes(
                &mut batch.file_events,
                encode_file_sequence_key(file_identifier.get(), event_sequence.get()),
                empty,
            );
            push_bytes(
                &mut batch.branch_file_events,
                encode_branch_file_position_key(branch, file_identifier.get(), ordinal),
                encode_u64(event_sequence.get()),
            );
        },
        None => {},
    }
    push_bytes(
        &mut batch.branch_events,
        encode_branch_position_key(branch, ordinal),
        encode_u64(event_sequence.get()),
    );
    push_row(
        &mut batch.branch_roots,
        encode_branch_position_key(branch, ordinal),
        StoredBranchRoot {
            sequence: event_sequence.get(),
            namespace_identifier: copy_bytes(namespace_identifier),
        },
    );
    proof {
        assert(batch@ =~= before.then_batch(
            index_rows(event_sequence.0, event@, branch_position, namespace_identifier@),
        ));
    }
}

/// The file size that an event leaves: that of a write, else zero.
pub open spec fn snapshot_size(event: EventRecordView) -> u64 {
    match event.payload {
        EventPayload::FileWrite { new_file_size, .. } => new_file_size,
        _ => 0,
    }
}

/// Events of a kind leave a snapshot of their file.
pub open spec fn leaves_snapshot(kind: EventKind) -> bool {
    kind == EventKind::NodeCreated || kind == EventKind::FileCreated || kind
        == EventKind::FileWritten
}

/// The snapshot row of an event: of a creation or write of a file, with the given manifest, else that
/// of the inode, else the empty one.
pub open spec fn snapshot_rows(
    sequence: u64,
    event: EventRecordView,
    position: BranchPosition,
    inode: Option<InodeView>,
    manifest: Option<Seq<u8>>,
) -> BatchView {
    BatchView {
        snapshots: if leaves_snapshot(event.kind) && event.file_identifier is Some {
            seq![
                (
                    triple_key(
                        position.branch_identifier.0,
                        (event.file_identifier->0).0,
                        position.ordinal,
                    ),
                    SnapshotView {
                        file_size: snapshot_size(event),
                        sequence,
                        content_manifest_identifier: match manifest {
                            Some(identifier) => identifier,
                            None => match inode {
                                Some(inode) => match inode.content_manifest_identifier {
                                    Some(identifier) => identifier,
                                    None => empty_identifier(),
                                },
                                None => empty_identifier(),
                            },
                        },
                    },
                ),
            ]
        } else {
            Seq::empty()
        },
        ..BatchView::nothing()
    }
}

/// Stores the snapshot that an event leaves.
pub fn put_file_snapshot_for_event(
    batch: &mut Batch,
    event_sequence: EventSequence,
    event: &EventRecord,
    branch_position: BranchPosition,
    final_inode: Option<&StoredInode>,
    snapshot_content_manifest_identifier: Option<Vec<u8>>,
)
    ensures
        final(batch)@ == old(batch)@.then_batch(
            snapshot_rows(
                event_sequence.0,
                event@,
                branch_position,
                match final_inode {
                    Some(inode) => Some(inode@),
                    None => None,
                },
                crate::bytes::optional_view(snapshot_content_manifest_identifier),
            ),
        ),
{
    let ghost before = batch@;
    let ghost rows = snapshot_rows(
        event_sequence.0,
        event@,
        branch_position,
        match final_inode {
            Some(inode) => Some(inode@),
            None => None,
        },
        crate::bytes::optional_view(snapshot_content_manifest_identifier),
    );
    let kind = event.kind();
    let leaves = kind == EventKind::NodeCreated || kind == EventKind::FileCreated || kind
        == EventKind::FileWritten;
    match event.file_identifier() {
        Some(file_identifier) => if leaves {
            let file_size: u64 = match event.payload() {
                EventPayload::FileWrite { new_file_size, .. } => new_file_size,
                _ => 0,
            };
            let content_manifest_identifier = match snapshot_content_manifest_identifier {
                Some(identifier) => identifier,
                None => match final_inode {
                    Some(inode) => match &inode.content_manifest_identifier {
                        Some(identifier) => copy_bytes(identifier.as_slice()),
                        None => empty_content_manifest_identifier(),
                    },
                    None => empty_content_manifest_identifier(),
                },
            };
            push_row(
                &mut batch.file_snapshot_manifests,
                encode_file_snapshot_manifest_key(
                    branch_position.branch_identifier().get(),
                    file_identifier.get(),
                    branch_position.ordinal(),
                ),
                StoredSnapshotMetadata {
                    file_size,
                    sequence: event_sequence.get(),
                    content_manifest_identifier,
                },
            );
        },
        None => {},
    }
    proof {
        assert(batch@ =~= before.then_batch(rows));
    }
}

/// The position of the next event of the active branch.
pub open spec fn next_position(active: ActiveView) -> BranchPosition {
    BranchPosition {
        branch_identifier: BranchIdentifier(active.branch.identifier),
        ordinal: (active.branch.head_ordinal + 1) as u64,
    }
}

/// An event placed at the head of the active branch.
pub open spec fn placed_event(active: ActiveView, event: EventRecordView) -> EventRecordView {
    event.on_branch(
        BranchIdentifier(active.branch.identifier),
        next_position(active),
        EventSequence(active.branch.head_sequence),
    )
}

/// What a commit stores, and the active branch after it.
pub ghost struct CommitView {
    pub rows: BatchView,
    pub active: ActiveView,
}

/// The commit of an event and its mutation on the active branch. It is not possible where another
/// branch is active, positions are used up, the state cannot be stored, the sequence is taken or the
/// bytes of the event do not fit.
pub open spec fn commit_of(
    image: Image,
    active: ActiveView,
    active_identifier: u64,
    sequence: EventSequence,
    event: EventRecordView,
    payload: PayloadExtents,
    manifest: Option<Seq<u8>>,
    mutation: MutationView,
) -> Option<CommitView> {
    let stored = active_mutation_plan(image.nodes, active.root, active.namespace, mutation);
    let record = placed_event(active, event);
    let position = next_position(active);
    let payloads = payload_rows(sequence.0, record, payload);
    if active.branch.identifier != active_identifier || active.branch.head_ordinal == u64::MAX
        || stored is None || image.events.contains_key(u64_key(sequence.0)) || payloads is None {
        None
    } else {
        let (plan, root) = stored->0;
        let branch = BranchView {
            head_sequence: sequence.0,
            head_ordinal: position.ordinal,
            namespace_identifier: plan.identifier,
            ..active.branch
        };
        let inode = match record.file_identifier {
            Some(file) => inode_after(active.namespace, mutation, file.0),
            None => None,
        };
        let rows = BatchView {
            nodes: node_puts(plan.nodes),
            events: seq![(u64_key(sequence.0), StoredEventView { record, mutation })],
            branches: seq![(u64_key(branch.identifier), branch)],
            metadata: seq![(last_event_sequence_key(), u64_key(sequence.0))],
            ..BatchView::nothing()
        }.then_batch(payloads->0).then_batch(
            index_rows(sequence.0, record, position, plan.identifier),
        ).then_batch(snapshot_rows(sequence.0, record, position, inode, manifest));
        Some(
            CommitView {
                rows,
                active: ActiveView { branch, root, namespace: active.namespace.after(mutation) },
            },
        )
    }
}

/// Prepares the commit of an event on the active branch: adds its rows to a batch.
pub fn commit_event_with_payloads(
    database: &Database,
    batch: &mut Batch,
    active_state: &ActiveBranchState,
    active_branch_identifier: BranchIdentifier,
    event_sequence: EventSequence,
    event: &EventRecord,
    payloads: CommitEventPayloads,
    mutation: StoredMutation,
) -> (result: Result<ActiveBranchCommit, FuseError>)
    ensures
        ({
            let commit = commit_of(
                database@,
                active_state@,
                active_branch_identifier.0,
                event_sequence,
                event@,
                payloads.event_payload_extents@,
                crate::bytes::optional_view(payloads.snapshot_content_manifest_identifier),
                mutation@,
            );
            match result {
                Ok(prepared) => {
                    &&& commit is Some
                    &&& final(batch)@ == old(batch)@.then_batch(commit->0.rows)
                    &&& prepared.branch@ == commit->0.active.branch
                    &&& prepared.namespace_root@ == commit->0.active.root
                    &&& prepared.mutation@ == mutation@
                    &&& nodes_sound(
                        (active_mutation_plan(
                            database@.nodes,
                            active_state@.root,
                            active_state@.namespace,
                            mutation@,
                        )->0).0.nodes,
                    )
                    &&& encodable(active_state@.namespace)
                    &&& puts_encodable(mutation@)
                    &&& payload_named(payloads.event_payload_extents@) ==> all_sound(
                        payload_manifests(event@, payloads.event_payload_extents@),
                    )
                },
                Err(error) => error == FuseError::Integrity && commit is None,
            }
        }),
{
    let ghost before = batch@;
    let ghost active = active_state@;
    if active_state.branch.identifier != active_branch_identifier.get() {
        return Err(FuseError::Integrity);
    }
    let ordinal: u64 = match active_state.branch.head_ordinal.checked_add(1) {
        Some(ordinal) => ordinal,
        None => return Err(FuseError::Integrity),
    };
    let branch_position = BranchPosition::new(active_branch_identifier, ordinal);
    let first_parent = EventSequence::new(active_state.branch.head_sequence);
    let (namespace_identifier, namespace_root) =
        match put_namespace_mutation_from_active_in_database(
        &database.namespace_nodes,
        &mut batch.namespace_nodes,
        &active_state.namespace_root,
        &active_state.namespace,
        &mutation,
    ) {
        Err(_) => return Err(FuseError::Integrity),
        Ok(pair) => pair,
    };
    let ghost plan = (active_mutation_plan(
        database@.nodes,
        active.root,
        active.namespace,
        mutation@,
    )->0).0;
    let record = event.clone().with_branch(active_branch_identifier, branch_position, first_parent);
    let event_key = encode_u64(event_sequence.get());
    if database.events.contains_key(event_key.as_slice()) {
        return Err(FuseError::Integrity);
    }
    let mut branch = active_state.branch.clone();
    branch.head_sequence = event_sequence.get();
    branch.head_ordinal = ordinal;
    branch.namespace_identifier = copy_bytes(namespace_identifier.as_slice());
    push_row(
        &mut batch.events,
        event_key,
        StoredEvent { record: record.clone(), mutation: mutation.clone() },
    );
    push_row(&mut batch.branches, encode_u64(branch.identifier), branch.clone());
    push_bytes(
        &mut batch.metadata,
        last_event_sequence_key_bytes(),
        encode_u64(event_sequence.get()),
    );
    let ghost own = BatchView {
        nodes: node_puts(plan.nodes),
        events: seq![
            (
                u64_key(event_sequence.0),
                StoredEventView { record: record@, mutation: mutation@ },
            ),
        ],
        branches: seq![(u64_key(branch.identifier), branch@)],
        metadata: seq![(last_event_sequence_key(), u64_key(event_sequence.0))],
        ..BatchView::nothing()
    };
    proof {
        assert(batch@ =~= before.then_batch(own));
    }
    let ghost payload_extents = payloads.event_payload_extents@;
    match put_event_payloads(batch, event_sequence, &record, payloads.event_payload_extents) {
        Err(error) => return Err(error),
        Ok(_) => {},
    }
    put_event_indexes(
        batch,
        event_sequence,
        &record,
        branch_position,
        namespace_identifier.as_slice(),
    );
    let snapshot_inode = match record.file_identifier() {
        Some(file_identifier) => namespace_inode_after_mutation(
            &active_state.namespace,
            &mutation,
            file_identifier.get(),
        ),
        None => None,
    };
    put_file_snapshot_for_event(
        batch,
        event_sequence,
        &record,
        branch_position,
        snapshot_inode,
        payloads.snapshot_content_manifest_identifier,
    );
    proof {
        let paid = payload_rows(event_sequence.0, record@, payload_extents)->0;
        let index = index_rows(
            event_sequence.0,
            record@,
            branch_position,
            namespace_identifier@,
        );
        let snapshot = snapshot_rows(
            event_sequence.0,
            record@,
            branch_position,
            match snapshot_inode {
                Some(inode) => Some(inode@),
                None => None,
            },
            crate::bytes::optional_view(payloads.snapshot_content_manifest_identifier),
        );
        lemma_batches_join(before, own, paid);
        lemma_batches_join(before, own.then_batch(paid), index);
        lemma_batches_join(before, own.then_batch(paid).then_batch(index), snapshot);
    }
    Ok(ActiveBranchCommit { branch, namespace_root, mutation })
}

} // verus!
