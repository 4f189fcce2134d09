//! The stored tables, the batches of changes to them, and the allocation counters.

use vstd::prelude::*;

use crate::bytes::copy_bytes;
use crate::error::{Errno, FuseError};
use crate::filesystem::{BranchStatus, EventRecord, EventRecordView, EventSequence};
use crate::hash::{blobs, put_views, Blobs, BytesPut};
use crate::inode::INODE_FIRST_ALLOCATED;
use crate::namespace::{MutationView, StoredMutation};
use crate::table::Table;

verus! {

/// A stored event: its record and what it changed.
#[derive(Debug, PartialEq, Eq)]
pub struct StoredEvent {
    /// The record.
    pub record: EventRecord,
    /// What the event changed.
    pub mutation: StoredMutation,
}

/// The value of a stored event.
pub ghost struct StoredEventView {
    pub record: EventRecordView,
    pub mutation: MutationView,
}

impl View for StoredEvent {
    type V = StoredEventView;

    open spec fn view(&self) -> StoredEventView {
        StoredEventView { record: self.record@, mutation: self.mutation@ }
    }
}

/// A stored branch.
#[derive(Debug, PartialEq, Eq)]
pub struct StoredBranch {
    /// Number of the branch.
    pub identifier: u64,
    /// Name of the branch.
    pub name: String,
    /// Whether the branch is open.
    pub status: BranchStatus,
    /// Sequence of the newest event.
    pub head_sequence: u64,
    /// Position of the newest event.
    pub head_ordinal: u64,
    /// The state of the branch.
    pub namespace_identifier: Vec<u8>,
    /// The branch that it was forked from.
    pub fork_branch_identifier: Option<u64>,
    /// The position that it was forked at.
    pub fork_ordinal: Option<u64>,
}

/// The value of a stored branch.
pub ghost struct BranchView {
    pub identifier: u64,
    pub name: Seq<char>,
    pub status: BranchStatus,
    pub head_sequence: u64,
    pub head_ordinal: u64,
    pub namespace_identifier: Seq<u8>,
    pub fork_branch_identifier: Option<u64>,
    pub fork_ordinal: Option<u64>,
}

impl View for StoredBranch {
    type V = BranchView;

    open spec fn view(&self) -> BranchView {
        BranchView {
            identifier: self.identifier,
            name: self.name@,
            status: self.status,
            head_sequence: self.head_sequence,
            head_ordinal: self.head_ordinal,
            namespace_identifier: self.namespace_identifier@,
            fork_branch_identifier: self.fork_branch_identifier,
            fork_ordinal: self.fork_ordinal,
        }
    }
}

impl Clone for StoredBranch {
    fn clone(&self) -> (branch: Self)
        ensures
            branch@ == self@,
    {
        StoredBranch {
            identifier: self.identifier,
            name: self.name.clone(),
            status: self.status,
            head_sequence: self.head_sequence,
            head_ordinal: self.head_ordinal,
            namespace_identifier: copy_bytes(self.namespace_identifier.as_slice()),
            fork_branch_identifier: self.fork_branch_identifier,
            fork_ordinal: self.fork_ordinal,
        }
    }
}

/// The state of a branch after one event.
#[derive(Debug, PartialEq, Eq)]
pub struct StoredBranchRoot {
    /// Sequence of the event.
    pub sequence: u64,
    /// The state.
    pub namespace_identifier: Vec<u8>,
}

/// The value of the state of a branch after one event.
pub ghost struct BranchRootView {
    pub sequence: u64,
    pub namespace_identifier: Seq<u8>,
}

impl View for StoredBranchRoot {
    type V = BranchRootView;

    open spec fn view(&self) -> BranchRootView {
        BranchRootView {
            sequence: self.sequence,
            namespace_identifier: self.namespace_identifier@,
        }
    }
}

impl Clone for StoredBranchRoot {
    fn clone(&self) -> (root: Self)
        ensures
            root@ == self@,
    {
        StoredBranchRoot {
            sequence: self.sequence,
            namespace_identifier: copy_bytes(self.namespace_identifier.as_slice()),
        }
    }
}

/// The contents of a file after one event.
#[derive(Debug, PartialEq, Eq)]
pub struct StoredSnapshotMetadata {
    /// Size of the file.
    pub file_size: u64,
    /// Sequence of the event.
    pub sequence: u64,
    /// Manifest of the contents.
    pub content_manifest_identifier: Vec<u8>,
}

/// The value of the contents of a file after one event.
pub ghost struct SnapshotView {
    pub file_size: u64,
    pub sequence: u64,
    pub content_manifest_identifier: Seq<u8>,
}

impl View for StoredSnapshotMetadata {
    type V = SnapshotView;

    open spec fn view(&self) -> SnapshotView {
        SnapshotView {
            file_size: self.file_size,
            sequence: self.sequence,
            content_manifest_identifier: self.content_manifest_identifier@,
        }
    }
}

impl Clone for StoredSnapshotMetadata {
    fn clone(&self) -> (metadata: Self)
        ensures
            metadata@ == self@,
    {
        StoredSnapshotMetadata {
            file_size: self.file_size,
            sequence: self.sequence,
            content_manifest_identifier: copy_bytes(self.content_manifest_identifier.as_slice()),
        }
    }
}

/// Bytes that an event overwrote or wrote.
#[derive(Debug, PartialEq, Eq)]
pub struct StoredEventPayloadManifest {
    /// Number of bytes.
    pub byte_length: u64,
    /// Manifest of the bytes.
    pub content_manifest_identifier: Vec<u8>,
}

/// The value of bytes that an event overwrote or wrote.
pub ghost struct PayloadView {
    pub byte_length: u64,
    pub content_manifest_identifier: Seq<u8>,
}

impl View for StoredEventPayloadManifest {
    type V = PayloadView;

    open spec fn view(&self) -> PayloadView {
        PayloadView {
            byte_length: self.byte_length,
            content_manifest_identifier: self.content_manifest_identifier@,
        }
    }
}

/// A row of a table, `None` where its bytes could not be decoded.
pub open spec fn row_view<V: View>(row: Option<V>) -> Option<V::V> {
    match row {
        None => None,
        Some(value) => Some(value@),
    }
}

/// The rows of a table.
pub open spec fn table_view<V: View>(map: Map<Seq<u8>, Option<V>>) -> Map<Seq<u8>, Option<V::V>> {
    map.map_values(|row: Option<V>| row_view(row))
}

/// The stored tables. A row is `None` where the bytes under its key could not be decoded.
#[derive(Debug, PartialEq, Eq)]
pub struct Database {
    /// Counters and names.
    pub metadata: Table<Vec<u8>>,
    /// Events by sequence.
    pub events: Table<Option<StoredEvent>>,
    /// Events of a file by sequence.
    pub file_events: Table<Vec<u8>>,
    /// Branches by number.
    pub branches: Table<Option<StoredBranch>>,
    /// Numbers of branches by name.
    pub branch_names: Table<Vec<u8>>,
    /// Events of a branch by position.
    pub branch_events: Table<Vec<u8>>,
    /// Events of a file on a branch by position.
    pub branch_file_events: Table<Vec<u8>>,
    /// Content chunks by identifier.
    pub content_chunks: Table<Vec<u8>>,
    /// Content manifests by identifier.
    pub content_manifest_nodes: Table<Vec<u8>>,
    /// Nodes of branch states by identifier.
    pub namespace_nodes: Table<Vec<u8>>,
    /// States of a branch by position.
    pub branch_roots: Table<Option<StoredBranchRoot>>,
    /// Contents of a file on a branch by position.
    pub file_snapshot_manifests: Table<Option<StoredSnapshotMetadata>>,
    /// Bytes of an event by sequence and part.
    pub event_payload_manifests: Table<Option<StoredEventPayloadManifest>>,
}

/// The value of the stored tables.
#[verifier::ext_equal]
pub ghost struct Image {
    pub metadata: Blobs,
    pub events: Map<Seq<u8>, Option<StoredEventView>>,
    pub file_events: Blobs,
    pub branches: Map<Seq<u8>, Option<BranchView>>,
    pub branch_names: Blobs,
    pub branch_events: Blobs,
    pub branch_file_events: Blobs,
    pub chunks: Blobs,
    pub manifests: Blobs,
    pub nodes: Blobs,
    pub branch_roots: Map<Seq<u8>, Option<BranchRootView>>,
    pub snapshots: Map<Seq<u8>, Option<SnapshotView>>,
    pub payloads: Map<Seq<u8>, Option<PayloadView>>,
}

impl View for Database {
    type V = Image;

    open spec fn view(&self) -> Image {
        Image {
            metadata: blobs(self.metadata@),
            events: table_view(self.events@),
            file_events: blobs(self.file_events@),
            branches: table_view(self.branches@),
            branch_names: blobs(self.branch_names@),
            branch_events: blobs(self.branch_events@),
            branch_file_events: blobs(self.branch_file_events@),
            chunks: blobs(self.content_chunks@),
            manifests: blobs(self.content_manifest_nodes@),
            nodes: blobs(self.namespace_nodes@),
            branch_roots: table_view(self.branch_roots@),
            snapshots: table_view(self.file_snapshot_manifests@),
            payloads: table_view(self.event_payload_manifests@),
        }
    }
}

impl Image {
    /// Tables without rows.
    pub open spec fn nothing() -> Image {
        Image {
            metadata: Map::empty(),
            events: Map::empty(),
            file_events: Map::empty(),
            branches: Map::empty(),
            branch_names: Map::empty(),
            branch_events: Map::empty(),
            branch_file_events: Map::empty(),
            chunks: Map::empty(),
            manifests: Map::empty(),
            nodes: Map::empty(),
            branch_roots: Map::empty(),
            snapshots: Map::empty(),
            payloads: Map::empty(),
        }
    }

    /// The tables after a batch was written.
    pub open spec fn after(self, batch: BatchView) -> Image {
        Image {
            metadata: put_blobs(self.metadata, batch.metadata),
            events: put_rows(self.events, batch.events),
            file_events: put_blobs(self.file_events, batch.file_events),
            branches: put_rows(self.branches, batch.branches),
            branch_names: remove_keys_of(
                put_blobs(self.branch_names, batch.branch_names),
                batch.branch_name_deletes,
            ),
            branch_events: put_blobs(self.branch_events, batch.branch_events),
            branch_file_events: put_blobs(self.branch_file_events, batch.branch_file_events),
            chunks: put_blobs(self.chunks, batch.chunks),
            manifests: put_blobs(self.manifests, batch.manifests),
            nodes: put_blobs(self.nodes, batch.nodes),
            branch_roots: put_rows(self.branch_roots, batch.branch_roots),
            snapshots: put_rows(self.snapshots, batch.snapshots),
            payloads: put_rows(self.payloads, batch.payloads),
        }
    }
}

/// A row to be stored under a key.
#[derive(Debug, PartialEq, Eq)]
pub struct RowPut<V> {
    /// The key.
    pub key: Vec<u8>,
    /// The row.
    pub value: V,
}

/// The keys and rows of puts.
pub open spec fn row_puts<V: View>(puts: Seq<RowPut<V>>) -> Seq<(Seq<u8>, V::V)> {
    Seq::new(puts.len(), |i: int| (puts[i].key@, puts[i].value@))
}

/// Stores bytes, one put after the other.
pub open spec fn put_blobs(map: Blobs, puts: Seq<(Seq<u8>, Seq<u8>)>) -> Blobs
    decreases puts.len(),
{
    if puts.len() == 0 {
        map
    } else {
        put_blobs(map, puts.drop_last()).insert(puts.last().0, puts.last().1)
    }
}

/// Stores rows, one put after the other.
pub open spec fn put_rows<W>(
    map: Map<Seq<u8>, Option<W>>,
    puts: Seq<(Seq<u8>, W)>,
) -> Map<Seq<u8>, Option<W>>
    decreases puts.len(),
{
    if puts.len() == 0 {
        map
    } else {
        put_rows(map, puts.drop_last()).insert(puts.last().0, Some(puts.last().1))
    }
}

/// Removes keys, one after the other.
pub open spec fn remove_keys_of(map: Blobs, keys: Seq<Seq<u8>>) -> Blobs
    decreases keys.len(),
{
    if keys.len() == 0 {
        map
    } else {
        remove_keys_of(map, keys.drop_last()).remove(keys.last())
    }
}

/// Changes to the stored tables that are written together.
#[derive(Debug, PartialEq, Eq)]
pub struct Batch {
    /// Counters and names.
    pub metadata: Vec<BytesPut>,
    /// Events.
    pub events: Vec<RowPut<StoredEvent>>,
    /// Events of files.
    pub file_events: Vec<BytesPut>,
    /// Branches.
    pub branches: Vec<RowPut<StoredBranch>>,
    /// Numbers of branches by name.
    pub branch_names: Vec<BytesPut>,
    /// Names of branches to delete.
    pub branch_name_deletes: Vec<Vec<u8>>,
    /// Events of branches.
    pub branch_events: Vec<BytesPut>,
    /// Events of files on branches.
    pub branch_file_events: Vec<BytesPut>,
    /// Content chunks.
    pub content_chunks: Vec<BytesPut>,
    /// Content manifests.
    pub content_manifest_nodes: Vec<BytesPut>,
    /// Nodes of branch states.
    pub namespace_nodes: Vec<BytesPut>,
    /// States of branches.
    pub branch_roots: Vec<RowPut<StoredBranchRoot>>,
    /// Contents of files.
    pub file_snapshot_manifests: Vec<RowPut<StoredSnapshotMetadata>>,
    /// Bytes of events.
    pub event_payload_manifests: Vec<RowPut<StoredEventPayloadManifest>>,
}

/// The value of a batch.
#[verifier::ext_equal]
pub ghost struct BatchView {
    pub metadata: Seq<(Seq<u8>, Seq<u8>)>,
    pub events: Seq<(Seq<u8>, StoredEventView)>,
    pub file_events: Seq<(Seq<u8>, Seq<u8>)>,
    pub branches: Seq<(Seq<u8>, BranchView)>,
    pub branch_names: Seq<(Seq<u8>, Seq<u8>)>,
    pub branch_name_deletes: Seq<Seq<u8>>,
    pub branch_events: Seq<(Seq<u8>, Seq<u8>)>,
    pub branch_file_events: Seq<(Seq<u8>, Seq<u8>)>,
    pub chunks: Seq<(Seq<u8>, Seq<u8>)>,
    pub manifests: Seq<(Seq<u8>, Seq<u8>)>,
    pub nodes: Seq<(Seq<u8>, Seq<u8>)>,
    pub branch_roots: Seq<(Seq<u8>, BranchRootView)>,
    pub snapshots: Seq<(Seq<u8>, SnapshotView)>,
    pub payloads: Seq<(Seq<u8>, PayloadView)>,
}

impl View for Batch {
    type V = BatchView;

    open spec fn view(&self) -> BatchView {
        BatchView {
            metadata: put_views(self.metadata@),
            events: row_puts(self.events@),
            file_events: put_views(self.file_events@),
            branches: row_puts(self.branches@),
            branch_names: put_views(self.branch_names@),
            branch_name_deletes: crate::namespace::byte_views(self.branch_name_deletes@),
            branch_events: put_views(self.branch_events@),
            branch_file_events: put_views(self.branch_file_events@),
            chunks: put_views(self.content_chunks@),
            manifests: put_views(self.content_manifest_nodes@),
            nodes: put_views(self.namespace_nodes@),
            branch_roots: row_puts(self.branch_roots@),
            snapshots: row_puts(self.file_snapshot_manifests@),
            payloads: row_puts(self.event_payload_manifests@),
        }
    }
}

impl BatchView {
    /// The batch that changes nothing.
    pub open spec fn nothing() -> BatchView {
        BatchView {
            metadata: Seq::empty(),
            events: Seq::empty(),
            file_events: Seq::empty(),
            branches: Seq::empty(),
            branch_names: Seq::empty(),
            branch_name_deletes: Seq::empty(),
            branch_events: Seq::empty(),
            branch_file_events: Seq::empty(),
            chunks: Seq::empty(),
            manifests: Seq::empty(),
            nodes: Seq::empty(),
            branch_roots: Seq::empty(),
            snapshots: Seq::empty(),
            payloads: Seq::empty(),
        }
    }

    /// The batch followed by another.
    pub open spec fn then_batch(self, other: BatchView) -> BatchView {
        BatchView {
            metadata: self.metadata + other.metadata,
            events: self.events + other.events,
            file_events: self.file_events + other.file_events,
            branches: self.branches + other.branches,
            branch_names: self.branch_names + other.branch_names,
            branch_name_deletes: self.branch_name_deletes + other.branch_name_deletes,
            branch_events: self.branch_events + other.branch_events,
            branch_file_events: self.branch_file_events + other.branch_file_events,
            chunks: self.chunks + other.chunks,
            manifests: self.manifests + other.manifests,
            nodes: self.nodes + other.nodes,
            branch_roots: self.branch_roots + other.branch_roots,
            snapshots: self.snapshots + other.snapshots,
            payloads: self.payloads + other.payloads,
        }
    }
}

impl Batch {
    /// Creates the batch that changes nothing.
    pub fn new() -> (batch: Self)
        ensures
            batch@ == BatchView::nothing(),
    {
        let batch = Batch {
            metadata: Vec::new(),
            events: Vec::new(),
            file_events: Vec::new(),
            branches: Vec::new(),
            branch_names: Vec::new(),
            branch_name_deletes: Vec::new(),
            branch_events: Vec::new(),
            branch_file_events: Vec::new(),
            content_chunks: Vec::new(),
            content_manifest_nodes: Vec::new(),
            namespace_nodes: Vec::new(),
            branch_roots: Vec::new(),
            file_snapshot_manifests: Vec::new(),
            event_payload_manifests: Vec::new(),
        };
        proof {
            assert(batch@ =~= BatchView::nothing());
        }
        batch
    }
}

/// Adds bytes to be stored under a key.
pub fn push_bytes(puts: &mut Vec<BytesPut>, key: Vec<u8>, value: Vec<u8>)
    ensures
        put_views(final(puts)@) == put_views(old(puts)@).push((key@, value@)),
{
    let ghost pair = (key@, value@);
    puts.push(BytesPut { key, value });
    proof {
        assert(put_views(puts@) =~= put_views(old(puts)@).push(pair));
    }
}

/// Adds a row to be stored under a key.
pub fn push_row<V: View>(puts: &mut Vec<RowPut<V>>, key: Vec<u8>, value: V)
    ensures
        row_puts(final(puts)@) == row_puts(old(puts)@).push((key@, value@)),
{
    let ghost pair = (key@, value@);
    puts.push(RowPut { key, value });
    proof {
        assert(row_puts(puts@) =~= row_puts(old(puts)@).push(pair));
    }
}

/// Writes bytes into a table, one put after the other.
fn write_bytes(table: &mut Table<Vec<u8>>, puts: &Vec<BytesPut>)
    ensures
        blobs(final(table)@) == put_blobs(blobs(old(table)@), put_views(puts@)),
{
    let ghost start = blobs(table@);
    let ghost all = put_views(puts@);
    let mut i: usize = 0;
    proof {
        assert(all.take(0) =~= Seq::<(Seq<u8>, Seq<u8>)>::empty());
    }
    while i < puts.len()
        invariant
            i <= puts@.len(),
            all == put_views(puts@),
            blobs(table@) == put_blobs(start, all.take(i as int)),
        decreases puts@.len() - i,
    {
        let put = &puts[i];
        let value = copy_bytes(put.value.as_slice());
        proof {
            assert(all.take(i + 1).drop_last() =~= all.take(i as int));
            assert(all.take(i + 1).last() == (put.key@, put.value@));
            assert(blobs(table@.insert(put.key@, value)) =~= blobs(table@).insert(
                put.key@,
                value@,
            ));
        }
        table.insert(copy_bytes(put.key.as_slice()), value);
        i = i + 1;
    }
    proof {
        assert(all.take(i as int) =~= all);
    }
}

/// Writes rows into a table, one put after the other.
fn write_rows<V: View>(table: &mut Table<Option<V>>, puts: Vec<RowPut<V>>)
    ensures
        table_view(final(table)@) == put_rows(table_view(old(table)@), row_puts(puts@)),
    decreases puts@.len(),
{
    let ghost all = row_puts(puts@);
    let mut rest = puts;
    match rest.pop() {
        None => {},
        Some(last) => {
            proof {
                assert(row_puts(rest@) =~= all.drop_last());
                assert(all.last() == (last.key@, last.value@));
            }
            write_rows(table, rest);
            let ghost before = table@;
            let row = Some(last.value);
            proof {
                assert(table_view(before.insert(last.key@, row)) =~= table_view(before).insert(
                    last.key@,
                    row_view(row),
                ));
            }
            table.insert(last.key, row);
        },
    }
}

/// Removes keys from a table, one after the other.
fn delete_keys(table: &mut Table<Vec<u8>>, keys: &Vec<Vec<u8>>)
    ensures
        blobs(final(table)@) == remove_keys_of(
            blobs(old(table)@),
            crate::namespace::byte_views(keys@),
        ),
{
    let ghost start = blobs(table@);
    let ghost all = crate::namespace::byte_views(keys@);
    let mut i: usize = 0;
    proof {
        assert(all.take(0) =~= Seq::<Seq<u8>>::empty());
    }
    while i < keys.len()
        invariant
            i <= keys@.len(),
            all == crate::namespace::byte_views(keys@),
            blobs(table@) == remove_keys_of(start, all.take(i as int)),
        decreases keys@.len() - i,
    {
        proof {
            assert(all.take(i + 1).drop_last() =~= all.take(i as int));
            assert(all.take(i + 1).last() == keys@[i as int]@);
            assert(blobs(table@.remove(keys@[i as int]@)) =~= blobs(table@).remove(
                keys@[i as int]@,
            ));
        }
        table.remove(keys[i].as_slice());
        i = i + 1;
    }
    proof {
        assert(all.take(i as int) =~= all);
    }
}

impl Database {
    /// Creates tables without rows.
    pub fn new() -> (database: Self)
        ensures
            database@ == Image::nothing(),
    {
        let database = Database {
            metadata: Table::new(),
            events: Table::new(),
            file_events: Table::new(),
            branches: Table::new(),
            branch_names: Table::new(),
            branch_events: Table::new(),
            branch_file_events: Table::new(),
            content_chunks: Table::new(),
            content_manifest_nodes: Table::new(),
            namespace_nodes: Table::new(),
            branch_roots: Table::new(),
            file_snapshot_manifests: Table::new(),
            event_payload_manifests: Table::new(),
        };
        proof {
            assert(database@ =~= Image::nothing());
        }
        database
    }

    /// Writes a batch.
    pub fn write(&mut self, batch: Batch)
        ensures
            final(self)@ == old(self)@.after(batch@),
    {
        write_bytes(&mut self.metadata, &batch.metadata);
        write_rows(&mut self.events, batch.events);
        write_bytes(&mut self.file_events, &batch.file_events);
        write_rows(&mut self.branches, batch.branches);
        write_bytes(&mut self.branch_names, &batch.branch_names);
        delete_keys(&mut self.branch_names, &batch.branch_name_deletes);
        write_bytes(&mut self.branch_events, &batch.branch_events);
        write_bytes(&mut self.branch_file_events, &batch.branch_file_events);
        write_bytes(&mut self.content_chunks, &batch.content_chunks);
        write_bytes(&mut self.content_manifest_nodes, &batch.content_manifest_nodes);
        write_bytes(&mut self.namespace_nodes, &batch.namespace_nodes);
        write_rows(&mut self.branch_roots, batch.branch_roots);
        write_rows(&mut self.file_snapshot_manifests, batch.file_snapshot_manifests);
        write_rows(&mut self.event_payload_manifests, batch.event_payload_manifests);
    }
}

/// The counters and the head of the active branch.
#[derive(Clone, Copy, Debug, PartialEq, Eq, Structural)]
pub struct WriteState {
    /// Next inode number to give out.
    pub next_inode_number: u64,
    /// Sequence of the newest event.
    pub last_event_sequence: u64,
    /// Next branch number to give out.
    pub next_branch_identifier: u64,
    /// The active branch.
    pub active_branch_identifier: u64,
    /// Sequence of the newest event of the active branch.
    pub active_branch_head_sequence: u64,
    /// Position of the newest event of the active branch.
    pub active_branch_head_ordinal: u64,
}

impl WriteState {
    /// The inode number to give out next: none where the counter is damaged or used up.
    pub open spec fn inode_to_give(self) -> Result<u64, FuseError> {
        if self.next_inode_number < INODE_FIRST_ALLOCATED {
            Err(FuseError::Integrity)
        } else if self.next_inode_number == u64::MAX {
            Err(FuseError::Errno(Errno::ENOSPC))
        } else {
            Ok(self.next_inode_number)
        }
    }

    /// Returns the inode number to give out next.
    pub fn next_inode_number(self) -> (number: Result<u64, FuseError>)
        ensures
            number == self.inode_to_give(),
    {
        if self.next_inode_number < INODE_FIRST_ALLOCATED {
            return Err(FuseError::Integrity);
        }
        if self.next_inode_number == u64::MAX {
            return Err(FuseError::Errno(Errno::ENOSPC));
        }
        Ok(self.next_inode_number)
    }

    /// The sequence of the next event: none where the sequences are used up.
    pub open spec fn sequence_to_give(self) -> Result<EventSequence, FuseError> {
        if self.last_event_sequence < u64::MAX {
            Ok(EventSequence((self.last_event_sequence + 1) as u64))
        } else {
            Err(FuseError::Integrity)
        }
    }

    /// Returns the sequence of the next event.
    pub fn next_event_sequence(self) -> (sequence: Result<EventSequence, FuseError>)
        ensures
            sequence == self.sequence_to_give(),
    {
        match self.last_event_sequence.checked_add(1) {
            Some(sequence) => Ok(EventSequence::new(sequence)),
            None => Err(FuseError::Integrity),
        }
    }

    /// The counters after an event was committed on the active branch.
    pub open spec fn after_event(self, sequence: EventSequence) -> WriteState {
        WriteState {
            last_event_sequence: sequence.0,
            active_branch_head_sequence: sequence.0,
            active_branch_head_ordinal: if self.active_branch_head_ordinal < u64::MAX {
                (self.active_branch_head_ordinal + 1) as u64
            } else {
                u64::MAX
            },
            ..self
        }
    }

    /// Records an event that was committed on the active branch.
    pub fn record_committed_event(&mut self, event_sequence: EventSequence)
        ensures
            *final(self) == old(self).after_event(event_sequence),
    {
        self.last_event_sequence = event_sequence.get();
        self.active_branch_head_sequence = event_sequence.get();
        if self.active_branch_head_ordinal < u64::MAX {
            self.active_branch_head_ordinal = self.active_branch_head_ordinal + 1;
        }
    }

    /// Records that inode numbers were given out.
    pub fn record_committed_inode_number(&mut self, next_inode_number: u64)
        ensures
            *final(self) == (WriteState { next_inode_number, ..*old(self) }),
    {
        self.next_inode_number = next_inode_number;
    }
}

} // verus!
