//! What events tell: which kind of change it was, when, on which file, where in it and how much of it.

use vstd::prelude::*;

use crate::changes::{
    attribute_outcome, attribute_removal, attribute_setting, entry_removal, link_creation,
    node_creation, rename_change, symlink_creation, AttributeOutcome, ChangeView, InodeChange,
};
use crate::database::{Image, WriteState};
use crate::durability::{contents_only, lemma_commit_rows, lemma_put_one_row};
use crate::effects::lemma_commit_adds_event;
use crate::error::FuseError;
use crate::filesystem::{EventKind, EventPayload, EventRecordView, FileIdentifier};
use crate::history::event_of;
use crate::inode::{
    CreateNodeKind, CreateNodeMetadata, InodeView, SetattrMetadata, StoredNodeKind, StoredTime,
};
use crate::keys::triple_key;
use crate::namespace::Namespace;
use crate::operations::{commit_planned, Planned};
use crate::storage::{PreparedView, StorageView};
use crate::writes::{resize_change, write_change, ContentChange};

verus! {

/// An event is in the current layout, has the next sequence and the time of its change, and tells of one
/// path and no other file.
pub open spec fn event_in_turn(
    write: WriteState,
    created_at: time::UtcDateTime,
    event: EventRecordView,
) -> bool {
    &&& event.schema_version == 9
    &&& event.sequence.0 == write.last_event_sequence + 1
    &&& event.created_at == created_at
    &&& event.secondary_file_identifier is None
    &&& event.secondary_path is None
}

/// An event names a file exactly where it is about a regular file.
pub open spec fn names_file(event: EventRecordView, number: u64, kind: StoredNodeKind) -> bool {
    event.file_identifier == (if kind == StoredNodeKind::RegularFile {
        Some(FileIdentifier(number))
    } else {
        None
    })
}

/// An event tells of no bytes of a file.
pub open spec fn tells_no_bytes(event: EventRecordView) -> bool {
    &&& event.offset is None
    &&& event.byte_length is None
    &&& event.payload == EventPayload::Nothing
}

/// The event of a creation is of the kind of what was created, and names it where it is a regular file.
pub proof fn lemma_creation_is_told(
    namespace: Namespace,
    write: WriteState,
    parent: u64,
    name: Seq<u8>,
    kind: CreateNodeKind,
    metadata: CreateNodeMetadata,
    now: StoredTime,
    created_at: time::UtcDateTime,
    created: InodeChange,
)
    requires
        node_creation(namespace, write, parent, name, kind, metadata, now, created_at) == Ok::<
            InodeChange,
            FuseError,
        >(created),
    ensures
        ({
            let event = created.change.event;
            &&& event_in_turn(write, created_at, event)
            &&& names_file(event, created.number, created.inode.kind)
            &&& tells_no_bytes(event)
            &&& kind == CreateNodeKind::Directory ==> event.kind == EventKind::DirectoryCreated
            &&& kind == CreateNodeKind::RegularFile ==> event.kind == EventKind::FileCreated
            &&& kind is Special ==> event.kind == EventKind::NodeCreated
        }),
{
}

/// The event of a symbolic link names no file.
pub proof fn lemma_symlink_is_told(
    namespace: Namespace,
    write: WriteState,
    parent: u64,
    name: Seq<u8>,
    target: Seq<u8>,
    metadata: CreateNodeMetadata,
    now: StoredTime,
    created_at: time::UtcDateTime,
    created: InodeChange,
)
    requires
        symlink_creation(
            namespace,
            write,
            parent,
            name,
            target,
            metadata,
            now,
            created_at,
        ) == Ok::<InodeChange, FuseError>(created),
    ensures
        ({
            let event = created.change.event;
            &&& event_in_turn(write, created_at, event)
            &&& event.file_identifier is None
            &&& tells_no_bytes(event)
            &&& event.kind == EventKind::SymbolicLinkCreated
        }),
{
}

/// The event of a link names the file that was linked.
pub proof fn lemma_link_is_told(
    namespace: Namespace,
    write: WriteState,
    number: u64,
    new_parent: u64,
    new_name: Seq<u8>,
    now: StoredTime,
    created_at: time::UtcDateTime,
    linked: InodeChange,
)
    requires
        link_creation(namespace, write, number, new_parent, new_name, now, created_at) == Ok::<
            InodeChange,
            FuseError,
        >(linked),
    ensures
        ({
            let event = linked.change.event;
            &&& event_in_turn(write, created_at, event)
            &&& names_file(event, number, namespace.inode(number)->0.kind)
            &&& tells_no_bytes(event)
            &&& event.kind == EventKind::HardLinkCreated
        }),
{
}

/// The event of a removal tells whether it was that of a directory, and names the file that lost the
/// name.
pub proof fn lemma_removal_is_told(
    namespace: Namespace,
    write: WriteState,
    parent: u64,
    name: Seq<u8>,
    directory: bool,
    now: StoredTime,
    created_at: time::UtcDateTime,
    change: ChangeView,
)
    requires
        entry_removal(namespace, write, parent, name, directory, now, created_at) == Ok::<
            ChangeView,
            FuseError,
        >(change),
    ensures
        ({
            let event = change.event;
            let entry = namespace.entry(parent, name)->0;
            &&& event_in_turn(write, created_at, event)
            &&& names_file(event, entry.inode, entry.kind)
            &&& tells_no_bytes(event)
            &&& directory ==> event.kind == EventKind::DirectoryRemoved
            &&& !directory ==> event.kind == EventKind::NodeUnlinked
        }),
{
}

/// The event of a rename names the file that was moved.
pub proof fn lemma_rename_is_told(
    namespace: Namespace,
    write: WriteState,
    parent: u64,
    name: Seq<u8>,
    new_parent: u64,
    new_name: Seq<u8>,
    no_replace: bool,
    now: StoredTime,
    created_at: time::UtcDateTime,
    change: ChangeView,
)
    requires
        rename_change(
            namespace,
            write,
            parent,
            name,
            new_parent,
            new_name,
            no_replace,
            now,
            created_at,
        ) == Ok::<ChangeView, FuseError>(change),
    ensures
        ({
            let event = change.event;
            let entry = namespace.entry(parent, name)->0;
            &&& event_in_turn(write, created_at, event)
            &&& names_file(event, entry.inode, entry.kind)
            &&& tells_no_bytes(event)
            &&& event.kind == EventKind::NodeRenamed
        }),
{
}

/// The event of a change of attributes names the file.
pub proof fn lemma_attributes_are_told(
    namespace: Namespace,
    write: WriteState,
    number: u64,
    metadata: SetattrMetadata,
    now: StoredTime,
    created_at: time::UtcDateTime,
    change: InodeChange,
)
    requires
        attribute_outcome(namespace, write, number, metadata, now, created_at) == Ok::<
            AttributeOutcome,
            FuseError,
        >(AttributeOutcome::Changed(change)),
    ensures
        ({
            let event = change.change.event;
            &&& event_in_turn(write, created_at, event)
            &&& names_file(event, number, namespace.inode(number)->0.kind)
            &&& tells_no_bytes(event)
            &&& event.kind == EventKind::MetadataChanged
        }),
{
}

/// The event of an extended attribute names the file and tells the length of a value that was set.
pub proof fn lemma_attribute_is_told(
    namespace: Namespace,
    write: WriteState,
    number: u64,
    name: Seq<u8>,
    value: Seq<u8>,
    flags: i32,
    now: StoredTime,
    created_at: time::UtcDateTime,
    change: ChangeView,
)
    requires
        attribute_setting(
            namespace,
            write,
            number,
            name,
            value,
            flags,
            now,
            created_at,
        ) == Ok::<Option<ChangeView>, FuseError>(Some(change)),
    ensures
        ({
            let event = change.event;
            &&& event_in_turn(write, created_at, event)
            &&& names_file(event, number, namespace.inode(number)->0.kind)
            &&& event.offset is None
            &&& event.byte_length is Some
            &&& event.byte_length->0 == value.len()
            &&& event.payload == EventPayload::Nothing
            &&& event.kind == EventKind::ExtendedAttributeSet
        }),
{
}

/// The event of the removal of an extended attribute names the file.
pub proof fn lemma_attribute_removal_is_told(
    namespace: Namespace,
    write: WriteState,
    number: u64,
    name: Seq<u8>,
    now: StoredTime,
    created_at: time::UtcDateTime,
    change: ChangeView,
)
    requires
        attribute_removal(namespace, write, number, name, now, created_at) == Ok::<
            ChangeView,
            FuseError,
        >(change),
    ensures
        ({
            let event = change.event;
            &&& event_in_turn(write, created_at, event)
            &&& names_file(event, number, namespace.inode(number)->0.kind)
            &&& tells_no_bytes(event)
            &&& event.kind == EventKind::ExtendedAttributeRemoved
        }),
{
}

/// The event of a write names the file and tells where the data went and how long it is, the sizes
/// before and after, and how many of the bytes that were there it took the place of.
pub proof fn lemma_write_is_told(
    image: Image,
    namespace: Namespace,
    write: WriteState,
    number: u64,
    offset: u64,
    data: Seq<u8>,
    append: bool,
    clear_privileges: bool,
    now: StoredTime,
    created_at: time::UtcDateTime,
    content: ContentChange,
)
    requires
        write_change(
            image,
            namespace,
            write,
            number,
            offset,
            data,
            append,
            clear_privileges,
            now,
            created_at,
        ) == Ok::<ContentChange, FuseError>(content),
    ensures
        ({
            let event = content.change.event;
            let size = namespace.inode(number)->0.size;
            let start = if append {
                size
            } else {
                offset
            };
            &&& event_in_turn(write, created_at, event)
            &&& event.kind == EventKind::FileWritten
            &&& event.file_identifier == Some(FileIdentifier(number))
            &&& event.offset == Some(start)
            &&& event.byte_length is Some
            &&& event.byte_length->0 == data.len()
            &&& event.payload matches EventPayload::FileWrite {
                old_file_size,
                new_file_size,
                overwritten_byte_length,
                written_byte_length,
            } && {
                &&& old_file_size == size
                &&& new_file_size == (if start + data.len() > size {
                    start + data.len()
                } else {
                    size as int
                })
                &&& written_byte_length == data.len()
                &&& start >= size ==> overwritten_byte_length == 0
                &&& start < size && start + data.len() <= size ==> overwritten_byte_length
                    == data.len()
                &&& start < size && start + data.len() > size ==> overwritten_byte_length == size
                    - start
            }
        }),
{
}

/// The event of another size names the file and tells from where on it changed, the sizes before and
/// after, and how many bytes were cut off.
pub proof fn lemma_resize_is_told(
    image: Image,
    namespace: Namespace,
    write: WriteState,
    number: u64,
    inode: InodeView,
    new_size: u64,
    created_at: time::UtcDateTime,
    content: ContentChange,
)
    requires
        resize_change(image, namespace, write, number, inode, new_size, created_at) == Ok::<
            Option<ContentChange>,
            FuseError,
        >(Some(content)),
    ensures
        ({
            let event = content.change.event;
            &&& event_in_turn(write, created_at, event)
            &&& event.kind == EventKind::FileWritten
            &&& event.file_identifier == Some(FileIdentifier(number))
            &&& event.offset is Some
            &&& event.offset->0 <= new_size && event.offset->0 <= inode.size
            &&& event.offset->0 == new_size || event.offset->0 == inode.size
            &&& event.byte_length == Some(0u64)
            &&& event.payload matches EventPayload::FileWrite {
                old_file_size,
                new_file_size,
                overwritten_byte_length,
                written_byte_length,
            } && {
                &&& old_file_size == inode.size
                &&& new_file_size == new_size
                &&& written_byte_length == 0
                &&& new_size >= inode.size ==> overwritten_byte_length == 0
                &&& new_size < inode.size ==> overwritten_byte_length == inode.size - new_size
            }
        }),
{
}

/// What is recorded of a commit is its event, placed on the active branch: one position further than
/// its head, and with the head as the event before.
pub proof fn lemma_event_is_recorded(storage: StorageView, made: Planned, prepared: PreparedView)
    requires
        commit_planned(storage, made) == Some(prepared),
        contents_only(made.rows),
    ensures
        ({
            let after = storage.after(prepared);
            let recorded = event_of(after.image, after.write.last_event_sequence);
            let told = recorded->Ok_0->0;
            let branch = storage.active.branch;
            &&& recorded is Ok
            &&& recorded->Ok_0 is Some
            &&& after.write.last_event_sequence == made.change.event.sequence.0
            &&& told == (EventRecordView {
                branch_identifier: told.branch_identifier,
                branch_position: told.branch_position,
                first_parent_sequence: told.first_parent_sequence,
                ..made.change.event
            })
            &&& told.branch_identifier is Some
            &&& (told.branch_identifier->0).0 == branch.identifier
            &&& told.branch_position is Some
            &&& told.branch_position->0.branch_identifier.0 == branch.identifier
            &&& told.branch_position->0.ordinal == branch.head_ordinal + 1
            &&& told.first_parent_sequence is Some
            &&& (told.first_parent_sequence->0).0 == branch.head_sequence
            &&& after.active.branch.head_sequence == told.sequence.0
            &&& after.active.branch.head_ordinal == branch.head_ordinal + 1
            &&& after.active.branch.identifier == branch.identifier
            &&& after.active.branch.name == branch.name
        }),
{
    lemma_commit_adds_event(storage, made, prepared, 0);
    reveal(commit_planned);
}

/// The creation of a regular file and every change of its contents leave a snapshot at the position of
/// their event, with its sequence and the size that the file then has; nothing else does.
pub proof fn lemma_snapshot_is_taken(
    storage: StorageView,
    made: Planned,
    prepared: PreparedView,
    key: Seq<u8>,
)
    requires
        commit_planned(storage, made) == Some(prepared),
        contents_only(made.rows),
    ensures
        ({
            let after = storage.after(prepared);
            let event = made.change.event;
            let branch = storage.active.branch;
            let own = triple_key(
                branch.identifier,
                (event.file_identifier->0).0,
                (branch.head_ordinal + 1) as u64,
            );
            let taken = event.file_identifier is Some && (event.kind == EventKind::FileCreated
                || event.kind == EventKind::NodeCreated || event.kind == EventKind::FileWritten);
            &&& taken ==> {
                &&& after.image.snapshots.contains_key(own)
                &&& after.image.snapshots[own] is Some
                &&& after.image.snapshots[own]->0.sequence == event.sequence.0
                &&& event.payload == EventPayload::Nothing
                    ==> after.image.snapshots[own]->0.file_size == 0
                &&& event.payload matches EventPayload::FileWrite { new_file_size, .. }
                    ==> after.image.snapshots[own]->0.file_size == new_file_size
            }
            &&& !(taken && key == own) ==> {
                &&& after.image.snapshots.contains_key(key)
                    == storage.image.snapshots.contains_key(key)
                &&& after.image.snapshots[key] == storage.image.snapshots[key]
            }
        }),
{
    reveal(commit_planned);
    let event = made.change.event;
    let branch = storage.active.branch;
    let own = triple_key(
        branch.identifier,
        (event.file_identifier->0).0,
        (branch.head_ordinal + 1) as u64,
    );
    lemma_commit_rows(
        storage,
        made.change,
        made.rows,
        made.payload,
        made.manifest,
        prepared,
    );
    if prepared.batch.snapshots.len() > 0 {
        let row = prepared.batch.snapshots[0].1;
        assert(prepared.batch.snapshots =~= seq![(own, row)]);
        lemma_put_one_row(storage.image.snapshots, own, row);
    } else {
        assert(prepared.batch.snapshots =~= Seq::empty());
    }
}

} // verus!
