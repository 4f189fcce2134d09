//! What each operation on names and attributes changes: the event, the mutation of the active branch
//! and the inode that is answered.

use vstd::prelude::*;

use crate::bytes::{bytes_equal, copy_bytes};
use crate::database::WriteState;
use crate::error::{Errno, FuseError};
use crate::filesystem::{EventKind, EventRecord, EventRecordView, EventSequence};
use crate::inode::{
    attribute_name_error, change_permitted, created_inode_metadata, file_identifier_for_kind,
    file_identifier_of, has_attributes, name_error, new_ownership, next_inode_number_after,
    permission_bits, permission_mode, special_kind, special_kind_from_mode, touch_loaded_directory,
    update_parent_after_entry_removal, validate_extended_attribute_inode,
    validate_extended_attribute_name, validate_extended_attribute_value, validate_metadata_change,
    validate_name, CreateNodeKind, CreateNodeMetadata, InodeView, SetattrMetadata,
    StoredDirectoryEntry, StoredInode, StoredNodeKind, StoredTime, SETGID_MODE_BIT,
    SETUID_MODE_BIT, XATTR_VALUE_MAX_BYTES,
};
use crate::manifest::{empty_content_manifest_identifier, empty_identifier};
use crate::namespace::{
    child_event_path, child_path, directory_is_empty, directory_is_self_or_descendant,
    inode_event_path, inode_path, lies_below, MaterializedBranchState, MutationView, Namespace,
    StoredMutation, PATH_STEPS,
};

verus! {

/// A change to be committed: its event, its mutation, and the next inode number where one was given
/// out.
#[derive(Debug, PartialEq, Eq)]
pub struct PlannedChange {
    /// The event.
    pub event: EventRecord,
    /// The mutation.
    pub mutation: StoredMutation,
    /// The next inode number.
    pub next_inode_number: Option<u64>,
}

/// The value of a change to be committed.
pub ghost struct ChangeView {
    pub event: EventRecordView,
    pub mutation: MutationView,
    pub next_inode_number: Option<u64>,
}

impl View for PlannedChange {
    type V = ChangeView;

    open spec fn view(&self) -> ChangeView {
        ChangeView {
            event: self.event@,
            mutation: self.mutation@,
            next_inode_number: self.next_inode_number,
        }
    }
}

/// The inode with a number, which must be there.
pub open spec fn inode_of(namespace: Namespace, number: u64) -> Result<InodeView, FuseError> {
    match namespace.inode(number) {
        Some(inode) => Ok(inode),
        None => Err(FuseError::Errno(Errno::ENOENT)),
    }
}

/// The directory with a number, which must be there and be one.
pub open spec fn directory_of(namespace: Namespace, number: u64) -> Result<InodeView, FuseError> {
    match namespace.inode(number) {
        Some(inode) => if inode.kind == StoredNodeKind::Directory {
            Ok(inode)
        } else {
            Err(FuseError::Errno(Errno::ENOTDIR))
        },
        None => Err(FuseError::Errno(Errno::ENOENT)),
    }
}

/// What looking an inode up gives.
pub open spec fn finds_inode(
    result: Result<StoredInode, FuseError>,
    expected: Result<InodeView, FuseError>,
) -> bool {
    match result {
        Ok(inode) => expected == Ok::<InodeView, FuseError>(inode@),
        Err(error) => expected == Err::<InodeView, FuseError>(error),
    }
}

/// Copies an inode, which must be there.
pub fn require_inode(state: &MaterializedBranchState, inode_number: u64) -> (inode: Result<
    StoredInode,
    FuseError,
>)
    ensures
        finds_inode(inode, inode_of(state@, inode_number)),
{
    match state.inode(inode_number) {
        Some(inode) => Ok(inode.clone()),
        None => Err(FuseError::Errno(Errno::ENOENT)),
    }
}

/// Copies a directory, which must be there and be one.
pub fn require_directory(state: &MaterializedBranchState, inode_number: u64) -> (inode: Result<
    StoredInode,
    FuseError,
>)
    ensures
        finds_inode(inode, directory_of(state@, inode_number)),
{
    match state.inode(inode_number) {
        Some(inode) => if inode.kind == StoredNodeKind::Directory {
            Ok(inode.clone())
        } else {
            Err(FuseError::Errno(Errno::ENOTDIR))
        },
        None => Err(FuseError::Errno(Errno::ENOENT)),
    }
}

/// A number of links after one more.
pub open spec fn more_links(nlink: u32) -> u32 {
    if nlink < u32::MAX {
        (nlink + 1) as u32
    } else {
        nlink
    }
}

/// A number of links after one fewer.
pub open spec fn fewer_links(nlink: u32) -> u32 {
    if nlink > 0 {
        (nlink - 1) as u32
    } else {
        nlink
    }
}

fn one_more_link(nlink: u32) -> (links: u32)
    ensures
        links == more_links(nlink),
{
    if nlink < u32::MAX {
        nlink + 1
    } else {
        nlink
    }
}

fn one_fewer_link(nlink: u32) -> (links: u32)
    ensures
        links == fewer_links(nlink),
{
    if nlink > 0 {
        nlink - 1
    } else {
        nlink
    }
}

/// Where a new name is made.
pub ghost struct NewEntry {
    pub directory: InodeView,
    pub number: u64,
    pub sequence: EventSequence,
    pub path: Seq<char>,
}

/// Where a new name is made: in a directory, under a valid name that is free, with an inode number
/// and a sequence that are left, and with a path that is text.
pub open spec fn new_entry(
    namespace: Namespace,
    write: WriteState,
    parent: u64,
    name: Seq<u8>,
) -> Result<NewEntry, FuseError> {
    match directory_of(namespace, parent) {
        Err(error) => Err(error),
        Ok(directory) => if name_error(name) is Some {
            Err(name_error(name)->0)
        } else if namespace.entry(parent, name) is Some {
            Err(FuseError::Errno(Errno::EEXIST))
        } else {
            match write.inode_to_give() {
                Err(error) => Err(error),
                Ok(number) => if namespace.inode(number) is Some {
                    Err(FuseError::Integrity)
                } else {
                    match (write.sequence_to_give(), child_path(namespace, parent, name)) {
                        (Err(error), _) => Err(error),
                        (Ok(_), Err(error)) => Err(error),
                        (Ok(sequence), Ok(path)) => Ok(
                            NewEntry { directory, number, sequence, path },
                        ),
                    }
                },
            }
        },
    }
}

/// Finds where a new name is made: the directory, the checked name, the inode number, the sequence,
/// the next inode number and the path.
fn find_new_entry(
    state: &MaterializedBranchState,
    write_state: WriteState,
    parent: u64,
    name: &[u8],
) -> (result: Result<(StoredInode, Vec<u8>, u64, EventSequence, u64, String), FuseError>)
    ensures
        match result {
            Ok(found) => {
                &&& new_entry(state@, write_state, parent, name@) == Ok::<NewEntry, FuseError>(
                    NewEntry {
                        directory: found.0@,
                        number: found.2,
                        sequence: found.3,
                        path: found.5@,
                    },
                )
                &&& found.1@ == name@
                &&& found.4 == found.2 + 1
            },
            Err(error) => new_entry(state@, write_state, parent, name@) == Err::<
                NewEntry,
                FuseError,
            >(error),
        },
{
    let parent_inode = match require_directory(state, parent) {
        Err(error) => return Err(error),
        Ok(inode) => inode,
    };
    let name_bytes = match validate_name(name) {
        Err(error) => return Err(error),
        Ok(bytes) => bytes,
    };
    if state.directory_entry(parent, name_bytes.as_slice()).is_some() {
        return Err(FuseError::Errno(Errno::EEXIST));
    }
    let inode_number: u64 = match write_state.next_inode_number() {
        Err(error) => return Err(error),
        Ok(number) => number,
    };
    if state.inode(inode_number).is_some() {
        return Err(FuseError::Integrity);
    }
    let event_sequence = match write_state.next_event_sequence() {
        Err(error) => return Err(error),
        Ok(sequence) => sequence,
    };
    let next_inode_number: u64 = match next_inode_number_after(inode_number) {
        Err(error) => return Err(error),
        Ok(number) => number,
    };
    match child_event_path(parent, name_bytes.as_slice(), state) {
        Err(error) => Err(error),
        Ok(path) => Ok(
            (parent_inode, name_bytes, inode_number, event_sequence, next_inode_number, path),
        ),
    }
}

/// Kind of file, device number and event kind of a new node.
pub open spec fn node_kind(kind: CreateNodeKind) -> Option<(StoredNodeKind, u32, EventKind)> {
    match kind {
        CreateNodeKind::Directory => Some(
            (StoredNodeKind::Directory, 0, EventKind::DirectoryCreated),
        ),
        CreateNodeKind::RegularFile => Some(
            (StoredNodeKind::RegularFile, 0, EventKind::FileCreated),
        ),
        CreateNodeKind::Special { mode, rdev } => match special_kind(mode) {
            Some(kind) => Some((kind, rdev, EventKind::NodeCreated)),
            None => None,
        },
    }
}

/// A change and the inode that it is about.
pub ghost struct InodeChange {
    pub number: u64,
    pub inode: InodeView,
    pub change: ChangeView,
}

/// The inode of a new node.
pub open spec fn new_inode(
    directory: InodeView,
    parent: u64,
    name: Seq<u8>,
    kind: StoredNodeKind,
    rdev: u32,
    metadata: CreateNodeMetadata,
    now: StoredTime,
) -> InodeView {
    let (uid, gid, mode) = new_ownership(directory, kind, metadata);
    InodeView {
        kind,
        size: 0,
        nlink: if kind == StoredNodeKind::Directory {
            2
        } else {
            1
        },
        uid,
        gid,
        mode,
        rdev,
        atime: now,
        mtime: now,
        ctime: now,
        parent,
        name,
        symlink_target: None,
        content_manifest_identifier: if kind == StoredNodeKind::RegularFile {
            Some(empty_identifier())
        } else {
            None
        },
    }
}

/// The change that creates a node: its inode, its entry, and one more link of the directory for a
/// directory.
pub open spec fn node_creation(
    namespace: Namespace,
    write: WriteState,
    parent: u64,
    name: Seq<u8>,
    kind: CreateNodeKind,
    metadata: CreateNodeMetadata,
    now: StoredTime,
    created_at: time::UtcDateTime,
) -> Result<InodeChange, FuseError> {
    match new_entry(namespace, write, parent, name) {
        Err(error) => Err(error),
        Ok(place) => match node_kind(kind) {
            None => Err(FuseError::Errno(Errno::EINVAL)),
            Some((stored_kind, rdev, event_kind)) => {
                let inode = new_inode(
                    place.directory,
                    parent,
                    name,
                    stored_kind,
                    rdev,
                    metadata,
                    now,
                );
                let directory = InodeView {
                    nlink: if stored_kind == StoredNodeKind::Directory {
                        more_links(place.directory.nlink)
                    } else {
                        place.directory.nlink
                    },
                    ..place.directory
                }.touched(now);
                Ok(
                    InodeChange {
                        number: place.number,
                        inode,
                        change: ChangeView {
                            event: EventRecordView::plain(
                                place.sequence,
                                event_kind,
                                created_at,
                                file_identifier_of(place.number, stored_kind),
                                Some(place.path),
                                None,
                                None,
                            ),
                            mutation: MutationView::nothing().with_inode(
                                place.number,
                                inode,
                            ).with_entry(
                                parent,
                                name,
                                StoredDirectoryEntry { inode: place.number, kind: stored_kind },
                            ).with_inode(parent, directory),
                            next_inode_number: Some((place.number + 1) as u64),
                        },
                    },
                )
            },
        },
    }
}

/// What planning a change of an inode gives.
pub open spec fn plans_inode_change(
    result: Result<(u64, StoredInode, PlannedChange), FuseError>,
    expected: Result<InodeChange, FuseError>,
) -> bool {
    match result {
        Ok(planned) => expected == Ok::<InodeChange, FuseError>(
            InodeChange { number: planned.0, inode: planned.1@, change: planned.2@ },
        ),
        Err(error) => expected == Err::<InodeChange, FuseError>(error),
    }
}

/// Plans the creation of a node.
pub fn plan_node_creation(
    state: &MaterializedBranchState,
    write_state: WriteState,
    parent: u64,
    name: &[u8],
    kind: CreateNodeKind,
    metadata: CreateNodeMetadata,
    now: StoredTime,
    created_at: time::UtcDateTime,
) -> (result: Result<(u64, StoredInode, PlannedChange), FuseError>)
    ensures
        plans_inode_change(
            result,
            node_creation(
                state@,
                write_state,
                parent,
                name@,
                kind,
                metadata,
                now,
                created_at,
            ),
        ),
{
    let (parent_inode, name_bytes, inode_number, event_sequence, next_inode_number, path) =
        match find_new_entry(state, write_state, parent, name) {
        Err(error) => return Err(error),
        Ok(found) => found,
    };
    let (stored_kind, rdev, event_kind): (StoredNodeKind, u32, EventKind) = match kind {
        CreateNodeKind::Directory => (StoredNodeKind::Directory, 0, EventKind::DirectoryCreated),
        CreateNodeKind::RegularFile => (StoredNodeKind::RegularFile, 0, EventKind::FileCreated),
        CreateNodeKind::Special { mode, rdev } => match special_kind_from_mode(mode) {
            Err(error) => return Err(error),
            Ok(kind) => (kind, rdev, EventKind::NodeCreated),
        },
    };
    let (uid, gid, mode) = created_inode_metadata(&parent_inode, stored_kind, metadata);
    let inode = StoredInode {
        kind: stored_kind,
        size: 0,
        nlink: if stored_kind == StoredNodeKind::Directory {
            2
        } else {
            1
        },
        uid,
        gid,
        mode,
        rdev,
        atime: now,
        mtime: now,
        ctime: now,
        parent,
        name: copy_bytes(name_bytes.as_slice()),
        symlink_target: None,
        content_manifest_identifier: if stored_kind == StoredNodeKind::RegularFile {
            Some(empty_content_manifest_identifier())
        } else {
            None
        },
    };
    let event = EventRecord::new(
        event_sequence,
        event_kind,
        created_at,
        file_identifier_for_kind(inode_number, stored_kind),
        Some(path),
        None,
        None,
    );
    let mut mutation = StoredMutation::default();
    mutation.put_inode(inode_number, &inode);
    let entry = StoredDirectoryEntry { inode: inode_number, kind: stored_kind };
    mutation.put_directory_entry(parent, name_bytes.as_slice(), &entry);
    let mut parent_inode = parent_inode;
    if stored_kind == StoredNodeKind::Directory {
        parent_inode.nlink = one_more_link(parent_inode.nlink);
    }
    touch_loaded_directory(&mut parent_inode, now);
    mutation.put_inode(parent, &parent_inode);
    Ok(
        (
            inode_number,
            inode,
            PlannedChange { event, mutation, next_inode_number: Some(next_inode_number) },
        ),
    )
}

/// The change that creates a symbolic link: its inode, of the size of its target, and its entry.
pub open spec fn symlink_creation(
    namespace: Namespace,
    write: WriteState,
    parent: u64,
    name: Seq<u8>,
    target: Seq<u8>,
    metadata: CreateNodeMetadata,
    now: StoredTime,
    created_at: time::UtcDateTime,
) -> Result<InodeChange, FuseError> {
    match new_entry(namespace, write, parent, name) {
        Err(error) => Err(error),
        Ok(place) => {
            let inode = InodeView {
                size: target.len() as u64,
                symlink_target: Some(target),
                ..new_inode(
                    place.directory,
                    parent,
                    name,
                    StoredNodeKind::Symlink,
                    0,
                    metadata,
                    now,
                )
            };
            Ok(
                InodeChange {
                    number: place.number,
                    inode,
                    change: ChangeView {
                        event: EventRecordView::plain(
                            place.sequence,
                            EventKind::SymbolicLinkCreated,
                            created_at,
                            None,
                            Some(place.path),
                            None,
                            None,
                        ),
                        mutation: MutationView::nothing().with_inode(
                            place.number,
                            inode,
                        ).with_entry(
                            parent,
                            name,
                            StoredDirectoryEntry {
                                inode: place.number,
                                kind: StoredNodeKind::Symlink,
                            },
                        ).with_inode(parent, place.directory.touched(now)),
                        next_inode_number: Some((place.number + 1) as u64),
                    },
                },
            )
        },
    }
}

/// Plans the creation of a symbolic link.
pub fn plan_symlink_creation(
    state: &MaterializedBranchState,
    write_state: WriteState,
    parent: u64,
    name: &[u8],
    target: &[u8],
    metadata: CreateNodeMetadata,
    now: StoredTime,
    created_at: time::UtcDateTime,
) -> (result: Result<(u64, StoredInode, PlannedChange), FuseError>)
    ensures
        plans_inode_change(
            result,
            symlink_creation(
                state@,
                write_state,
                parent,
                name@,
                target@,
                metadata,
                now,
                created_at,
            ),
        ),
{
    let (parent_inode, name_bytes, inode_number, event_sequence, next_inode_number, path) =
        match find_new_entry(state, write_state, parent, name) {
        Err(error) => return Err(error),
        Ok(found) => found,
    };
    let (uid, gid, mode) = created_inode_metadata(&parent_inode, StoredNodeKind::Symlink, metadata);
    let inode = StoredInode {
        kind: StoredNodeKind::Symlink,
        size: target.len() as u64,
        nlink: 1,
        uid,
        gid,
        mode,
        rdev: 0,
        atime: now,
        mtime: now,
        ctime: now,
        parent,
        name: copy_bytes(name_bytes.as_slice()),
        symlink_target: Some(copy_bytes(target)),
        content_manifest_identifier: None,
    };
    let event = EventRecord::new(
        event_sequence,
        EventKind::SymbolicLinkCreated,
        created_at,
        None,
        Some(path),
        None,
        None,
    );
    let mut mutation = StoredMutation::default();
    mutation.put_inode(inode_number, &inode);
    let entry = StoredDirectoryEntry { inode: inode_number, kind: StoredNodeKind::Symlink };
    mutation.put_directory_entry(parent, name_bytes.as_slice(), &entry);
    let mut parent_inode = parent_inode;
    touch_loaded_directory(&mut parent_inode, now);
    mutation.put_inode(parent, &parent_inode);
    Ok(
        (
            inode_number,
            inode,
            PlannedChange { event, mutation, next_inode_number: Some(next_inode_number) },
        ),
    )
}

/// What removing one name of an inode does to it: it is deleted where it is a directory or that was
/// its last name, else it has one link fewer.
pub open spec fn unlinked(
    mutation: MutationView,
    number: u64,
    inode: InodeView,
    now: StoredTime,
) -> MutationView {
    if inode.kind == StoredNodeKind::Directory || inode.nlink <= 1 {
        mutation.without_inode(number)
    } else {
        mutation.with_inode(
            number,
            InodeView { nlink: fewer_links(inode.nlink), ctime: now, ..inode },
        )
    }
}

fn unlink_inode(
    mutation: &mut StoredMutation,
    inode_number: u64,
    inode: StoredInode,
    now: StoredTime,
)
    ensures
        final(mutation)@ == unlinked(old(mutation)@, inode_number, inode@, now),
{
    if inode.kind == StoredNodeKind::Directory || inode.nlink <= 1 {
        mutation.delete_inode(inode_number);
    } else {
        let mut linked_inode = inode;
        linked_inode.nlink = one_fewer_link(linked_inode.nlink);
        linked_inode.ctime = now;
        mutation.put_inode(inode_number, &linked_inode);
    }
}

/// The change that removes a name from a directory: of an empty directory where a directory is asked
/// for, else of anything but a directory.
pub open spec fn entry_removal(
    namespace: Namespace,
    write: WriteState,
    parent: u64,
    name: Seq<u8>,
    directory: bool,
    now: StoredTime,
    created_at: time::UtcDateTime,
) -> Result<ChangeView, FuseError> {
    if name_error(name) is Some {
        Err(name_error(name)->0)
    } else {
        match (directory_of(namespace, parent), namespace.entry(parent, name)) {
            (Err(error), _) => Err(error),
            (Ok(_), None) => Err(FuseError::Errno(Errno::ENOENT)),
            (Ok(parent_inode), Some(entry)) => match inode_of(namespace, entry.inode) {
                Err(error) => Err(error),
                Ok(inode) => if directory && inode.kind != StoredNodeKind::Directory {
                    Err(FuseError::Errno(Errno::ENOTDIR))
                } else if directory && !namespace.empty_directory(entry.inode) {
                    Err(FuseError::Errno(Errno::ENOTEMPTY))
                } else if !directory && inode.kind == StoredNodeKind::Directory {
                    Err(FuseError::Errno(Errno::EISDIR))
                } else {
                    match (write.sequence_to_give(), child_path(namespace, parent, name)) {
                        (Err(error), _) => Err(error),
                        (Ok(_), Err(error)) => Err(error),
                        (Ok(sequence), Ok(path)) => Ok(
                            ChangeView {
                                event: EventRecordView::plain(
                                    sequence,
                                    if directory {
                                        EventKind::DirectoryRemoved
                                    } else {
                                        EventKind::NodeUnlinked
                                    },
                                    created_at,
                                    file_identifier_of(entry.inode, entry.kind),
                                    Some(path),
                                    None,
                                    None,
                                ),
                                mutation: unlinked(
                                    MutationView::nothing().without_entry(
                                        parent,
                                        name,
                                    ).with_inode(parent, parent_inode.after_removal(inode, now)),
                                    entry.inode,
                                    inode,
                                    now,
                                ),
                                next_inode_number: None,
                            },
                        ),
                    }
                },
            },
        }
    }
}

/// What planning a change gives.
pub open spec fn plans_change(
    result: Result<PlannedChange, FuseError>,
    expected: Result<ChangeView, FuseError>,
) -> bool {
    match result {
        Ok(planned) => expected == Ok::<ChangeView, FuseError>(planned@),
        Err(error) => expected == Err::<ChangeView, FuseError>(error),
    }
}

/// Plans the removal of a name from a directory.
pub fn plan_entry_removal(
    state: &MaterializedBranchState,
    write_state: WriteState,
    parent: u64,
    name: &[u8],
    directory: bool,
    now: StoredTime,
    created_at: time::UtcDateTime,
) -> (result: Result<PlannedChange, FuseError>)
    ensures
        plans_change(
            result,
            entry_removal(state@, write_state, parent, name@, directory, now, created_at),
        ),
{
    let name_bytes = match validate_name(name) {
        Err(error) => return Err(error),
        Ok(bytes) => bytes,
    };
    let parent_inode = match require_directory(state, parent) {
        Err(error) => return Err(error),
        Ok(inode) => inode,
    };
    let entry = match state.directory_entry(parent, name_bytes.as_slice()) {
        None => return Err(FuseError::Errno(Errno::ENOENT)),
        Some(entry) => entry,
    };
    let inode = match require_inode(state, entry.inode) {
        Err(error) => return Err(error),
        Ok(inode) => inode,
    };
    if directory {
        if inode.kind != StoredNodeKind::Directory {
            return Err(FuseError::Errno(Errno::ENOTDIR));
        }
        if !directory_is_empty(state, entry.inode) {
            return Err(FuseError::Errno(Errno::ENOTEMPTY));
        }
    } else if inode.kind == StoredNodeKind::Directory {
        return Err(FuseError::Errno(Errno::EISDIR));
    }
    let event_sequence = match write_state.next_event_sequence() {
        Err(error) => return Err(error),
        Ok(sequence) => sequence,
    };
    let path = match child_event_path(parent, name_bytes.as_slice(), state) {
        Err(error) => return Err(error),
        Ok(path) => path,
    };
    let mut parent_inode = parent_inode;
    update_parent_after_entry_removal(&inode, &mut parent_inode, now);
    let event = EventRecord::new(
        event_sequence,
        if directory {
            EventKind::DirectoryRemoved
        } else {
            EventKind::NodeUnlinked
        },
        created_at,
        file_identifier_for_kind(entry.inode, entry.kind),
        Some(path),
        None,
        None,
    );
    let mut mutation = StoredMutation::default();
    mutation.delete_directory_entry(parent, name_bytes.as_slice());
    mutation.put_inode(parent, &parent_inode);
    unlink_inode(&mut mutation, entry.inode, inode, now);
    Ok(PlannedChange { event, mutation, next_inode_number: None })
}

/// The change that makes one more name for an inode that is not a directory.
pub open spec fn link_creation(
    namespace: Namespace,
    write: WriteState,
    number: u64,
    new_parent: u64,
    new_name: Seq<u8>,
    now: StoredTime,
    created_at: time::UtcDateTime,
) -> Result<InodeChange, FuseError> {
    match inode_of(namespace, number) {
        Err(error) => Err(error),
        Ok(inode) => if inode.kind == StoredNodeKind::Directory {
            Err(FuseError::Errno(Errno::EPERM))
        } else {
            match directory_of(namespace, new_parent) {
                Err(error) => Err(error),
                Ok(directory) => if name_error(new_name) is Some {
                    Err(name_error(new_name)->0)
                } else if namespace.entry(new_parent, new_name) is Some {
                    Err(FuseError::Errno(Errno::EEXIST))
                } else {
                    match (write.sequence_to_give(), child_path(namespace, new_parent, new_name)) {
                        (Err(error), _) => Err(error),
                        (Ok(_), Err(error)) => Err(error),
                        (Ok(sequence), Ok(path)) => {
                            let linked = InodeView {
                                nlink: more_links(inode.nlink),
                                ctime: now,
                                ..inode
                            };
                            Ok(
                                InodeChange {
                                    number,
                                    inode: linked,
                                    change: ChangeView {
                                        event: EventRecordView::plain(
                                            sequence,
                                            EventKind::HardLinkCreated,
                                            created_at,
                                            file_identifier_of(number, inode.kind),
                                            Some(path),
                                            None,
                                            None,
                                        ),
                                        mutation: MutationView::nothing().with_inode(
                                            number,
                                            linked,
                                        ).with_entry(
                                            new_parent,
                                            new_name,
                                            StoredDirectoryEntry {
                                                inode: number,
                                                kind: inode.kind,
                                            },
                                        ).with_inode(new_parent, directory.touched(now)),
                                        next_inode_number: None,
                                    },
                                },
                            )
                        },
                    }
                },
            }
        },
    }
}

/// Plans one more name for an inode.
pub fn plan_link_creation(
    state: &MaterializedBranchState,
    write_state: WriteState,
    inode_number: u64,
    new_parent: u64,
    new_name: &[u8],
    now: StoredTime,
    created_at: time::UtcDateTime,
) -> (result: Result<(u64, StoredInode, PlannedChange), FuseError>)
    ensures
        plans_inode_change(
            result,
            link_creation(
                state@,
                write_state,
                inode_number,
                new_parent,
                new_name@,
                now,
                created_at,
            ),
        ),
{
    let mut inode = match require_inode(state, inode_number) {
        Err(error) => return Err(error),
        Ok(inode) => inode,
    };
    if inode.kind == StoredNodeKind::Directory {
        return Err(FuseError::Errno(Errno::EPERM));
    }
    let mut parent_inode = match require_directory(state, new_parent) {
        Err(error) => return Err(error),
        Ok(inode) => inode,
    };
    let name_bytes = match validate_name(new_name) {
        Err(error) => return Err(error),
        Ok(bytes) => bytes,
    };
    if state.directory_entry(new_parent, name_bytes.as_slice()).is_some() {
        return Err(FuseError::Errno(Errno::EEXIST));
    }
    let event_sequence = match write_state.next_event_sequence() {
        Err(error) => return Err(error),
        Ok(sequence) => sequence,
    };
    inode.nlink = one_more_link(inode.nlink);
    inode.ctime = now;
    let path = match child_event_path(new_parent, name_bytes.as_slice(), state) {
        Err(error) => return Err(error),
        Ok(path) => path,
    };
    let mut mutation = StoredMutation::default();
    mutation.put_inode(inode_number, &inode);
    let entry = StoredDirectoryEntry { inode: inode_number, kind: inode.kind };
    mutation.put_directory_entry(new_parent, name_bytes.as_slice(), &entry);
    touch_loaded_directory(&mut parent_inode, now);
    mutation.put_inode(new_parent, &parent_inode);
    let event = EventRecord::new(
        event_sequence,
        EventKind::HardLinkCreated,
        created_at,
        file_identifier_for_kind(inode_number, inode.kind),
        Some(path),
        None,
        None,
    );
    Ok((inode_number, inode, PlannedChange { event, mutation, next_inode_number: None }))
}

/// The inode that a rename replaces, with its entry: what is at the new name, unless it is the same
/// inode. A directory only replaces an empty directory, anything else only what is not a directory.
pub open spec fn replaced_by_rename(
    namespace: Namespace,
    entry: StoredDirectoryEntry,
    destination: Option<StoredDirectoryEntry>,
) -> Result<Option<(u64, InodeView)>, FuseError> {
    match destination {
        None => Ok(None),
        Some(found) => if found.inode == entry.inode {
            Ok(None)
        } else {
            match inode_of(namespace, found.inode) {
                Err(error) => Err(error),
                Ok(inode) => if inode.kind == StoredNodeKind::Directory && entry.kind
                    != StoredNodeKind::Directory {
                    Err(FuseError::Errno(Errno::EISDIR))
                } else if inode.kind == StoredNodeKind::Directory && !namespace.empty_directory(
                    found.inode,
                ) {
                    Err(FuseError::Errno(Errno::ENOTEMPTY))
                } else if inode.kind != StoredNodeKind::Directory && entry.kind
                    == StoredNodeKind::Directory {
                    Err(FuseError::Errno(Errno::ENOTDIR))
                } else {
                    Ok(Some((found.inode, inode)))
                },
            }
        },
    }
}

fn find_replaced(
    state: &MaterializedBranchState,
    entry: StoredDirectoryEntry,
    destination: Option<StoredDirectoryEntry>,
) -> (replaced: Result<Option<(u64, StoredInode)>, FuseError>)
    ensures
        match replaced {
            Ok(Some(pair)) => replaced_by_rename(state@, entry, destination) == Ok::<
                Option<(u64, InodeView)>,
                FuseError,
            >(Some((pair.0, pair.1@))),
            Ok(None) => replaced_by_rename(state@, entry, destination) == Ok::<
                Option<(u64, InodeView)>,
                FuseError,
            >(None),
            Err(error) => replaced_by_rename(state@, entry, destination) == Err::<
                Option<(u64, InodeView)>,
                FuseError,
            >(error),
        },
{
    match destination {
        None => Ok(None),
        Some(found) => {
            if found.inode == entry.inode {
                return Ok(None);
            }
            let inode = match require_inode(state, found.inode) {
                Err(error) => return Err(error),
                Ok(inode) => inode,
            };
            if inode.kind == StoredNodeKind::Directory {
                if entry.kind != StoredNodeKind::Directory {
                    return Err(FuseError::Errno(Errno::EISDIR));
                }
                if !directory_is_empty(state, found.inode) {
                    return Err(FuseError::Errno(Errno::ENOTEMPTY));
                }
            } else if entry.kind == StoredNodeKind::Directory {
                return Err(FuseError::Errno(Errno::ENOTDIR));
            }
            Ok(Some((found.inode, inode)))
        },
    }
}

/// The value of an optional inode.
pub open spec fn optional_inode(inode: Option<StoredInode>) -> Option<InodeView> {
    match inode {
        Some(inode) => Some(inode@),
        None => None,
    }
}

/// The value of an optional inode with its number.
pub open spec fn numbered_inode(pair: Option<(u64, StoredInode)>) -> Option<(u64, InodeView)> {
    match pair {
        Some(pair) => Some((pair.0, pair.1@)),
        None => None,
    }
}

/// What a rename finds before it changes anything.
pub ghost struct RenameView {
    pub old_parent: InodeView,
    pub new_parent: Option<InodeView>,
    pub entry: StoredDirectoryEntry,
    pub inode: InodeView,
    pub sequence: EventSequence,
    pub path: Seq<char>,
    pub replaced: Option<(u64, InodeView)>,
}

/// What a rename finds, or why it is refused: the names are valid, the directories and the entry are
/// there, a directory does not move below itself, a name that must not be replaced is free, and what
/// is replaced can be.
pub open spec fn rename_found(
    namespace: Namespace,
    write: WriteState,
    parent: u64,
    name: Seq<u8>,
    new_parent: u64,
    new_name: Seq<u8>,
    no_replace: bool,
) -> Result<RenameView, FuseError> {
    if name_error(name) is Some {
        Err(name_error(name)->0)
    } else if name_error(new_name) is Some {
        Err(name_error(new_name)->0)
    } else if directory_of(namespace, parent) is Err {
        Err(directory_of(namespace, parent)->Err_0)
    } else if new_parent != parent && directory_of(namespace, new_parent) is Err {
        Err(directory_of(namespace, new_parent)->Err_0)
    } else {
        match namespace.entry(parent, name) {
            None => Err(FuseError::Errno(Errno::ENOENT)),
            Some(entry) => match inode_of(namespace, entry.inode) {
                Err(error) => Err(error),
                Ok(inode) => {
                    let below = lies_below(
                        namespace,
                        entry.inode,
                        new_parent,
                        PATH_STEPS as nat,
                    );
                    let destination = namespace.entry(new_parent, new_name);
                    if entry.kind == StoredNodeKind::Directory && below is Err {
                        Err(below->Err_0)
                    } else if entry.kind == StoredNodeKind::Directory && below->Ok_0 {
                        Err(FuseError::Errno(Errno::EINVAL))
                    } else if no_replace && destination is Some {
                        Err(FuseError::Errno(Errno::EEXIST))
                    } else {
                        match (
                            write.sequence_to_give(),
                            child_path(namespace, new_parent, new_name),
                            replaced_by_rename(namespace, entry, destination),
                        ) {
                            (Err(error), _, _) => Err(error),
                            (Ok(_), Err(error), _) => Err(error),
                            (Ok(_), Ok(_), Err(error)) => Err(error),
                            (Ok(sequence), Ok(path), Ok(replaced)) => Ok(
                                RenameView {
                                    old_parent: directory_of(namespace, parent)->Ok_0,
                                    new_parent: if new_parent == parent {
                                        None
                                    } else {
                                        Some(directory_of(namespace, new_parent)->Ok_0)
                                    },
                                    entry,
                                    inode,
                                    sequence,
                                    path,
                                    replaced,
                                },
                            ),
                        }
                    }
                },
            },
        }
    }
}

/// The old directory after a rename: where it is also the new one, what was replaced is gone from it;
/// where a directory moved away, it has one link fewer.
pub open spec fn old_parent_after(found: RenameView, now: StoredTime) -> InodeView {
    let first = if found.new_parent is None && found.replaced is Some {
        found.old_parent.after_removal((found.replaced->0).1, now)
    } else {
        found.old_parent
    };
    let second = if found.entry.kind == StoredNodeKind::Directory && found.new_parent is Some {
        InodeView { nlink: fewer_links(first.nlink), ..first }
    } else {
        first
    };
    second.touched(now)
}

/// The new directory after a rename from another one: what was replaced is gone from it, and where a
/// directory moved in, it has one link more.
pub open spec fn new_parent_after(found: RenameView, now: StoredTime) -> InodeView {
    let first = if found.replaced is Some {
        found.new_parent->0.after_removal((found.replaced->0).1, now)
    } else {
        found.new_parent->0
    };
    let second = if found.entry.kind == StoredNodeKind::Directory {
        InodeView { nlink: more_links(first.nlink), ..first }
    } else {
        first
    };
    second.touched(now)
}

/// The mutation of a rename.
pub open spec fn rename_mutation(
    found: RenameView,
    parent: u64,
    name: Seq<u8>,
    new_parent: u64,
    new_name: Seq<u8>,
    now: StoredTime,
) -> MutationView {
    let first = MutationView::nothing().without_entry(parent, name);
    let second = match found.replaced {
        None => first,
        Some((number, inode)) => unlinked(
            first.without_entry(new_parent, new_name),
            number,
            inode,
            now,
        ),
    };
    let moved = InodeView { parent: new_parent, name: new_name, ctime: now, ..found.inode };
    let third = second.with_entry(new_parent, new_name, found.entry).with_inode(
        found.entry.inode,
        moved,
    ).with_inode(parent, old_parent_after(found, now));
    match found.new_parent {
        None => third,
        Some(_) => third.with_inode(new_parent, new_parent_after(found, now)),
    }
}

/// The change that renames.
pub open spec fn rename_change(
    namespace: Namespace,
    write: WriteState,
    parent: u64,
    name: Seq<u8>,
    new_parent: u64,
    new_name: Seq<u8>,
    no_replace: bool,
    now: StoredTime,
    created_at: time::UtcDateTime,
) -> Result<ChangeView, FuseError> {
    match rename_found(namespace, write, parent, name, new_parent, new_name, no_replace) {
        Err(error) => Err(error),
        Ok(found) => Ok(
            ChangeView {
                event: EventRecordView::plain(
                    found.sequence,
                    EventKind::NodeRenamed,
                    created_at,
                    file_identifier_of(found.entry.inode, found.entry.kind),
                    Some(found.path),
                    None,
                    None,
                ),
                mutation: rename_mutation(found, parent, name, new_parent, new_name, now),
                next_inode_number: None,
            },
        ),
    }
}

/// Plans a rename.
pub fn plan_rename(
    state: &MaterializedBranchState,
    write_state: WriteState,
    parent: u64,
    name: &[u8],
    new_parent: u64,
    new_name: &[u8],
    no_replace: bool,
    now: StoredTime,
    created_at: time::UtcDateTime,
) -> (result: Result<PlannedChange, FuseError>)
    ensures
        plans_change(
            result,
            rename_change(
                state@,
                write_state,
                parent,
                name@,
                new_parent,
                new_name@,
                no_replace,
                now,
                created_at,
            ),
        ),
{
    let name_bytes = match validate_name(name) {
        Err(error) => return Err(error),
        Ok(bytes) => bytes,
    };
    let new_name_bytes = match validate_name(new_name) {
        Err(error) => return Err(error),
        Ok(bytes) => bytes,
    };
    let mut old_parent_inode = match require_directory(state, parent) {
        Err(error) => return Err(error),
        Ok(inode) => inode,
    };
    let mut new_parent_inode: Option<StoredInode> = if new_parent == parent {
        None
    } else {
        match require_directory(state, new_parent) {
            Err(error) => return Err(error),
            Ok(inode) => Some(inode),
        }
    };
    let entry = match state.directory_entry(parent, name_bytes.as_slice()) {
        None => return Err(FuseError::Errno(Errno::ENOENT)),
        Some(entry) => entry,
    };
    let mut inode = match require_inode(state, entry.inode) {
        Err(error) => return Err(error),
        Ok(inode) => inode,
    };
    if entry.kind == StoredNodeKind::Directory {
        match directory_is_self_or_descendant(state, entry.inode, new_parent) {
            Err(error) => return Err(error),
            Ok(below) => {
                if below {
                    return Err(FuseError::Errno(Errno::EINVAL));
                }
            },
        }
    }
    let destination = state.directory_entry(new_parent, new_name_bytes.as_slice());
    if no_replace && destination.is_some() {
        return Err(FuseError::Errno(Errno::EEXIST));
    }
    let event_sequence = match write_state.next_event_sequence() {
        Err(error) => return Err(error),
        Ok(sequence) => sequence,
    };
    let new_path = match child_event_path(new_parent, new_name_bytes.as_slice(), state) {
        Err(error) => return Err(error),
        Ok(path) => path,
    };
    let replaced = match find_replaced(state, entry, destination) {
        Err(error) => return Err(error),
        Ok(replaced) => replaced,
    };
    let ghost found = RenameView {
        old_parent: old_parent_inode@,
        new_parent: optional_inode(new_parent_inode),
        entry,
        inode: inode@,
        sequence: event_sequence,
        path: new_path@,
        replaced: numbered_inode(replaced),
    };
    assert(rename_found(
        state@,
        write_state,
        parent,
        name@,
        new_parent,
        new_name@,
        no_replace,
    ) == Ok::<RenameView, FuseError>(found));
    let mut mutation = StoredMutation::default();
    mutation.delete_directory_entry(parent, name_bytes.as_slice());
    match replaced {
        None => {},
        Some(pair) => {
            let (replaced_number, replaced_inode) = pair;
            match new_parent_inode {
                None => {
                    update_parent_after_entry_removal(&replaced_inode, &mut old_parent_inode, now);
                },
                Some(directory) => {
                    let mut directory = directory;
                    update_parent_after_entry_removal(&replaced_inode, &mut directory, now);
                    new_parent_inode = Some(directory);
                },
            }
            mutation.delete_directory_entry(new_parent, new_name_bytes.as_slice());
            unlink_inode(&mut mutation, replaced_number, replaced_inode, now);
        },
    }
    inode.parent = new_parent;
    inode.name = copy_bytes(new_name_bytes.as_slice());
    inode.ctime = now;
    mutation.put_directory_entry(new_parent, new_name_bytes.as_slice(), &entry);
    mutation.put_inode(entry.inode, &inode);
    match new_parent_inode {
        None => {
            touch_loaded_directory(&mut old_parent_inode, now);
            mutation.put_inode(parent, &old_parent_inode);
        },
        Some(directory) => {
            let mut directory = directory;
            if entry.kind == StoredNodeKind::Directory {
                old_parent_inode.nlink = one_fewer_link(old_parent_inode.nlink);
                directory.nlink = one_more_link(directory.nlink);
            }
            touch_loaded_directory(&mut old_parent_inode, now);
            touch_loaded_directory(&mut directory, now);
            mutation.put_inode(parent, &old_parent_inode);
            mutation.put_inode(new_parent, &directory);
        },
    }
    let event = EventRecord::new(
        event_sequence,
        EventKind::NodeRenamed,
        created_at,
        file_identifier_for_kind(entry.inode, entry.kind),
        Some(new_path),
        None,
        None,
    );
    Ok(PlannedChange { event, mutation, next_inode_number: None })
}

/// The path of an inode where it can be given.
pub open spec fn known_path(namespace: Namespace, number: u64, inode: InodeView) -> Option<
    Seq<char>,
> {
    match inode_path(namespace, number, inode) {
        Ok(path) => Some(path),
        Err(_) => None,
    }
}

/// Returns the path of an inode where it can be given.
pub fn optional_inode_path(
    inode_number: u64,
    inode: &StoredInode,
    state: &MaterializedBranchState,
) -> (path: Option<String>)
    ensures
        crate::filesystem::optional_text(path) == known_path(state@, inode_number, inode@),
{
    match inode_event_path(inode_number, inode, state) {
        Ok(path) => Some(path),
        Err(_) => None,
    }
}

/// A mode without the bits that run a program as its owner or group.
pub open spec fn without_privileges(mode: u16) -> u16 {
    mode & !(SETUID_MODE_BIT | SETGID_MODE_BIT)
}

/// Clears the bits that run a program as its owner or group.
pub fn clear_privileges(mode: u16) -> (cleared: u16)
    ensures
        cleared == without_privileges(mode),
{
    mode & !(SETUID_MODE_BIT | SETGID_MODE_BIT)
}

/// An inode with new attributes, apart from its size and the time of change. A new owner or group
/// takes the privileges away.
pub open spec fn with_attributes(inode: InodeView, metadata: SetattrMetadata) -> InodeView {
    let mode = match metadata.mode {
        Some(mode) => permission_bits(mode, 0),
        None => inode.mode,
    };
    InodeView {
        mode: if metadata.uid is Some || metadata.gid is Some {
            without_privileges(mode)
        } else {
            mode
        },
        uid: match metadata.uid {
            Some(uid) => uid,
            None => inode.uid,
        },
        gid: match metadata.gid {
            Some(gid) => gid,
            None => inode.gid,
        },
        atime: match metadata.atime {
            Some(time) => time,
            None => inode.atime,
        },
        mtime: match metadata.mtime {
            Some(time) => time,
            None => inode.mtime,
        },
        ..inode
    }
}

fn set_attributes(inode: &mut StoredInode, metadata: SetattrMetadata)
    ensures
        final(inode)@ == with_attributes(old(inode)@, metadata),
{
    match metadata.mode {
        Some(mode) => {
            inode.mode = permission_mode(mode, 0);
        },
        None => {},
    }
    match metadata.uid {
        Some(uid) => {
            inode.uid = uid;
        },
        None => {},
    }
    match metadata.gid {
        Some(gid) => {
            inode.gid = gid;
        },
        None => {},
    }
    if metadata.uid.is_some() || metadata.gid.is_some() {
        inode.mode = clear_privileges(inode.mode);
    }
    match metadata.atime {
        Some(time) => {
            inode.atime = time;
        },
        None => {},
    }
    match metadata.mtime {
        Some(time) => {
            inode.mtime = time;
        },
        None => {},
    }
}

/// What a change of attributes comes to.
pub ghost enum AttributeOutcome {
    Unchanged(InodeView),
    Resized(InodeView, u64),
    Changed(InodeChange),
}

/// What a change of attributes comes to: nothing, a new size of a regular file, or other attributes.
pub open spec fn attribute_outcome(
    namespace: Namespace,
    write: WriteState,
    number: u64,
    metadata: SetattrMetadata,
    now: StoredTime,
    created_at: time::UtcDateTime,
) -> Result<AttributeOutcome, FuseError> {
    match inode_of(namespace, number) {
        Err(error) => Err(error),
        Ok(inode) => {
            let changed = with_attributes(inode, metadata);
            if !change_permitted(inode, metadata) {
                Err(FuseError::Errno(Errno::EPERM))
            } else if metadata.size is Some && metadata.size->0 != inode.size {
                if inode.kind != StoredNodeKind::RegularFile {
                    Err(FuseError::Errno(Errno::EINVAL))
                } else {
                    Ok(
                        AttributeOutcome::Resized(
                            InodeView {
                                mtime: match metadata.mtime {
                                    Some(time) => time,
                                    None => now,
                                },
                                ctime: now,
                                ..changed
                            },
                            metadata.size->0,
                        ),
                    )
                }
            } else if changed == inode {
                Ok(AttributeOutcome::Unchanged(inode))
            } else {
                match write.sequence_to_give() {
                    Err(error) => Err(error),
                    Ok(sequence) => {
                        let stored = InodeView { ctime: now, ..changed };
                        Ok(
                            AttributeOutcome::Changed(
                                InodeChange {
                                    number,
                                    inode: stored,
                                    change: ChangeView {
                                        event: EventRecordView::plain(
                                            sequence,
                                            EventKind::MetadataChanged,
                                            created_at,
                                            file_identifier_of(number, inode.kind),
                                            known_path(namespace, number, stored),
                                            None,
                                            None,
                                        ),
                                        mutation: MutationView::nothing().with_inode(
                                            number,
                                            stored,
                                        ),
                                        next_inode_number: None,
                                    },
                                },
                            ),
                        )
                    },
                }
            }
        },
    }
}

/// A planned change of attributes.
#[derive(Debug, PartialEq, Eq)]
pub enum PlannedAttributes {
    /// Nothing changes.
    Unchanged(StoredInode),
    /// The size changes, and with it other attributes.
    Resized(StoredInode, u64),
    /// Other attributes change.
    Changed(StoredInode, PlannedChange),
}

/// Plans a change of attributes.
pub fn plan_attributes(
    state: &MaterializedBranchState,
    write_state: WriteState,
    inode_number: u64,
    metadata: SetattrMetadata,
    now: StoredTime,
    created_at: time::UtcDateTime,
) -> (result: Result<PlannedAttributes, FuseError>)
    ensures
        ({
            let expected = attribute_outcome(
                state@,
                write_state,
                inode_number,
                metadata,
                now,
                created_at,
            );
            match result {
                Ok(PlannedAttributes::Unchanged(inode)) => expected == Ok::<
                    AttributeOutcome,
                    FuseError,
                >(AttributeOutcome::Unchanged(inode@)),
                Ok(PlannedAttributes::Resized(inode, size)) => expected == Ok::<
                    AttributeOutcome,
                    FuseError,
                >(AttributeOutcome::Resized(inode@, size)),
                Ok(PlannedAttributes::Changed(inode, change)) => expected == Ok::<
                    AttributeOutcome,
                    FuseError,
                >(
                    AttributeOutcome::Changed(
                        InodeChange {
                            number: inode_number,
                            inode: inode@,
                            change: change@,
                        },
                    ),
                ),
                Err(error) => expected == Err::<AttributeOutcome, FuseError>(error),
            }
        }),
{
    let original = match require_inode(state, inode_number) {
        Err(error) => return Err(error),
        Ok(inode) => inode,
    };
    match validate_metadata_change(&original, metadata) {
        Err(error) => return Err(error),
        Ok(_) => {},
    }
    let mut inode = original.clone();
    set_attributes(&mut inode, metadata);
    match metadata.size {
        Some(size) => {
            if size != original.size {
                if inode.kind != StoredNodeKind::RegularFile {
                    return Err(FuseError::Errno(Errno::EINVAL));
                }
                if metadata.mtime.is_none() {
                    inode.mtime = now;
                }
                inode.ctime = now;
                return Ok(PlannedAttributes::Resized(inode, size));
            }
        },
        None => {},
    }
    if inode.mode == original.mode && inode.uid == original.uid && inode.gid == original.gid
        && inode.atime == original.atime && inode.mtime == original.mtime {
        return Ok(PlannedAttributes::Unchanged(inode));
    }
    let event_sequence = match write_state.next_event_sequence() {
        Err(error) => return Err(error),
        Ok(sequence) => sequence,
    };
    inode.ctime = now;
    let mut mutation = StoredMutation::default();
    mutation.put_inode(inode_number, &inode);
    let event = EventRecord::new(
        event_sequence,
        EventKind::MetadataChanged,
        created_at,
        file_identifier_for_kind(inode_number, inode.kind),
        optional_inode_path(inode_number, &inode, state),
        None,
        None,
    );
    Ok(
        PlannedAttributes::Changed(
            inode,
            PlannedChange { event, mutation, next_inode_number: None },
        ),
    )
}

/// Asks for an extended attribute that is not there yet.
pub const XATTR_CREATE: i32 = 1;

/// Asks for an extended attribute that is already there.
pub const XATTR_REPLACE: i32 = 2;

/// The change of the inode and the event that go with a change of an extended attribute.
pub open spec fn attribute_event(
    namespace: Namespace,
    number: u64,
    inode: InodeView,
    sequence: EventSequence,
    kind: EventKind,
    byte_length: Option<u64>,
    now: StoredTime,
    created_at: time::UtcDateTime,
) -> ChangeView {
    let stored = InodeView { ctime: now, ..inode };
    ChangeView {
        event: EventRecordView::plain(
            sequence,
            kind,
            created_at,
            file_identifier_of(number, inode.kind),
            known_path(namespace, number, stored),
            None,
            byte_length,
        ),
        mutation: MutationView::nothing().with_inode(number, stored),
        next_inode_number: None,
    }
}

/// The change that sets an extended attribute: none where it has the value already.
pub open spec fn attribute_setting(
    namespace: Namespace,
    write: WriteState,
    number: u64,
    name: Seq<u8>,
    value: Seq<u8>,
    flags: i32,
    now: StoredTime,
    created_at: time::UtcDateTime,
) -> Result<Option<ChangeView>, FuseError> {
    let create = flags & XATTR_CREATE != 0;
    let replace = flags & XATTR_REPLACE != 0;
    let existing = namespace.attribute(number, name);
    match inode_of(namespace, number) {
        Err(error) => Err(error),
        Ok(inode) => if !has_attributes(inode.kind) {
            Err(FuseError::Errno(Errno::ENOTSUP))
        } else if attribute_name_error(name) is Some {
            Err(attribute_name_error(name)->0)
        } else if value.len() > XATTR_VALUE_MAX_BYTES {
            Err(FuseError::Errno(Errno::ERANGE))
        } else if flags & !(XATTR_CREATE | XATTR_REPLACE) != 0 || (create && replace) {
            Err(FuseError::Errno(Errno::EINVAL))
        } else if create && existing is Some {
            Err(FuseError::Errno(Errno::EEXIST))
        } else if replace && existing is None {
            Err(FuseError::Errno(Errno::NO_XATTR))
        } else if existing == Some(value) {
            Ok(None)
        } else {
            match write.sequence_to_give() {
                Err(error) => Err(error),
                Ok(sequence) => {
                    let change = attribute_event(
                        namespace,
                        number,
                        inode,
                        sequence,
                        EventKind::ExtendedAttributeSet,
                        Some(value.len() as u64),
                        now,
                        created_at,
                    );
                    Ok(
                        Some(
                            ChangeView {
                                mutation: change.mutation.with_attribute(number, name, value),
                                ..change
                            },
                        ),
                    )
                },
            }
        },
    }
}

/// What planning a change that may be none gives.
pub open spec fn plans_optional_change(
    result: Result<Option<PlannedChange>, FuseError>,
    expected: Result<Option<ChangeView>, FuseError>,
) -> bool {
    match result {
        Ok(Some(planned)) => expected == Ok::<Option<ChangeView>, FuseError>(Some(planned@)),
        Ok(None) => expected == Ok::<Option<ChangeView>, FuseError>(None),
        Err(error) => expected == Err::<Option<ChangeView>, FuseError>(error),
    }
}

/// Plans the setting of an extended attribute.
pub fn plan_attribute_setting(
    state: &MaterializedBranchState,
    write_state: WriteState,
    inode_number: u64,
    name: &[u8],
    value: &[u8],
    flags: i32,
    now: StoredTime,
    created_at: time::UtcDateTime,
) -> (result: Result<Option<PlannedChange>, FuseError>)
    ensures
        plans_optional_change(
            result,
            attribute_setting(
                state@,
                write_state,
                inode_number,
                name@,
                value@,
                flags,
                now,
                created_at,
            ),
        ),
{
    let mut inode = match require_inode(state, inode_number) {
        Err(error) => return Err(error),
        Ok(inode) => inode,
    };
    match validate_extended_attribute_inode(&inode) {
        Err(error) => return Err(error),
        Ok(_) => {},
    }
    let name_bytes = match validate_extended_attribute_name(name) {
        Err(error) => return Err(error),
        Ok(bytes) => bytes,
    };
    match validate_extended_attribute_value(value) {
        Err(error) => return Err(error),
        Ok(_) => {},
    }
    let create = flags & XATTR_CREATE != 0;
    let replace = flags & XATTR_REPLACE != 0;
    if flags & !(XATTR_CREATE | XATTR_REPLACE) != 0 || (create && replace) {
        return Err(FuseError::Errno(Errno::EINVAL));
    }
    match state.extended_attribute(inode_number, name_bytes.as_slice()) {
        Some(existing) => {
            if create {
                return Err(FuseError::Errno(Errno::EEXIST));
            }
            if bytes_equal(existing.as_slice(), value) {
                return Ok(None);
            }
        },
        None => {
            if replace {
                return Err(FuseError::Errno(Errno::NO_XATTR));
            }
        },
    }
    let event_sequence = match write_state.next_event_sequence() {
        Err(error) => return Err(error),
        Ok(sequence) => sequence,
    };
    inode.ctime = now;
    let mut mutation = StoredMutation::default();
    mutation.put_inode(inode_number, &inode);
    mutation.put_extended_attribute(inode_number, name_bytes.as_slice(), value);
    let event = EventRecord::new(
        event_sequence,
        EventKind::ExtendedAttributeSet,
        created_at,
        file_identifier_for_kind(inode_number, inode.kind),
        optional_inode_path(inode_number, &inode, state),
        None,
        Some(value.len() as u64),
    );
    Ok(Some(PlannedChange { event, mutation, next_inode_number: None }))
}

/// The change that removes an extended attribute.
pub open spec fn attribute_removal(
    namespace: Namespace,
    write: WriteState,
    number: u64,
    name: Seq<u8>,
    now: StoredTime,
    created_at: time::UtcDateTime,
) -> Result<ChangeView, FuseError> {
    match inode_of(namespace, number) {
        Err(error) => Err(error),
        Ok(inode) => if !has_attributes(inode.kind) {
            Err(FuseError::Errno(Errno::ENOTSUP))
        } else if attribute_name_error(name) is Some {
            Err(attribute_name_error(name)->0)
        } else if namespace.attribute(number, name) is None {
            Err(FuseError::Errno(Errno::NO_XATTR))
        } else {
            match write.sequence_to_give() {
                Err(error) => Err(error),
                Ok(sequence) => {
                    let change = attribute_event(
                        namespace,
                        number,
                        inode,
                        sequence,
                        EventKind::ExtendedAttributeRemoved,
                        None,
                        now,
                        created_at,
                    );
                    Ok(
                        ChangeView {
                            mutation: change.mutation.without_attribute(number, name),
                            ..change
                        },
                    )
                },
            }
        },
    }
}

/// Plans the removal of an extended attribute.
pub fn plan_attribute_removal(
    state: &MaterializedBranchState,
    write_state: WriteState,
    inode_number: u64,
    name: &[u8],
    now: StoredTime,
    created_at: time::UtcDateTime,
) -> (result: Result<PlannedChange, FuseError>)
    ensures
        plans_change(
            result,
            attribute_removal(state@, write_state, inode_number, name@, now, created_at),
        ),
{
    let mut inode = match require_inode(state, inode_number) {
        Err(error) => return Err(error),
        Ok(inode) => inode,
    };
    match validate_extended_attribute_inode(&inode) {
        Err(error) => return Err(error),
        Ok(_) => {},
    }
    let name_bytes = match validate_extended_attribute_name(name) {
        Err(error) => return Err(error),
        Ok(bytes) => bytes,
    };
    if state.extended_attribute(inode_number, name_bytes.as_slice()).is_none() {
        return Err(FuseError::Errno(Errno::NO_XATTR));
    }
    let event_sequence = match write_state.next_event_sequence() {
        Err(error) => return Err(error),
        Ok(sequence) => sequence,
    };
    inode.ctime = now;
    let mut mutation = StoredMutation::default();
    mutation.put_inode(inode_number, &inode);
    mutation.delete_extended_attribute(inode_number, name_bytes.as_slice());
    let event = EventRecord::new(
        event_sequence,
        EventKind::ExtendedAttributeRemoved,
        created_at,
        file_identifier_for_kind(inode_number, inode.kind),
        optional_inode_path(inode_number, &inode, state),
        None,
        None,
    );
    Ok(PlannedChange { event, mutation, next_inode_number: None })
}

} // verus!
