//! What is told of an inode: after an operation each attribute that was asked for is answered in its
//! own place, and the others are what they were.

use vstd::prelude::*;

use crate::changes::{
    attribute_removal, attribute_setting, entry_removal, link_creation, node_creation,
    rename_change, symlink_creation, AttributeOutcome, ChangeView,
};
use crate::commit::PayloadExtents;
use crate::database::{BatchView, WriteState};
use crate::error::{Errno, FuseError};
use crate::files::lemma_inode_stored;
use crate::inode::{
    CreateNodeKind, CreateNodeMetadata, FileAttr, InodeView, SetattrMetadata, StoredNodeKind,
    StoredTime,
};
use crate::namespace::{last_put, lemma_inode_after_agrees, MutationView, Namespace};
use crate::naming::{
    lemma_attribute_is_read_back, lemma_created_is_found, lemma_removed_attribute_is_gone,
    lemma_renamed_inodes, lemma_symlink_is_found,
};
use crate::permissions::{lemma_permission_bits, lemma_privileges_cleared, lemma_whose_new_node};
use crate::storage::{
    attributes_answer, attributes_commit, inode_commit, open_commit, resize_commit, write_commit,
    EntrySnapshot, PreparedView, StorageView,
};
use crate::writes::ContentChange;

verus! {

/// What is answered about an inode of a state.
pub open spec fn told(namespace: Namespace, number: u64) -> FileAttr {
    attributes_answer(namespace, number)->Ok_0.attr
}

/// Two answers agree in everything but the size, the times and the permissions.
pub open spec fn same_node(before: FileAttr, after: FileAttr) -> bool {
    &&& after.ino == before.ino
    &&& after.kind == before.kind
    &&& after.rdev == before.rdev
    &&& after.blksize == before.blksize
    &&& after.flags == before.flags
}

/// What is told of an inode is its number and the room that it takes in blocks of five hundred and
/// twelve bytes: as many as are needed and no more.
pub proof fn lemma_told_room(namespace: Namespace, number: u64)
    requires
        namespace.inode(number) is Some,
    ensures
        ({
            let attr = told(namespace, number);
            &&& attr.ino == number
            &&& attr.blocks * 512 >= attr.size
            &&& attr.blocks > 0 ==> (attr.blocks - 1) * 512 < attr.size
            &&& attr.size == 0 ==> attr.blocks == 0
            &&& attr.blksize == 4096
            &&& attr.flags == 0
            &&& attributes_answer(namespace, number)->Ok_0.ttl_seconds == 1
        }),
{
}

/// A prepared commit makes of the state what its change makes of it.
pub proof fn lemma_prepared_changes_state(
    storage: StorageView,
    change: ChangeView,
    rows: BatchView,
    payload: PayloadExtents,
    manifest: Option<Seq<u8>>,
    prepared: PreparedView,
)
    requires
        storage.prepare(change, rows, payload, manifest) == Ok::<PreparedView, FuseError>(prepared),
    ensures
        storage.after(prepared).namespace() == storage.namespace().after(change.mutation),
        prepared.mutation == change.mutation,
        prepared.next_inode_number == change.next_inode_number,
        prepared.sequence == change.event.sequence,
{
}

/// The filesystem after an operation that may change nothing.
pub open spec fn after_any(storage: StorageView, made: Option<PreparedView>) -> StorageView {
    match made {
        Some(prepared) => storage.after(prepared),
        None => storage,
    }
}

/// A change of attributes stores one inode with these attributes, or nothing where nothing differs.
proof fn lemma_attributes_stored(
    storage: StorageView,
    number: u64,
    metadata: SetattrMetadata,
    now: StoredTime,
    created_at: time::UtcDateTime,
    entry: EntrySnapshot,
    made: Option<PreparedView>,
    other: u64,
)
    requires
        attributes_commit(storage, number, metadata, now, created_at) == Ok::<
            (EntrySnapshot, Option<PreparedView>),
            FuseError,
        >((entry, made)),
    ensures
        ({
            let before = storage.namespace();
            let after = after_any(storage, made).namespace();
            &&& before.inode(number) is Some
            &&& after.inode(number) is Some
            &&& entry.attr == told(after, number)
            &&& after.entries == before.entries
            &&& after.attributes == before.attributes
            &&& other != number ==> after.inode(other) == before.inode(other)
        }),
{
    let outcome = crate::changes::attribute_outcome(
        storage.namespace(),
        storage.write,
        number,
        metadata,
        now,
        created_at,
    );
    match outcome {
        Ok(AttributeOutcome::Changed(change)) => {
            let prepared = made->0;
            lemma_prepared_changes_state(
                storage,
                change.change,
                BatchView::nothing(),
                PayloadExtents::Nothing,
                None,
                prepared,
            );
            lemma_inode_stored(storage.namespace(), number, change.inode, other);
        },
        Ok(AttributeOutcome::Resized(inode, size)) => {
            let resized = crate::writes::resize_change(
                storage.image,
                storage.namespace(),
                storage.write,
                number,
                inode,
                size,
                created_at,
            );
            match resized {
                Ok(Some(content)) => {
                    lemma_content_stored(storage, number, content, made->0, other);
                },
                _ => {},
            }
        },
        _ => {},
    }
}

proof fn lemma_content_stored(
    storage: StorageView,
    number: u64,
    content: ContentChange,
    prepared: PreparedView,
    other: u64,
)
    requires
        storage.prepare_content(content) == Ok::<PreparedView, FuseError>(prepared),
        content.change.mutation == MutationView::nothing().with_inode(number, content.inode),
    ensures
        ({
            let before = storage.namespace();
            let after = storage.after(prepared).namespace();
            &&& after.inode(number) == Some(content.inode)
            &&& after.entries == before.entries
            &&& after.attributes == before.attributes
            &&& other != number ==> after.inode(other) == before.inode(other)
        }),
{
    lemma_prepared_changes_state(
        storage,
        content.change,
        content.rows,
        content.payload,
        Some(content.plan.identifier),
        prepared,
    );
    lemma_inode_stored(storage.namespace(), number, content.inode, other);
}

/// After a permitted change of attributes each value that was asked for is answered in its own field,
/// and owner, group and times that were not asked for are what they were: only where the size changes
/// is the time of the last modification that of the change. The time of the last change is that of
/// this one, unless nothing differed. The answer of the operation is what is answered later. Names,
/// other inodes and extended attributes stay.
#[verifier::spinoff_prover]
pub proof fn lemma_attributes_are_answered(
    storage: StorageView,
    number: u64,
    metadata: SetattrMetadata,
    now: StoredTime,
    created_at: time::UtcDateTime,
    entry: EntrySnapshot,
    made: Option<PreparedView>,
    other: u64,
)
    requires
        attributes_commit(storage, number, metadata, now, created_at) == Ok::<
            (EntrySnapshot, Option<PreparedView>),
            FuseError,
        >((entry, made)),
    ensures
        ({
            let before = storage.namespace();
            let after = after_any(storage, made).namespace();
            let old = told(before, number);
            let new = told(after, number);
            let resized = metadata.size is Some && metadata.size->0 != old.size;
            &&& before.inode(number) is Some
            &&& after.inode(number) is Some
            &&& entry.attr == new
            &&& same_node(old, new)
            &&& new.nlink == old.nlink
            &&& metadata.uid is Some ==> new.uid == metadata.uid->0
            &&& metadata.uid is None ==> new.uid == old.uid
            &&& metadata.gid is Some ==> new.gid == metadata.gid->0
            &&& metadata.gid is None ==> new.gid == old.gid
            &&& metadata.size is Some ==> new.size == metadata.size->0
            &&& metadata.size is None ==> new.size == old.size
            &&& metadata.atime is Some ==> new.atime == metadata.atime->0
            &&& metadata.atime is None ==> new.atime == old.atime
            &&& metadata.mtime is Some ==> new.mtime == metadata.mtime->0
            &&& metadata.mtime is None && resized ==> new.mtime == now
            &&& metadata.mtime is None && !resized ==> new.mtime == old.mtime
            &&& made is Some ==> new.ctime == now
            &&& made is None ==> after == before && new == old
            &&& made is Some ==> new != (FileAttr { ctime: new.ctime, ..old })
            &&& resized ==> made is Some
            &&& after.entries == before.entries
            &&& after.attributes == before.attributes
            &&& other != number ==> after.inode(other) == before.inode(other)
        }),
{
    lemma_attributes_stored(
        storage,
        number,
        metadata,
        now,
        created_at,
        entry,
        made,
        other,
    );
}

/// After a permitted change of attributes the permissions that are answered are the lowest twelve bits
/// of the mode that was asked for, or those from before where none was. Where an owner or a group was
/// asked for, the bits of four thousand and of two thousand (octal) are cleared.
#[verifier::spinoff_prover]
pub proof fn lemma_mode_is_answered(
    storage: StorageView,
    number: u64,
    metadata: SetattrMetadata,
    now: StoredTime,
    created_at: time::UtcDateTime,
    entry: EntrySnapshot,
    made: Option<PreparedView>,
    bit: u16,
)
    requires
        attributes_commit(storage, number, metadata, now, created_at) == Ok::<
            (EntrySnapshot, Option<PreparedView>),
            FuseError,
        >((entry, made)),
        bit < 16,
    ensures
        ({
            let old = told(storage.namespace(), number).perm;
            let new = told(after_any(storage, made).namespace(), number).perm;
            let asked = match metadata.mode {
                Some(mode) => bit < 12 && mode & (1u32 << (bit as u32)) != 0,
                None => old & (1u16 << bit) != 0,
            };
            let privilege = bit == 11 || bit == 10;
            let given = metadata.uid is Some || metadata.gid is Some;
            new & (1u16 << bit) != 0 <==> asked && !(privilege && given)
        }),
{
    lemma_attributes_stored(
        storage,
        number,
        metadata,
        now,
        created_at,
        entry,
        made,
        number,
    );
    let old = storage.namespace().inode(number)->0.mode;
    if metadata.mode is Some {
        let bits = crate::inode::permission_bits(metadata.mode->0, 0);
        lemma_permission_bits(metadata.mode->0, 0, bit as u32);
        lemma_privileges_cleared(bits, bit);
        assert((bits as u32) & (1u32 << (bit as u32)) != 0 <==> bits & (1u16 << bit) != 0)
            by (bit_vector)
            requires
                bit < 16,
        ;
        assert(0u32 & (1u32 << (bit as u32)) == 0) by (bit_vector);
    }
    lemma_privileges_cleared(old, bit);
}

/// A directory in which something changed has the time of the change as that of its last modification
/// and of its last change, and otherwise what it had, but for its links.
pub open spec fn directory_touched(before: FileAttr, after: FileAttr, now: StoredTime) -> bool {
    &&& same_node(before, after)
    &&& after.mtime == now
    &&& after.ctime == now
    &&& after.atime == before.atime
    &&& after.size == before.size
    &&& after.perm == before.perm
    &&& after.uid == before.uid
    &&& after.gid == before.gid
}

/// What is answered about a new node: it is of the kind that was asked for, empty, belongs to whoever
/// asked, was made now, and has one link, or two for a directory. The directory was changed now and
/// has one link more for a new directory. The answer of the operation is what is answered later.
#[verifier::spinoff_prover]
pub proof fn lemma_created_is_answered(
    storage: StorageView,
    parent: u64,
    name: Seq<u8>,
    kind: CreateNodeKind,
    metadata: CreateNodeMetadata,
    now: StoredTime,
    created_at: time::UtcDateTime,
    entry: EntrySnapshot,
    prepared: PreparedView,
    bit: u16,
)
    requires
        inode_commit(
            storage,
            node_creation(
                storage.namespace(),
                storage.write,
                parent,
                name,
                kind,
                metadata,
                now,
                created_at,
            ),
        ) == Ok::<(EntrySnapshot, PreparedView), FuseError>((entry, prepared)),
        bit < 16,
    ensures
        ({
            let before = storage.namespace();
            let after = storage.after(prepared).namespace();
            let number = entry.attr.ino;
            let new = told(after, number);
            let shared = told(before, parent).perm & 0o2000 != 0;
            let directory = kind == CreateNodeKind::Directory;
            let asked = bit < 12 && metadata.mode & (1u32 << (bit as u32)) != 0 && metadata.umask
                & (1u32 << (bit as u32)) == 0;
            &&& after.entry(parent, name) is Some
            &&& after.entry(parent, name)->0.inode == number
            &&& after.entry(parent, name)->0.kind == new.kind
            &&& after.inode(number) is Some
            &&& before.inode(number) is None
            &&& entry.attr == new
            &&& directory ==> new.kind == StoredNodeKind::Directory
            &&& kind == CreateNodeKind::RegularFile ==> new.kind == StoredNodeKind::RegularFile
            &&& kind matches CreateNodeKind::Special { mode, rdev } ==> {
                &&& new.rdev == rdev
                &&& new.kind == StoredNodeKind::RegularFile <==> mode & 0o170000 == 0o100000
                &&& new.kind == StoredNodeKind::NamedPipe <==> mode & 0o170000 == 0o010000
                &&& new.kind == StoredNodeKind::CharacterDevice <==> mode & 0o170000 == 0o020000
                &&& new.kind == StoredNodeKind::BlockDevice <==> mode & 0o170000 == 0o060000
                &&& new.kind == StoredNodeKind::Socket <==> mode & 0o170000 == 0o140000
            }
            &&& kind !is Special ==> new.rdev == 0
            &&& new.size == 0
            &&& new.nlink == (if directory {
                2u32
            } else {
                1u32
            })
            &&& new.uid == metadata.uid
            &&& new.gid == (if shared {
                told(before, parent).gid
            } else {
                metadata.gid
            })
            &&& new.perm & (1u16 << bit) != 0 <==> asked || (bit == 10 && shared && directory)
            &&& new.atime == now
            &&& new.mtime == now
            &&& new.ctime == now
            &&& directory_touched(told(before, parent), told(after, parent), now)
            &&& told(before, parent).nlink < u32::MAX ==> told(after, parent).nlink == told(
                before,
                parent,
            ).nlink + (if directory {
                1int
            } else {
                0int
            })
        }),
{
    let before = storage.namespace();
    let created = node_creation(
        before,
        storage.write,
        parent,
        name,
        kind,
        metadata,
        now,
        created_at,
    )->Ok_0;
    let mutation = created.change.mutation;
    lemma_prepared_changes_state(
        storage,
        created.change,
        BatchView::nothing(),
        PayloadExtents::Nothing,
        None,
        prepared,
    );
    lemma_created_is_found(
        before,
        storage.write,
        parent,
        name,
        kind,
        metadata,
        now,
        created_at,
        created,
        parent,
        name,
        parent,
    );
    lemma_whose_new_node(before.inode(parent)->0, created.inode.kind, metadata, bit);
    reveal_with_fuel(last_put, 4);
    lemma_inode_after_agrees(before, mutation, parent);
}

/// What is answered about a new symbolic link: its target is the one that was given, its size is the
/// length of that, and it belongs to whoever asked and was made now.
pub proof fn lemma_symlink_is_answered(
    storage: StorageView,
    parent: u64,
    name: Seq<u8>,
    target: Seq<u8>,
    metadata: CreateNodeMetadata,
    now: StoredTime,
    created_at: time::UtcDateTime,
    entry: EntrySnapshot,
    prepared: PreparedView,
)
    requires
        inode_commit(
            storage,
            symlink_creation(
                storage.namespace(),
                storage.write,
                parent,
                name,
                target,
                metadata,
                now,
                created_at,
            ),
        ) == Ok::<(EntrySnapshot, PreparedView), FuseError>((entry, prepared)),
        target.len() <= u64::MAX,
    ensures
        ({
            let before = storage.namespace();
            let after = storage.after(prepared).namespace();
            let number = entry.attr.ino;
            let new = told(after, number);
            let shared = told(before, parent).perm & 0o2000 != 0;
            &&& after.entry(parent, name) is Some
            &&& after.entry(parent, name)->0.inode == number
            &&& after.entry(parent, name)->0.kind == StoredNodeKind::Symlink
            &&& after.inode(number) is Some
            &&& before.inode(number) is None
            &&& after.inode(number)->0.symlink_target == Some(target)
            &&& entry.attr == new
            &&& new.kind == StoredNodeKind::Symlink
            &&& new.size == target.len()
            &&& new.nlink == 1
            &&& new.rdev == 0
            &&& new.uid == metadata.uid
            &&& new.gid == (if shared {
                told(before, parent).gid
            } else {
                metadata.gid
            })
            &&& new.atime == now
            &&& new.mtime == now
            &&& new.ctime == now
            &&& directory_touched(told(before, parent), told(after, parent), now)
            &&& told(after, parent).nlink == told(before, parent).nlink
        }),
{
    let before = storage.namespace();
    let created = symlink_creation(
        before,
        storage.write,
        parent,
        name,
        target,
        metadata,
        now,
        created_at,
    )->Ok_0;
    let mutation = created.change.mutation;
    lemma_prepared_changes_state(
        storage,
        created.change,
        BatchView::nothing(),
        PayloadExtents::Nothing,
        None,
        prepared,
    );
    lemma_symlink_is_found(
        before,
        storage.write,
        parent,
        name,
        target,
        metadata,
        now,
        created_at,
        created,
    );
    lemma_whose_new_node(before.inode(parent)->0, StoredNodeKind::Symlink, metadata, 0);
    reveal_with_fuel(last_put, 4);
    lemma_inode_after_agrees(before, mutation, parent);
    lemma_inode_after_agrees(before, mutation, created.number);
}

/// What is answered about a node with one more name: it has one link more and was changed now, and is
/// otherwise what it was.
pub proof fn lemma_link_is_answered(
    storage: StorageView,
    number: u64,
    new_parent: u64,
    new_name: Seq<u8>,
    now: StoredTime,
    created_at: time::UtcDateTime,
    entry: EntrySnapshot,
    prepared: PreparedView,
)
    requires
        inode_commit(
            storage,
            link_creation(
                storage.namespace(),
                storage.write,
                number,
                new_parent,
                new_name,
                now,
                created_at,
            ),
        ) == Ok::<(EntrySnapshot, PreparedView), FuseError>((entry, prepared)),
    ensures
        ({
            let before = storage.namespace();
            let after = storage.after(prepared).namespace();
            let old = told(before, number);
            let new = told(after, number);
            &&& after.inode(number) is Some
            &&& entry.attr == new
            &&& old.nlink < u32::MAX ==> new == (FileAttr {
                nlink: (old.nlink + 1) as u32,
                ctime: now,
                ..old
            })
            &&& after.inode(number)->0.symlink_target == before.inode(number)->0.symlink_target
            &&& after.inode(number)->0.content_manifest_identifier == before.inode(
                number,
            )->0.content_manifest_identifier
            &&& directory_touched(told(before, new_parent), told(after, new_parent), now)
            &&& told(after, new_parent).nlink == told(before, new_parent).nlink
        }),
{
    let before = storage.namespace();
    let linked = link_creation(
        before,
        storage.write,
        number,
        new_parent,
        new_name,
        now,
        created_at,
    )->Ok_0;
    let mutation = linked.change.mutation;
    lemma_prepared_changes_state(
        storage,
        linked.change,
        BatchView::nothing(),
        PayloadExtents::Nothing,
        None,
        prepared,
    );
    reveal_with_fuel(last_put, 4);
    lemma_inode_after_agrees(before, mutation, new_parent);
    lemma_inode_after_agrees(before, mutation, number);
}

/// What is answered after a name was removed: a node with other names has one link fewer and was
/// changed now, and is otherwise what it was; a node without is gone. The directory was changed now and
/// has one link fewer for a removed directory.
pub proof fn lemma_removal_is_answered(
    before: Namespace,
    write: WriteState,
    parent: u64,
    name: Seq<u8>,
    directory: bool,
    now: StoredTime,
    created_at: time::UtcDateTime,
    change: ChangeView,
)
    requires
        entry_removal(before, write, parent, name, directory, now, created_at) == Ok::<
            ChangeView,
            FuseError,
        >(change),
    ensures
        ({
            let after = before.after(change.mutation);
            let number = before.entry(parent, name)->0.inode;
            let old = told(before, number);
            &&& directory <==> old.kind == StoredNodeKind::Directory
            &&& !directory && old.nlink > 1 ==> after.inode(number) is Some && told(after, number)
                == (FileAttr { nlink: (old.nlink - 1) as u32, ctime: now, ..old })
            &&& directory || old.nlink <= 1 ==> after.inode(number) is None
            &&& directory_touched(told(before, parent), told(after, parent), now)
            &&& told(before, parent).nlink > 0 ==> told(after, parent).nlink == told(
                before,
                parent,
            ).nlink - (if directory {
                1int
            } else {
                0int
            })
        }),
{
    let mutation = change.mutation;
    let number = before.entry(parent, name)->0.inode;
    let inode = before.inode(number)->0;
    let gone = inode.kind == StoredNodeKind::Directory || inode.nlink <= 1;
    if number == parent {
        assert(before.empty_directory(number));
        assert(!before.entries.contains_key(crate::keys::named_key(number, name)));
    }
    assert(mutation.inode_deletes =~= if gone {
        seq![number]
    } else {
        seq![]
    });
    if gone {
        assert(mutation.inode_deletes[0] == number);
    }
    if mutation.inode_deletes.contains(parent) {
        let i = choose|i: int|
            0 <= i < mutation.inode_deletes.len() && mutation.inode_deletes[i] == parent;
    }
    reveal_with_fuel(last_put, 4);
    lemma_inode_after_agrees(before, mutation, number);
    lemma_inode_after_agrees(before, mutation, parent);
}

/// What is answered after a rename: what was moved was changed now and is otherwise what it was, and
/// both directories were changed now.
pub proof fn lemma_rename_is_answered(
    before: Namespace,
    write: WriteState,
    parent: u64,
    name: Seq<u8>,
    new_parent: u64,
    new_name: Seq<u8>,
    no_replace: bool,
    now: StoredTime,
    created_at: time::UtcDateTime,
    change: ChangeView,
)
    requires
        rename_change(
            before,
            write,
            parent,
            name,
            new_parent,
            new_name,
            no_replace,
            now,
            created_at,
        ) == Ok::<ChangeView, FuseError>(change),
        before.entry(parent, name)->0.inode != parent,
        before.entry(parent, name)->0.inode != new_parent,
    ensures
        ({
            let after = before.after(change.mutation);
            let number = before.entry(parent, name)->0.inode;
            let old = told(before, number);
            &&& after.inode(number) is Some
            &&& told(after, number) == (FileAttr { ctime: now, ..old })
            &&& after.inode(number)->0.symlink_target == before.inode(number)->0.symlink_target
            &&& after.inode(number)->0.content_manifest_identifier == before.inode(
                number,
            )->0.content_manifest_identifier
            &&& directory_touched(told(before, parent), told(after, parent), now)
            &&& directory_touched(told(before, new_parent), told(after, new_parent), now)
        }),
{
    let number = before.entry(parent, name)->0.inode;
    lemma_renamed_inodes(
        before,
        write,
        parent,
        name,
        new_parent,
        new_name,
        no_replace,
        now,
        created_at,
        change,
        number,
    );
    lemma_renamed_inodes(
        before,
        write,
        parent,
        name,
        new_parent,
        new_name,
        no_replace,
        now,
        created_at,
        change,
        parent,
    );
    lemma_renamed_inodes(
        before,
        write,
        parent,
        name,
        new_parent,
        new_name,
        no_replace,
        now,
        created_at,
        change,
        new_parent,
    );
}

/// What is answered after a write: the file reaches to the end of what was written if it did not
/// before, was modified and changed now, and where that is asked for has lost the bits that run it as
/// its owner or group. Everything else is what it was.
pub proof fn lemma_write_is_answered(
    storage: StorageView,
    number: u64,
    offset: u64,
    data: Seq<u8>,
    append: bool,
    clear_privileges: bool,
    now: StoredTime,
    created_at: time::UtcDateTime,
    prepared: PreparedView,
    bit: u16,
    other: u64,
)
    requires
        write_commit(
            storage,
            number,
            offset,
            data,
            append,
            clear_privileges,
            now,
            created_at,
        ) == Ok::<PreparedView, FuseError>(prepared),
        bit < 16,
    ensures
        ({
            let before = storage.namespace();
            let after = storage.after(prepared).namespace();
            let old = told(before, number);
            let new = told(after, number);
            let start = if append {
                old.size
            } else {
                offset
            };
            &&& after.inode(number) is Some
            &&& same_node(old, new)
            &&& new.size == (if start + data.len() > old.size {
                start + data.len()
            } else {
                old.size as int
            })
            &&& new.mtime == now
            &&& new.ctime == now
            &&& new.atime == old.atime
            &&& new.uid == old.uid
            &&& new.gid == old.gid
            &&& new.nlink == old.nlink
            &&& !clear_privileges ==> new.perm == old.perm
            &&& new.perm & (1u16 << bit) != 0 <==> old.perm & (1u16 << bit) != 0 && !(
            clear_privileges && (bit == 11 || bit == 10))
            &&& after.entries == before.entries
            &&& after.attributes == before.attributes
            &&& other != number ==> after.inode(other) == before.inode(other)
        }),
{
    let content = crate::writes::write_change(
        storage.image,
        storage.namespace(),
        storage.write,
        number,
        offset,
        data,
        append,
        clear_privileges,
        now,
        created_at,
    )->Ok_0;
    lemma_content_stored(storage, number, content, prepared, other);
    lemma_privileges_cleared(storage.namespace().inode(number)->0.mode, bit);
}

/// Opening a file cuts it off where that is asked for, and then it is empty and was modified and changed
/// now; otherwise nothing changes. Only regular files are opened.
#[verifier::spinoff_prover]
pub proof fn lemma_open_is_answered(
    storage: StorageView,
    number: u64,
    truncate: bool,
    now: StoredTime,
    created_at: time::UtcDateTime,
)
    ensures
        ({
            let result = open_commit(storage, number, truncate, now, created_at);
            let before = storage.namespace();
            let after = after_any(storage, result->Ok_0).namespace();
            let old = told(before, number);
            let new = told(after, number);
            &&& before.inode(number) is None ==> result == Err::<Option<PreparedView>, FuseError>(
                FuseError::Errno(Errno::ENOENT),
            )
            &&& before.inode(number) is Some && old.kind != StoredNodeKind::RegularFile ==> result
                == Err::<Option<PreparedView>, FuseError>(FuseError::Errno(Errno::EISDIR))
            &&& before.inode(number) is Some && old.kind == StoredNodeKind::RegularFile && !truncate
                ==> result == Ok::<Option<PreparedView>, FuseError>(None)
            &&& result is Ok && truncate ==> {
                &&& after.inode(number) is Some
                &&& new.size == 0
                &&& same_node(old, new)
                &&& new.atime == old.atime
                &&& new.uid == old.uid
                &&& new.gid == old.gid
                &&& new.perm == old.perm
                &&& new.nlink == old.nlink
                &&& old.size > 0 ==> result->Ok_0 is Some && new.mtime == now && new.ctime == now
                &&& old.size == 0 ==> result->Ok_0 is None
            }
        }),
{
    let result = open_commit(storage, number, truncate, now, created_at);
    let before = storage.namespace();
    if before.inode(number) is Some && before.inode(number)->0.kind == StoredNodeKind::RegularFile
        && truncate && before.inode(number)->0.size != 0 && result is Ok {
        lemma_truncation_stored(
            storage,
            number,
            before.inode(number)->0.touched(now),
            0,
            created_at,
        );
    }
}

proof fn lemma_truncation_stored(
    storage: StorageView,
    number: u64,
    inode: InodeView,
    size: u64,
    created_at: time::UtcDateTime,
)
    requires
        inode.size != size,
        resize_commit(storage, number, inode, size, created_at) is Ok,
    ensures
        ({
            let made = (resize_commit(storage, number, inode, size, created_at)->Ok_0).1;
            let stored = storage.after(made->0).namespace().inode(number);
            &&& made is Some
            &&& stored is Some
            &&& stored->0 == (InodeView {
                size,
                content_manifest_identifier: stored->0.content_manifest_identifier,
                ..inode
            })
        }),
{
    let content = crate::writes::resize_change(
        storage.image,
        storage.namespace(),
        storage.write,
        number,
        inode,
        size,
        created_at,
    )->Ok_0->0;
    let made = (resize_commit(storage, number, inode, size, created_at)->Ok_0).1->0;
    lemma_content_stored(storage, number, content, made, number);
}

/// What is answered after an extended attribute was set: the inode was changed now and is otherwise what
/// it was, the attribute has the value, and no other attribute, name or inode changes.
pub proof fn lemma_attribute_is_answered(
    before: Namespace,
    write: WriteState,
    number: u64,
    name: Seq<u8>,
    value: Seq<u8>,
    flags: i32,
    now: StoredTime,
    created_at: time::UtcDateTime,
    change: ChangeView,
    other: u64,
    other_name: Seq<u8>,
)
    requires
        attribute_setting(before, write, number, name, value, flags, now, created_at) == Ok::<
            Option<ChangeView>,
            FuseError,
        >(Some(change)),
    ensures
        ({
            let after = before.after(change.mutation);
            &&& after.inode(number) is Some
            &&& told(after, number) == (FileAttr { ctime: now, ..told(before, number) })
            &&& after.inode(number)->0.content_manifest_identifier == before.inode(
                number,
            )->0.content_manifest_identifier
            &&& after.attribute(number, name) == Some(value)
            &&& (other, other_name) != (number, name) ==> after.attribute(other, other_name)
                == before.attribute(other, other_name)
            &&& after.entries == before.entries
            &&& other != number ==> after.inode(other) == before.inode(other)
        }),
{
    let mutation = change.mutation;
    reveal_with_fuel(last_put, 3);
    lemma_inode_after_agrees(before, mutation, number);
    lemma_inode_after_agrees(before, mutation, other);
    lemma_attribute_is_read_back(
        before,
        write,
        number,
        name,
        value,
        flags,
        now,
        created_at,
        Some(change),
        other,
        other_name,
    );
}

/// What is answered after an extended attribute was removed: the inode was changed now and is otherwise
/// what it was, the attribute is gone, and no other attribute, name or inode changes.
pub proof fn lemma_attribute_removal_is_answered(
    before: Namespace,
    write: WriteState,
    number: u64,
    name: Seq<u8>,
    now: StoredTime,
    created_at: time::UtcDateTime,
    change: ChangeView,
    other: u64,
    other_name: Seq<u8>,
)
    requires
        attribute_removal(before, write, number, name, now, created_at) == Ok::<
            ChangeView,
            FuseError,
        >(change),
    ensures
        ({
            let after = before.after(change.mutation);
            &&& after.inode(number) is Some
            &&& told(after, number) == (FileAttr { ctime: now, ..told(before, number) })
            &&& after.inode(number)->0.content_manifest_identifier == before.inode(
                number,
            )->0.content_manifest_identifier
            &&& after.attribute(number, name) is None
            &&& (other, other_name) != (number, name) ==> after.attribute(other, other_name)
                == before.attribute(other, other_name)
            &&& after.entries == before.entries
            &&& other != number ==> after.inode(other) == before.inode(other)
        }),
{
    let mutation = change.mutation;
    reveal_with_fuel(last_put, 3);
    lemma_inode_after_agrees(before, mutation, number);
    lemma_inode_after_agrees(before, mutation, other);
    lemma_removed_attribute_is_gone(
        before,
        write,
        number,
        name,
        now,
        created_at,
        change,
        other,
        other_name,
    );
}

} // verus!
