//! What is answered about directories, extended attributes and the filesystem as a whole.

use vstd::prelude::*;

use crate::attributes::{lemma_attribute_is_answered, lemma_attribute_removal_is_answered, told};
use crate::changes::{
    attribute_removal, attribute_setting, symlink_creation, ChangeView, InodeChange,
};
use crate::database::WriteState;
use crate::error::{Errno, FuseError};
use crate::filesystem::{BranchStatus, EventKind};
use crate::history::clipped;
use crate::inode::{
    reported_statistics, BackingFileSystemStatistics, CreateNodeMetadata, InodeView, StoredNodeKind,
    StoredTime, INODE_ROOT,
};
use crate::keys::{lemma_u64_key_injective, named_key};
use crate::namespace::{lists_names, names_of, Namespace};
use crate::naming::lemma_symlink_is_found;
use crate::opening::{initial_branch, initial_event, initial_namespace, root_directory};
use crate::permissions::{
    lemma_group_access, lemma_other_access, lemma_owner_access, lemma_root_may_access,
};
use crate::storage::{
    access_answer, attribute_answer, attribute_list, attribute_names_answer, attributes_answer,
    lookup_answer, target_answer, with_inodes, EntrySnapshot, EntryView,
};

verus! {

/// A listing with attributes has the entries of the listing without, in order, each with its inode,
/// offset and name and with what is answered about the inode, up to the first whose inode is missing.
pub proof fn lemma_listing_with_attributes(namespace: Namespace, entries: Seq<EntryView>)
    ensures
        ({
            let all = with_inodes(namespace, entries);
            &&& all.len() <= entries.len()
            &&& forall|i: int|
                0 <= i < all.len() ==> {
                    &&& (#[trigger] all[i]).inode == entries[i].inode
                    &&& all[i].offset == entries[i].offset
                    &&& all[i].name == entries[i].name
                    &&& namespace.inode(entries[i].inode) is Some
                    &&& all[i].entry.attr == told(namespace, entries[i].inode)
                    &&& all[i].entry.ttl_seconds == 1
                }
            &&& all.len() < entries.len() ==> namespace.inode(entries[all.len() as int].inode) is None
        }),
    decreases entries.len(),
{
    if entries.len() > 0 {
        lemma_listing_with_attributes(namespace, entries.drop_last());
    }
}

/// The list of attribute names holds every name followed by a zero, one after the other: behind the
/// first names comes the next one.
pub proof fn lemma_attribute_list_holds(names: Seq<Seq<u8>>, i: int)
    requires
        0 <= i < names.len(),
    ensures
        ({
            let list = attribute_list(names);
            let start = attribute_list(names.take(i)).len() as int;
            let end = start + names[i].len();
            &&& i == 0 ==> start == 0
            &&& end < list.len()
            &&& list.subrange(start, end) == names[i]
            &&& list[end] == 0
            &&& attribute_list(names.take(i + 1)).len() == end + 1
            &&& i + 1 == names.len() ==> list.len() == end + 1
        }),
    decreases names.len(),
{
    let list = attribute_list(names);
    let front = attribute_list(names.drop_last());
    assert(names.take(i + 1).drop_last() =~= names.take(i));
    if i == names.len() - 1 {
        assert(names.take(i) =~= names.drop_last());
        assert(names.take(i + 1) =~= names);
        let start = front.len() as int;
        assert(list.subrange(start, start + names[i].len()) =~= names[i]);
    } else {
        lemma_attribute_list_holds(names.drop_last(), i);
        assert(names.drop_last().take(i) =~= names.take(i));
        assert(names.drop_last().take(i + 1) =~= names.take(i + 1));
        let start = attribute_list(names.take(i)).len() as int;
        let end = start + names[i].len();
        assert(list.subrange(start, end) =~= front.subrange(start, end));
    }
}

/// The statistics tell the blocks of the backing filesystem, and as many free files as there are
/// numbers left: one fewer for each number that was given.
pub proof fn lemma_statistics_tell(backing: BackingFileSystemStatistics, next: u64)
    requires
        2 <= next,
    ensures
        ({
            let told = reported_statistics(backing, next)->Ok_0;
            &&& reported_statistics(backing, next) is Ok
            &&& told.blocks == backing.blocks
            &&& told.free_blocks == backing.free_blocks
            &&& told.available_blocks == backing.available_blocks
            &&& told.fragment_size == backing.fragment_size
            &&& told.block_size == 4096
            &&& told.maximum_name_length == 255
            &&& told.free_files + next == u64::MAX
            &&& told.free_files < told.files
            &&& next < u64::MAX ==> reported_statistics(
                backing,
                (next + 1) as u64,
            )->Ok_0.free_files + 1 == told.free_files
            &&& next == 2 ==> told.free_files + 1 == told.files
        }),
{
}

/// A range is clipped to what is there of it.
pub proof fn lemma_clipped_range(whole: u64, offset: u64, length: u64, at: u64)
    ensures
        at < clipped(whole, offset, length) <==> at < length && offset + at < whole,
{
}

/// A new filesystem holds nothing but its root: an empty directory that everybody can enter and read and
/// its owner write.
pub proof fn lemma_new_root_is_answered(uid: u32, gid: u32, now: StoredTime, number: u64, name: Seq<u8>)
    ensures
        ({
            let namespace = initial_namespace(root_directory(uid, gid, now));
            let root = told(namespace, 1);
            &&& namespace.inode(1) is Some
            &&& number != 1 ==> namespace.inode(number) is None
            &&& namespace.entry(number, name) is None
            &&& namespace.attribute(number, name) is None
            &&& root.kind == StoredNodeKind::Directory
            &&& root.perm == 0o755
            &&& root.nlink == 2
            &&& root.uid == uid
            &&& root.gid == gid
            &&& root.size == 0
            &&& root.rdev == 0
            &&& root.atime == now
            &&& root.mtime == now
            &&& root.ctime == now
        }),
{
    assert(INODE_ROOT == 1);
    if number != 1 {
        lemma_u64_key_injective(number, INODE_ROOT);
    }
}

/// A new filesystem has one branch, with the number one and the name main, which is open and stands on
/// its first event; that event has the sequence zero, tells that the filesystem was set up, and is about
/// no file.
pub proof fn lemma_new_branch_is_main(
    identifier: Seq<u8>,
    root: InodeView,
    created_at: time::UtcDateTime,
)
    ensures
        ({
            let branch = initial_branch(identifier);
            let event = initial_event(root, created_at).record;
            &&& branch.identifier == 1
            &&& branch.name == "main"@
            &&& branch.status == BranchStatus::Open
            &&& branch.head_sequence == 0
            &&& branch.head_ordinal == 0
            &&& branch.namespace_identifier == identifier
            &&& branch.fork_branch_identifier is None
            &&& branch.fork_ordinal is None
            &&& event.sequence.0 == 0
            &&& event.kind == EventKind::FilesystemInitialized
            &&& event.created_at == created_at
            &&& event.file_identifier is None
            &&& event.path is None
            &&& event.branch_position is Some
            &&& event.branch_position->0.branch_identifier.0 == 1
            &&& event.branch_position->0.ordinal == 0
        }),
{
}

/// A name is answered with the attributes of what it stands for, and a name or number that is not there
/// as not found.
pub proof fn lemma_lookup_is_answered(namespace: Namespace, parent: u64, name: Seq<u8>, number: u64)
    ensures
        namespace.entry(parent, name) is None ==> lookup_answer(namespace, parent, name) == Err::<
            EntrySnapshot,
            FuseError,
        >(FuseError::Errno(Errno::ENOENT)),
        namespace.entry(parent, name) is Some ==> lookup_answer(namespace, parent, name)
            == attributes_answer(namespace, namespace.entry(parent, name)->0.inode),
        namespace.inode(number) is None ==> attributes_answer(namespace, number) == Err::<
            EntrySnapshot,
            FuseError,
        >(FuseError::Errno(Errno::ENOENT)),
        namespace.inode(number) is Some ==> {
            let inode = namespace.inode(number)->0;
            let attr = attributes_answer(namespace, number)->Ok_0.attr;
            &&& attributes_answer(namespace, number) is Ok
            &&& attr.ino == number
            &&& attr.kind == inode.kind
            &&& attr.size == inode.size
            &&& attr.perm == inode.mode
            &&& attr.nlink == inode.nlink
            &&& attr.uid == inode.uid
            &&& attr.gid == inode.gid
            &&& attr.rdev == inode.rdev
            &&& attr.atime == inode.atime
            &&& attr.mtime == inode.mtime
            &&& attr.ctime == inode.ctime
        },
{
}

/// Access is answered by the bits of the permissions that are told: root and who asks for nothing get
/// it, the owner goes by the first three bits, the group by the next and others by the last. Access that
/// is not given is denied.
pub proof fn lemma_access_is_answered(
    namespace: Namespace,
    number: u64,
    uid: u32,
    gid: u32,
    mask: i32,
)
    requires
        namespace.inode(number) is Some,
    ensures
        ({
            let told = told(namespace, number);
            let owner = uid == told.uid;
            let group = !owner && gid == told.gid;
            let other = !owner && gid != told.gid;
            let read = access_answer(namespace, number, uid, gid, 4);
            let write = access_answer(namespace, number, uid, gid, 2);
            let execute = access_answer(namespace, number, uid, gid, 1);
            let any = access_answer(namespace, number, uid, gid, mask);
            &&& uid == 0 || mask == 0 ==> any is Ok
            &&& uid != 0 && owner ==> {
                &&& read is Ok <==> told.perm & 0o400 != 0
                &&& write is Ok <==> told.perm & 0o200 != 0
                &&& execute is Ok <==> told.perm & 0o100 != 0
            }
            &&& uid != 0 && group ==> {
                &&& read is Ok <==> told.perm & 0o040 != 0
                &&& write is Ok <==> told.perm & 0o020 != 0
                &&& execute is Ok <==> told.perm & 0o010 != 0
            }
            &&& uid != 0 && other ==> {
                &&& read is Ok <==> told.perm & 0o004 != 0
                &&& write is Ok <==> told.perm & 0o002 != 0
                &&& execute is Ok <==> told.perm & 0o001 != 0
            }
            &&& uid != 0 && mask != 0 ==> (any is Ok <==> (mask & 4 != 0 ==> read is Ok) && (mask
                & 2 != 0 ==> write is Ok) && (mask & 1 != 0 ==> execute is Ok))
            &&& any is Err ==> any == Err::<(), FuseError>(FuseError::Errno(Errno::EACCES))
        }),
{
    let inode = namespace.inode(number)->0;
    if uid == 0 || mask == 0 {
        lemma_root_may_access(inode, uid, gid, mask);
    }
    if uid != 0 {
        if uid == inode.uid {
            lemma_owner_access(inode, uid, gid, mask);
        } else if gid == inode.gid {
            lemma_group_access(inode, uid, gid, mask);
        } else {
            lemma_other_access(inode, uid, gid, mask);
        }
    }
}

/// The target of a new symbolic link is the one that it was made with. Nothing else has a target.
pub proof fn lemma_target_is_answered(
    namespace: Namespace,
    write: WriteState,
    parent: u64,
    name: Seq<u8>,
    target: Seq<u8>,
    metadata: CreateNodeMetadata,
    now: StoredTime,
    created_at: time::UtcDateTime,
    created: InodeChange,
    number: u64,
)
    requires
        symlink_creation(
            namespace,
            write,
            parent,
            name,
            target,
            metadata,
            now,
            created_at,
        ) == Ok::<InodeChange, FuseError>(created),
    ensures
        target_answer(namespace.after(created.change.mutation), created.number) == Ok::<
            Seq<u8>,
            FuseError,
        >(target),
        namespace.inode(number) is Some && namespace.inode(number)->0.kind
            != StoredNodeKind::Symlink ==> target_answer(namespace, number) == Err::<
            Seq<u8>,
            FuseError,
        >(FuseError::Errno(Errno::EINVAL)),
        namespace.inode(number) is None ==> target_answer(namespace, number) == Err::<
            Seq<u8>,
            FuseError,
        >(FuseError::Errno(Errno::ENOENT)),
{
    lemma_symlink_is_found(
        namespace,
        write,
        parent,
        name,
        target,
        metadata,
        now,
        created_at,
        created,
    );
}

/// An extended attribute that was set is answered with its value.
pub proof fn lemma_attribute_value_is_answered(
    namespace: Namespace,
    write: WriteState,
    number: u64,
    name: Seq<u8>,
    value: Seq<u8>,
    flags: i32,
    now: StoredTime,
    created_at: time::UtcDateTime,
    change: ChangeView,
)
    requires
        attribute_setting(namespace, write, number, name, value, flags, now, created_at) == Ok::<
            Option<ChangeView>,
            FuseError,
        >(Some(change)),
    ensures
        attribute_answer(namespace.after(change.mutation), number, name) == Ok::<
            Seq<u8>,
            FuseError,
        >(value),
{
    lemma_attribute_is_answered(
        namespace,
        write,
        number,
        name,
        value,
        flags,
        now,
        created_at,
        change,
        number,
        name,
    );
}

/// An extended attribute that was removed is answered as missing, and so is every other that is not
/// there.
pub proof fn lemma_missing_attribute_is_answered(
    namespace: Namespace,
    write: WriteState,
    number: u64,
    name: Seq<u8>,
    now: StoredTime,
    created_at: time::UtcDateTime,
    change: ChangeView,
)
    requires
        attribute_removal(namespace, write, number, name, now, created_at) == Ok::<
            ChangeView,
            FuseError,
        >(change),
    ensures
        attribute_answer(namespace.after(change.mutation), number, name) == Err::<
            Seq<u8>,
            FuseError,
        >(FuseError::Errno(Errno::NO_XATTR)),
{
    lemma_attribute_removal_is_answered(
        namespace,
        write,
        number,
        name,
        now,
        created_at,
        change,
        number,
        name,
    );
}

/// The names of the extended attributes of a file or directory are all in the list that is answered,
/// each followed by a zero, and nothing else is: behind the first names comes the next one.
pub proof fn lemma_attribute_names_are_answered(namespace: Namespace, number: u64, i: int)
    requires
        lists_names(
            names_of(namespace.attributes, number),
            namespace.attributes,
            number,
        ),
        attribute_names_answer(namespace, number) is Ok,
    ensures
        ({
            let names = names_of(namespace.attributes, number);
            let list = attribute_names_answer(namespace, number)->Ok_0;
            let start = attribute_list(names.take(i)).len() as int;
            let end = start + names[i].len();
            &&& list.len() <= 65536
            &&& names.len() == 0 ==> list.len() == 0
            &&& 0 <= i < names.len() ==> {
                &&& end < list.len()
                &&& list.subrange(start, end) == names[i]
                &&& list[end] == 0
                &&& namespace.attribute(number, names[i]) is Some
                &&& i + 1 == names.len() ==> list.len() == end + 1
            }
            &&& forall|name: Seq<u8>|
                (#[trigger] namespace.attribute(number, name)) is Some ==> names.contains(name)
        }),
{
    let names = names_of(namespace.attributes, number);
    if 0 <= i < names.len() {
        lemma_attribute_list_holds(names, i);
        assert(namespace.attributes.contains_key(named_key(number, names[i])));
    }
    assert forall|name: Seq<u8>|
        (#[trigger] namespace.attribute(number, name)) is Some implies names.contains(name) by {
        assert(namespace.attributes.contains_key(named_key(number, name)));
    }
}

} // verus!
