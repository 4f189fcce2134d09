//! When operations are refused, and with which error: first what is wrong with what was named, then
//! what stands in the way. What nothing stands in the way of succeeds.

use vstd::prelude::*;

use crate::bytes::has_prefix;
use crate::changes::{
    attribute_outcome, attribute_removal, attribute_setting, entry_removal, link_creation,
    node_creation, rename_change, symlink_creation, AttributeOutcome, ChangeView, InodeChange,
};
use crate::database::{Image, WriteState};
use crate::error::{Errno, FuseError};
use crate::inode::{
    attribute_name_error, change_permitted, name_error, special_kind, CreateNodeKind,
    CreateNodeMetadata, SetattrMetadata, StoredNodeKind, StoredTime,
};
use crate::namespace::{child_path, lies_below, Namespace};
use crate::storage::{directory_listing, read_result};
use crate::writes::{write_change, ContentChange};

verus! {

/// An inode is a directory.
pub open spec fn is_directory(namespace: Namespace, number: u64) -> bool {
    namespace.inode(number) is Some && namespace.inode(number)->0.kind == StoredNodeKind::Directory
}

/// A name is accepted exactly when it has one to two hundred and fifty-five bytes of UTF-8, none of
/// them a slash, and is neither a single nor a double dot. An empty one is answered as not found, a
/// longer one as too long, and every other as invalid.
pub proof fn lemma_names_accepted(name: Seq<u8>)
    ensures
        name_error(name) is None <==> 1 <= name.len() <= 255 && vstd::utf8::valid_utf8(name)
            && !name.contains(47) && name != seq![46u8] && name != seq![46u8, 46u8],
        name_error(name) == Some(FuseError::Errno(Errno::ENOENT)) <==> name.len() == 0,
        name_error(name) == Some(FuseError::Errno(Errno::ENAMETOOLONG)) <==> name.len() > 255,
        name_error(name) is Some && 1 <= name.len() <= 255 ==> name_error(name) == Some(
            FuseError::Errno(Errno::EINVAL),
        ),
{
}

/// The name of an extended attribute is accepted exactly when it has at most two hundred and fifty-five
/// bytes of UTF-8, starts with `user.` and holds no zero.
pub proof fn lemma_attribute_names_accepted(name: Seq<u8>)
    ensures
        attribute_name_error(name) is None <==> name.len() <= 255 && vstd::utf8::valid_utf8(name)
            && !name.contains(0) && has_prefix(name, seq![117u8, 115, 101, 114, 46]),
        name.len() == 0 ==> attribute_name_error(name) == Some(FuseError::Errno(Errno::EINVAL)),
        name.len() > 255 ==> attribute_name_error(name) == Some(FuseError::Errno(Errno::ERANGE)),
        1 <= name.len() <= 255 && name.contains(0) ==> attribute_name_error(name) == Some(
            FuseError::Errno(Errno::EINVAL),
        ),
        1 <= name.len() <= 255 && !name.contains(0) && attribute_name_error(name) is Some
            ==> attribute_name_error(name) == Some(FuseError::Errno(Errno::ENOTSUP)),
{
    assert(crate::inode::user_prefix() == seq![117u8, 115, 101, 114, 46]);
}

/// A node can be created in a directory under a name that is accepted and not taken. A directory that is
/// not there, or is none, is answered as such, a taken name as taken, and a mode of no known format as
/// invalid. Nothing else stands in the way while there are numbers and sequences left and the path can
/// be told.
#[verifier::spinoff_prover]
pub proof fn lemma_creation_refused(
    namespace: Namespace,
    write: WriteState,
    parent: u64,
    name: Seq<u8>,
    kind: CreateNodeKind,
    metadata: CreateNodeMetadata,
    now: StoredTime,
    created_at: time::UtcDateTime,
)
    ensures
        ({
            let result = node_creation(
                namespace,
                write,
                parent,
                name,
                kind,
                metadata,
                now,
                created_at,
            );
            let room = 2 <= write.next_inode_number < u64::MAX && namespace.inode(
                write.next_inode_number,
            ) is None && write.last_event_sequence < u64::MAX && child_path(
                namespace,
                parent,
                name,
            ) is Ok;
            &&& namespace.inode(parent) is None ==> result == Err::<InodeChange, FuseError>(
                FuseError::Errno(Errno::ENOENT),
            )
            &&& namespace.inode(parent) is Some && !is_directory(namespace, parent) ==> result
                == Err::<InodeChange, FuseError>(FuseError::Errno(Errno::ENOTDIR))
            &&& is_directory(namespace, parent) && name_error(name) is Some ==> result == Err::<
                InodeChange,
                FuseError,
            >(name_error(name)->0)
            &&& is_directory(namespace, parent) && name_error(name) is None && namespace.entry(
                parent,
                name,
            ) is Some ==> result == Err::<InodeChange, FuseError>(FuseError::Errno(Errno::EEXIST))
            &&& result is Ok ==> is_directory(namespace, parent) && name_error(name) is None
                && namespace.entry(parent, name) is None && room
            &&& is_directory(namespace, parent) && name_error(name) is None && namespace.entry(
                parent,
                name,
            ) is None && room ==> (result is Ok <==> !(kind matches CreateNodeKind::Special {
                mode,
                ..
            } && special_kind(mode) is None))
            &&& is_directory(namespace, parent) && name_error(name) is None && namespace.entry(
                parent,
                name,
            ) is None && write.next_inode_number == u64::MAX ==> result == Err::<
                InodeChange,
                FuseError,
            >(FuseError::Errno(Errno::ENOSPC))
            &&& result is Ok ==> result->Ok_0.number == write.next_inode_number
                && result->Ok_0.change.next_inode_number == Some(
                (write.next_inode_number + 1) as u64,
            )
        }),
{
}

/// A symbolic link can be created wherever a node can.
pub proof fn lemma_symlink_refused(
    namespace: Namespace,
    write: WriteState,
    parent: u64,
    name: Seq<u8>,
    target: Seq<u8>,
    metadata: CreateNodeMetadata,
    now: StoredTime,
    created_at: time::UtcDateTime,
)
    ensures
        ({
            let result = symlink_creation(
                namespace,
                write,
                parent,
                name,
                target,
                metadata,
                now,
                created_at,
            );
            let other = node_creation(
                namespace,
                write,
                parent,
                name,
                CreateNodeKind::RegularFile,
                metadata,
                now,
                created_at,
            );
            &&& result is Ok <==> other is Ok
            &&& result is Err ==> result->Err_0 == other->Err_0
            &&& result is Ok ==> result->Ok_0.number == other->Ok_0.number
                && result->Ok_0.change.next_inode_number == other->Ok_0.change.next_inode_number
        }),
{
}

/// Everything but a directory can be linked into a directory under a name that is accepted and not
/// taken.
pub proof fn lemma_link_refused(
    namespace: Namespace,
    write: WriteState,
    number: u64,
    new_parent: u64,
    new_name: Seq<u8>,
    now: StoredTime,
    created_at: time::UtcDateTime,
)
    ensures
        ({
            let result = link_creation(
                namespace,
                write,
                number,
                new_parent,
                new_name,
                now,
                created_at,
            );
            let file = namespace.inode(number) is Some && !is_directory(namespace, number);
            &&& namespace.inode(number) is None ==> result == Err::<InodeChange, FuseError>(
                FuseError::Errno(Errno::ENOENT),
            )
            &&& is_directory(namespace, number) ==> result == Err::<InodeChange, FuseError>(
                FuseError::Errno(Errno::EPERM),
            )
            &&& file && namespace.inode(new_parent) is None ==> result == Err::<
                InodeChange,
                FuseError,
            >(FuseError::Errno(Errno::ENOENT))
            &&& file && namespace.inode(new_parent) is Some && !is_directory(namespace, new_parent)
                ==> result == Err::<InodeChange, FuseError>(FuseError::Errno(Errno::ENOTDIR))
            &&& file && is_directory(namespace, new_parent) && name_error(new_name) is Some
                ==> result == Err::<InodeChange, FuseError>(name_error(new_name)->0)
            &&& file && is_directory(namespace, new_parent) && name_error(new_name) is None
                && namespace.entry(new_parent, new_name) is Some ==> result == Err::<
                InodeChange,
                FuseError,
            >(FuseError::Errno(Errno::EEXIST))
            &&& result is Ok <==> file && is_directory(namespace, new_parent) && name_error(
                new_name,
            ) is None && namespace.entry(new_parent, new_name) is None
                && write.last_event_sequence < u64::MAX && child_path(
                namespace,
                new_parent,
                new_name,
            ) is Ok
        }),
{
}

/// A name can be removed where it stands for something: as a directory where that is an empty one, else
/// where it is none.
#[verifier::spinoff_prover]
pub proof fn lemma_removal_refused(
    namespace: Namespace,
    write: WriteState,
    parent: u64,
    name: Seq<u8>,
    directory: bool,
    now: StoredTime,
    created_at: time::UtcDateTime,
)
    ensures
        ({
            let result = entry_removal(
                namespace,
                write,
                parent,
                name,
                directory,
                now,
                created_at,
            );
            let entry = namespace.entry(parent, name);
            let number = entry->0.inode;
            let found = name_error(name) is None && is_directory(namespace, parent) && entry is Some
                && namespace.inode(number) is Some;
            &&& name_error(name) is Some ==> result == Err::<ChangeView, FuseError>(
                name_error(name)->0,
            )
            &&& name_error(name) is None && namespace.inode(parent) is None ==> result == Err::<
                ChangeView,
                FuseError,
            >(FuseError::Errno(Errno::ENOENT))
            &&& name_error(name) is None && namespace.inode(parent) is Some && !is_directory(
                namespace,
                parent,
            ) ==> result == Err::<ChangeView, FuseError>(FuseError::Errno(Errno::ENOTDIR))
            &&& name_error(name) is None && is_directory(namespace, parent) && entry is None
                ==> result == Err::<ChangeView, FuseError>(FuseError::Errno(Errno::ENOENT))
            &&& found && directory && !is_directory(namespace, number) ==> result == Err::<
                ChangeView,
                FuseError,
            >(FuseError::Errno(Errno::ENOTDIR))
            &&& found && !directory && is_directory(namespace, number) ==> result == Err::<
                ChangeView,
                FuseError,
            >(FuseError::Errno(Errno::EISDIR))
            &&& found && directory && is_directory(namespace, number) && (exists|inside: Seq<u8>|
                (#[trigger] namespace.entry(number, inside)) is Some) ==> result == Err::<
                ChangeView,
                FuseError,
            >(FuseError::Errno(Errno::ENOTEMPTY))
            &&& result is Ok ==> found && (directory <==> is_directory(namespace, number))
            &&& found && (directory <==> is_directory(namespace, number)) && (directory ==> forall|
                inside: Seq<u8>,
            | (#[trigger] namespace.entry(number, inside)) is None) && write.last_event_sequence
                < u64::MAX && child_path(namespace, parent, name) is Ok ==> result is Ok
        }),
{
    let number = namespace.entry(parent, name)->0.inode;
    if exists|inside: Seq<u8>| (#[trigger] namespace.entry(number, inside)) is Some {
        let inside = choose|inside: Seq<u8>|
            (#[trigger] namespace.entry(number, inside)) is Some;
        assert(namespace.entries.contains_key(crate::keys::named_key(number, inside)));
        assert(!namespace.empty_directory(number));
    }
    if forall|inside: Seq<u8>| (#[trigger] namespace.entry(number, inside)) is None {
        assert(namespace.empty_directory(number)) by {
            assert forall|inside: Seq<u8>|
                !(#[trigger] namespace.entries.contains_key(
                    crate::keys::named_key(number, inside),
                )) by {
                assert(namespace.entry(number, inside) is None);
            }
        }
    }
}

/// A name can be moved to another place: not a directory below itself, not over anything where that is
/// forbidden, a directory over nothing but an empty directory, and anything else over no directory.
#[verifier::spinoff_prover]
pub proof fn lemma_rename_refused(
    namespace: Namespace,
    write: WriteState,
    parent: u64,
    name: Seq<u8>,
    new_parent: u64,
    new_name: Seq<u8>,
    no_replace: bool,
    now: StoredTime,
    created_at: time::UtcDateTime,
)
    ensures
        ({
            let result = rename_change(
                namespace,
                write,
                parent,
                name,
                new_parent,
                new_name,
                no_replace,
                now,
                created_at,
            );
            let entry = namespace.entry(parent, name);
            let target = namespace.entry(new_parent, new_name);
            let named = name_error(name) is None && name_error(new_name) is None;
            let placed = named && is_directory(namespace, parent) && is_directory(
                namespace,
                new_parent,
            );
            let found = placed && entry is Some && namespace.inode(entry->0.inode) is Some;
            let directory = entry->0.kind == StoredNodeKind::Directory;
            let below = lies_below(namespace, entry->0.inode, new_parent, 1024);
            let apart = found && (!directory || below == Ok::<bool, FuseError>(false));
            let room = write.last_event_sequence < u64::MAX && child_path(
                namespace,
                new_parent,
                new_name,
            ) is Ok;
            let replaces = target is Some && target->0.inode != entry->0.inode;
            let over = target->0.inode;
            &&& name_error(name) is Some ==> result == Err::<ChangeView, FuseError>(
                name_error(name)->0,
            )
            &&& name_error(name) is None && name_error(new_name) is Some ==> result == Err::<
                ChangeView,
                FuseError,
            >(name_error(new_name)->0)
            &&& named && namespace.inode(parent) is None ==> result == Err::<ChangeView, FuseError>(
                FuseError::Errno(Errno::ENOENT),
            )
            &&& named && namespace.inode(parent) is Some && !is_directory(namespace, parent)
                ==> result == Err::<ChangeView, FuseError>(FuseError::Errno(Errno::ENOTDIR))
            &&& named && is_directory(namespace, parent) && namespace.inode(new_parent) is None
                ==> result == Err::<ChangeView, FuseError>(FuseError::Errno(Errno::ENOENT))
            &&& named && is_directory(namespace, parent) && namespace.inode(new_parent) is Some
                && !is_directory(namespace, new_parent) ==> result == Err::<ChangeView, FuseError>(
                FuseError::Errno(Errno::ENOTDIR),
            )
            &&& placed && entry is None ==> result == Err::<ChangeView, FuseError>(
                FuseError::Errno(Errno::ENOENT),
            )
            &&& found && directory && below == Ok::<bool, FuseError>(true) ==> result == Err::<
                ChangeView,
                FuseError,
            >(FuseError::Errno(Errno::EINVAL))
            &&& apart && no_replace && target is Some ==> result == Err::<ChangeView, FuseError>(
                FuseError::Errno(Errno::EEXIST),
            )
            &&& apart && room && !no_replace && replaces && !directory && is_directory(
                namespace,
                over,
            ) ==> result == Err::<ChangeView, FuseError>(FuseError::Errno(Errno::EISDIR))
            &&& apart && room && !no_replace && replaces && directory && namespace.inode(
                over,
            ) is Some && !is_directory(namespace, over) ==> result == Err::<ChangeView, FuseError>(
                FuseError::Errno(Errno::ENOTDIR),
            )
            &&& apart && room && !no_replace && replaces && directory && is_directory(
                namespace,
                over,
            ) && (exists|inside: Seq<u8>| (#[trigger] namespace.entry(over, inside)) is Some)
                ==> result == Err::<ChangeView, FuseError>(FuseError::Errno(Errno::ENOTEMPTY))
            &&& result is Ok ==> apart && room && !(no_replace && target is Some)
            &&& apart && room && (target is None || (!no_replace && !replaces)) ==> result is Ok
            &&& apart && room && !no_replace && replaces && !directory && namespace.inode(
                over,
            ) is Some && !is_directory(namespace, over) ==> result is Ok
            &&& apart && room && !no_replace && replaces && directory && is_directory(
                namespace,
                over,
            ) && (forall|inside: Seq<u8>| (#[trigger] namespace.entry(over, inside)) is None)
                ==> result is Ok
        }),
{
    let over = namespace.entry(new_parent, new_name)->0.inode;
    if exists|inside: Seq<u8>| (#[trigger] namespace.entry(over, inside)) is Some {
        let inside = choose|inside: Seq<u8>| (#[trigger] namespace.entry(over, inside)) is Some;
        assert(namespace.entries.contains_key(crate::keys::named_key(over, inside)));
        assert(!namespace.empty_directory(over));
    }
    if forall|inside: Seq<u8>| (#[trigger] namespace.entry(over, inside)) is None {
        assert(namespace.empty_directory(over)) by {
            assert forall|inside: Seq<u8>|
                !(#[trigger] namespace.entries.contains_key(
                    crate::keys::named_key(over, inside),
                )) by {
                assert(namespace.entry(over, inside) is None);
            }
        }
    }
    assert(crate::namespace::PATH_STEPS == 1024);
}

/// Attributes can be changed by those who may, and the size of nothing but a regular file.
pub proof fn lemma_attributes_refused(
    namespace: Namespace,
    write: WriteState,
    number: u64,
    metadata: SetattrMetadata,
    now: StoredTime,
    created_at: time::UtcDateTime,
)
    ensures
        ({
            let result = attribute_outcome(namespace, write, number, metadata, now, created_at);
            let inode = namespace.inode(number)->0;
            let resized = metadata.size is Some && metadata.size->0 != inode.size;
            &&& namespace.inode(number) is None ==> result == Err::<AttributeOutcome, FuseError>(
                FuseError::Errno(Errno::ENOENT),
            )
            &&& namespace.inode(number) is Some && !change_permitted(inode, metadata) ==> result
                == Err::<AttributeOutcome, FuseError>(FuseError::Errno(Errno::EPERM))
            &&& namespace.inode(number) is Some && change_permitted(inode, metadata) && resized
                && inode.kind != StoredNodeKind::RegularFile ==> result == Err::<
                AttributeOutcome,
                FuseError,
            >(FuseError::Errno(Errno::EINVAL))
            &&& namespace.inode(number) is Some && change_permitted(inode, metadata) && (resized
                ==> inode.kind == StoredNodeKind::RegularFile) && write.last_event_sequence
                < u64::MAX ==> result is Ok
        }),
{
}

/// An extended attribute can be set on a file or a directory under a name that is accepted, with a value
/// of up to sixty-four kibibytes. The first flag asks for a new one, the second for one that is there;
/// both together and any other are invalid.
pub proof fn lemma_attribute_refused(
    namespace: Namespace,
    write: WriteState,
    number: u64,
    name: Seq<u8>,
    value: Seq<u8>,
    flags: i32,
    now: StoredTime,
    created_at: time::UtcDateTime,
)
    ensures
        ({
            let result = attribute_setting(
                namespace,
                write,
                number,
                name,
                value,
                flags,
                now,
                created_at,
            );
            let kind = namespace.inode(number)->0.kind;
            let can = namespace.inode(number) is Some && (kind == StoredNodeKind::Directory || kind
                == StoredNodeKind::RegularFile);
            let fits = can && attribute_name_error(name) is None && value.len() <= 65536;
            let there = namespace.attribute(number, name) is Some;
            &&& namespace.inode(number) is None ==> result == Err::<Option<ChangeView>, FuseError>(
                FuseError::Errno(Errno::ENOENT),
            )
            &&& namespace.inode(number) is Some && !can ==> result == Err::<
                Option<ChangeView>,
                FuseError,
            >(FuseError::Errno(Errno::ENOTSUP))
            &&& can && attribute_name_error(name) is Some ==> result == Err::<
                Option<ChangeView>,
                FuseError,
            >(attribute_name_error(name)->0)
            &&& can && attribute_name_error(name) is None && value.len() > 65536 ==> result == Err::<
                Option<ChangeView>,
                FuseError,
            >(FuseError::Errno(Errno::ERANGE))
            &&& fits && (flags < 0 || flags > 2) ==> result == Err::<Option<ChangeView>, FuseError>(
                FuseError::Errno(Errno::EINVAL),
            )
            &&& fits && flags == 1 && there ==> result == Err::<Option<ChangeView>, FuseError>(
                FuseError::Errno(Errno::EEXIST),
            )
            &&& fits && flags == 2 && !there ==> result == Err::<Option<ChangeView>, FuseError>(
                FuseError::Errno(Errno::NO_XATTR),
            )
            &&& fits && (flags == 0 || flags == 1 && !there || flags == 2 && there)
                && write.last_event_sequence < u64::MAX ==> result is Ok
            &&& result is Ok ==> (result->Ok_0 is None <==> namespace.attribute(number, name)
                == Some(value))
        }),
{
    assert(flags & !(1i32 | 2i32) != 0 || (flags & 1 != 0 && flags & 2 != 0) <==> flags < 0 || flags
        > 2) by (bit_vector);
    assert(0i32 & 1 == 0 && 0i32 & 2 == 0 && 1i32 & 1 != 0 && 1i32 & 2 == 0 && 2i32 & 1 == 0 && 2i32
        & 2 != 0) by (bit_vector);
}

/// An extended attribute can be removed where it is.
pub proof fn lemma_attribute_removal_refused(
    namespace: Namespace,
    write: WriteState,
    number: u64,
    name: Seq<u8>,
    now: StoredTime,
    created_at: time::UtcDateTime,
)
    ensures
        ({
            let result = attribute_removal(namespace, write, number, name, now, created_at);
            let kind = namespace.inode(number)->0.kind;
            let can = namespace.inode(number) is Some && (kind == StoredNodeKind::Directory || kind
                == StoredNodeKind::RegularFile);
            &&& namespace.inode(number) is None ==> result == Err::<ChangeView, FuseError>(
                FuseError::Errno(Errno::ENOENT),
            )
            &&& namespace.inode(number) is Some && !can ==> result == Err::<ChangeView, FuseError>(
                FuseError::Errno(Errno::ENOTSUP),
            )
            &&& can && attribute_name_error(name) is Some ==> result == Err::<
                ChangeView,
                FuseError,
            >(attribute_name_error(name)->0)
            &&& can && attribute_name_error(name) is None && namespace.attribute(number, name) is None
                ==> result == Err::<ChangeView, FuseError>(FuseError::Errno(Errno::NO_XATTR))
            &&& can && attribute_name_error(name) is None && namespace.attribute(number, name) is Some
                && write.last_event_sequence < u64::MAX ==> result is Ok
        }),
{
}

/// Only regular files are read and written. Nothing is read at or past the end, and otherwise as many
/// bytes as are asked for or left; a write past the largest offset is answered as too large.
pub proof fn lemma_contents_refused(
    image: Image,
    namespace: Namespace,
    write: WriteState,
    number: u64,
    offset: u64,
    size: u32,
    data: Seq<u8>,
    append: bool,
    clear_privileges: bool,
    now: StoredTime,
    created_at: time::UtcDateTime,
)
    ensures
        ({
            let read = read_result(image, namespace, number, offset, size);
            let written = write_change(
                image,
                namespace,
                write,
                number,
                offset,
                data,
                append,
                clear_privileges,
                now,
                created_at,
            );
            let inode = namespace.inode(number)->0;
            let file = namespace.inode(number) is Some && inode.kind == StoredNodeKind::RegularFile;
            let start = if append {
                inode.size
            } else {
                offset
            };
            &&& namespace.inode(number) is None ==> read == Err::<Seq<u8>, FuseError>(
                FuseError::Errno(Errno::ENOENT),
            )
            &&& namespace.inode(number) is None ==> written == Err::<ContentChange, FuseError>(
                FuseError::Errno(Errno::ENOENT),
            )
            &&& namespace.inode(number) is Some && !file ==> read == Err::<Seq<u8>, FuseError>(
                FuseError::Errno(Errno::EISDIR),
            )
            &&& namespace.inode(number) is Some && !file ==> written == Err::<
                ContentChange,
                FuseError,
            >(FuseError::Errno(Errno::EISDIR))
            &&& file && offset >= inode.size ==> read == Ok::<Seq<u8>, FuseError>(Seq::empty())
            &&& file && size == 0 ==> read == Ok::<Seq<u8>, FuseError>(Seq::empty())
            &&& file && offset < inode.size && read is Ok ==> read->Ok_0.len() == (if offset + size
                <= inode.size {
                size as int
            } else {
                inode.size - offset
            })
            &&& file && start + data.len() > u64::MAX ==> written == Err::<
                ContentChange,
                FuseError,
            >(FuseError::Errno(Errno::EFBIG))
        }),
{
}

/// Only directories are listed.
pub proof fn lemma_listing_refused(namespace: Namespace, number: u64, offset: u64)
    ensures
        directory_listing(namespace, number, offset) is Ok <==> is_directory(namespace, number),
        namespace.inode(number) is None ==> directory_listing(namespace, number, offset) == Err::<
            Seq<crate::storage::EntryView>,
            FuseError,
        >(FuseError::Errno(Errno::ENOENT)),
        namespace.inode(number) is Some && !is_directory(namespace, number) ==> directory_listing(
            namespace,
            number,
            offset,
        ) == Err::<Seq<crate::storage::EntryView>, FuseError>(FuseError::Errno(Errno::ENOTDIR)),
{
}

} // verus!
