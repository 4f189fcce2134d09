//! What names stand for after operations on them: what is created is found, what is removed is gone,
//! what is renamed has moved, and nothing else changes.

use vstd::prelude::*;

use crate::changes::{
    attribute_removal, attribute_setting, entry_removal, link_creation, more_links,
    new_parent_after, node_creation, old_parent_after, rename_change, rename_found,
    symlink_creation, ChangeView, InodeChange,
};
use crate::database::WriteState;
use crate::error::{Errno, FuseError};
use crate::inode::{
    CreateNodeKind, CreateNodeMetadata, InodeView, StoredDirectoryEntry, StoredNodeKind, StoredTime,
};
use crate::keys::{lemma_named_key_round_trip, named_key};
use crate::namespace::{
    last_put, lemma_inode_after_agrees, put_named, remove_attributes_of, remove_named, MutationView,
    Namespace,
};

verus! {

/// What is stored last under a number and a name.
pub open spec fn last_named<V>(
    puts: Seq<(u64, Seq<u8>, V)>,
    number: u64,
    name: Seq<u8>,
) -> Option<V>
    decreases puts.len(),
{
    if puts.len() == 0 {
        None
    } else if puts.last().0 == number && puts.last().1 == name {
        Some(puts.last().2)
    } else {
        last_named(puts.drop_last(), number, name)
    }
}

/// What a map has under a number and a name.
pub open spec fn named<V>(map: Map<Seq<u8>, V>, number: u64, name: Seq<u8>) -> Option<V> {
    if map.contains_key(named_key(number, name)) {
        Some(map[named_key(number, name)])
    } else {
        None
    }
}

/// Different numbers or names have different keys.
pub proof fn lemma_named_key_injective(a: u64, name: Seq<u8>, b: u64, other: Seq<u8>)
    requires
        named_key(a, name) == named_key(b, other),
    ensures
        a == b,
        name == other,
{
    lemma_named_key_round_trip(a, name);
    lemma_named_key_round_trip(b, other);
}

/// Storing under numbers and names gives each the value that was stored last and leaves the others.
pub proof fn lemma_put_named_at<V>(
    map: Map<Seq<u8>, V>,
    puts: Seq<(u64, Seq<u8>, V)>,
    number: u64,
    name: Seq<u8>,
)
    ensures
        named(put_named(map, puts), number, name) == (match last_named(puts, number, name) {
            Some(value) => Some(value),
            None => named(map, number, name),
        }),
    decreases puts.len(),
{
    if puts.len() > 0 {
        lemma_put_named_at(map, puts.drop_last(), number, name);
        let last = puts.last();
        if named_key(last.0, last.1) == named_key(number, name) {
            lemma_named_key_injective(last.0, last.1, number, name);
        }
    }
}

/// Removing numbers and names leaves the others.
pub proof fn lemma_remove_named_at<V>(
    map: Map<Seq<u8>, V>,
    deletes: Seq<(u64, Seq<u8>)>,
    number: u64,
    name: Seq<u8>,
)
    ensures
        named(remove_named(map, deletes), number, name) == (if deletes.contains((number, name)) {
            None
        } else {
            named(map, number, name)
        }),
    decreases deletes.len(),
{
    if deletes.len() > 0 {
        let rest = deletes.drop_last();
        let last = deletes.last();
        lemma_remove_named_at(map, rest, number, name);
        if named_key(last.0, last.1) == named_key(number, name) {
            lemma_named_key_injective(last.0, last.1, number, name);
            assert(deletes[deletes.len() - 1] == (number, name));
        }
        if rest.contains((number, name)) {
            let i = choose|i: int| 0 <= i < rest.len() && rest[i] == (number, name);
            assert(deletes[i] == (number, name));
        }
        if deletes.contains((number, name)) && last != (number, name) {
            let i = choose|i: int| 0 <= i < deletes.len() && deletes[i] == (number, name);
            assert(rest[i] == (number, name));
        }
    }
}

/// The entry of a directory after a mutation.
pub open spec fn entry_after(
    namespace: Namespace,
    mutation: MutationView,
    parent: u64,
    name: Seq<u8>,
) -> Option<StoredDirectoryEntry> {
    match last_named(mutation.entry_puts, parent, name) {
        Some(entry) => Some(entry),
        None => if mutation.entry_deletes.contains((parent, name)) {
            None
        } else {
            namespace.entry(parent, name)
        },
    }
}

/// Applying a mutation gives each name the entry that was stored last, none where it was deleted, and
/// the old one otherwise.
pub proof fn lemma_entry_after_agrees(
    namespace: Namespace,
    mutation: MutationView,
    parent: u64,
    name: Seq<u8>,
)
    ensures
        namespace.after(mutation).entry(parent, name) == entry_after(
            namespace,
            mutation,
            parent,
            name,
        ),
{
    lemma_remove_named_at(namespace.entries, mutation.entry_deletes, parent, name);
    lemma_put_named_at(
        remove_named(namespace.entries, mutation.entry_deletes),
        mutation.entry_puts,
        parent,
        name,
    );
}

proof fn lemma_attribute_after(
    namespace: Namespace,
    mutation: MutationView,
    number: u64,
    name: Seq<u8>,
)
    requires
        mutation.inode_deletes.len() == 0,
    ensures
        namespace.after(mutation).attribute(number, name) == (match last_named(
            mutation.attribute_puts,
            number,
            name,
        ) {
            Some(value) => Some(value),
            None => if mutation.attribute_deletes.contains((number, name)) {
                None
            } else {
                namespace.attribute(number, name)
            },
        }),
{
    assert(remove_attributes_of(namespace.attributes, mutation.inode_deletes)
        == namespace.attributes);
    lemma_remove_named_at(namespace.attributes, mutation.attribute_deletes, number, name);
    lemma_put_named_at(
        remove_named(namespace.attributes, mutation.attribute_deletes),
        mutation.attribute_puts,
        number,
        name,
    );
}

/// A created node is found under its name with a new number, and no other name, inode or attribute
/// changes but the directory.
pub proof fn lemma_created_is_found(
    namespace: Namespace,
    write: WriteState,
    parent: u64,
    name: Seq<u8>,
    kind: CreateNodeKind,
    metadata: CreateNodeMetadata,
    now: StoredTime,
    created_at: time::UtcDateTime,
    created: InodeChange,
    other_parent: u64,
    other_name: Seq<u8>,
    other: u64,
)
    requires
        node_creation(namespace, write, parent, name, kind, metadata, now, created_at) == Ok::<
            InodeChange,
            FuseError,
        >(created),
    ensures
        ({
            let after = namespace.after(created.change.mutation);
            &&& namespace.entry(parent, name) is None
            &&& namespace.inode(created.number) is None
            &&& after.entry(parent, name) == Some(
                StoredDirectoryEntry { inode: created.number, kind: created.inode.kind },
            )
            &&& after.inode(created.number) == Some(created.inode)
            &&& after.inode(parent) is Some
            &&& after.inode(parent)->0.kind == StoredNodeKind::Directory
            &&& (other_parent, other_name) != (parent, name) ==> after.entry(
                other_parent,
                other_name,
            ) == namespace.entry(other_parent, other_name)
            &&& other != created.number && other != parent ==> after.inode(other)
                == namespace.inode(other)
            &&& after.attribute(other, other_name) == namespace.attribute(other, other_name)
            &&& node_creation(
                after,
                write,
                parent,
                name,
                kind,
                metadata,
                now,
                created_at,
            ) == Err::<InodeChange, FuseError>(FuseError::Errno(Errno::EEXIST))
        }),
{
    let mutation = created.change.mutation;
    lemma_entry_after_agrees(namespace, mutation, parent, name);
    lemma_entry_after_agrees(namespace, mutation, other_parent, other_name);
    lemma_inode_after_agrees(namespace, mutation, created.number);
    lemma_inode_after_agrees(namespace, mutation, parent);
    lemma_inode_after_agrees(namespace, mutation, other);
    lemma_attribute_after(namespace, mutation, other, other_name);
    reveal_with_fuel(last_named, 3);
    reveal_with_fuel(last_put, 4);
}

/// A created symbolic link is found under its name, and its target is the one given.
pub proof fn lemma_symlink_is_found(
    namespace: Namespace,
    write: WriteState,
    parent: u64,
    name: Seq<u8>,
    target: Seq<u8>,
    metadata: CreateNodeMetadata,
    now: StoredTime,
    created_at: time::UtcDateTime,
    created: InodeChange,
)
    requires
        symlink_creation(
            namespace,
            write,
            parent,
            name,
            target,
            metadata,
            now,
            created_at,
        ) == Ok::<InodeChange, FuseError>(created),
    ensures
        ({
            let after = namespace.after(created.change.mutation);
            &&& after.entry(parent, name) == Some(
                StoredDirectoryEntry { inode: created.number, kind: StoredNodeKind::Symlink },
            )
            &&& after.inode(created.number) == Some(created.inode)
            &&& created.inode.kind == StoredNodeKind::Symlink
            &&& created.inode.symlink_target == Some(target)
        }),
{
    let mutation = created.change.mutation;
    lemma_entry_after_agrees(namespace, mutation, parent, name);
    lemma_inode_after_agrees(namespace, mutation, created.number);
    reveal_with_fuel(last_named, 3);
    reveal_with_fuel(last_put, 4);
}

/// A removed name is gone and no other name changes. Its inode is gone with its last name or when it is
/// a directory, and has one link fewer otherwise. No directory is its own entry.
pub proof fn lemma_removed_is_gone(
    namespace: Namespace,
    write: WriteState,
    parent: u64,
    name: Seq<u8>,
    directory: bool,
    now: StoredTime,
    created_at: time::UtcDateTime,
    change: ChangeView,
    other_parent: u64,
    other_name: Seq<u8>,
)
    requires
        entry_removal(namespace, write, parent, name, directory, now, created_at) == Ok::<
            ChangeView,
            FuseError,
        >(change),
        namespace.entry(parent, name)->0.inode != parent,
    ensures
        ({
            let after = namespace.after(change.mutation);
            let number = namespace.entry(parent, name)->0.inode;
            let inode = namespace.inode(number)->0;
            &&& namespace.entry(parent, name) is Some
            &&& namespace.inode(number) is Some
            &&& after.entry(parent, name) is None
            &&& (other_parent, other_name) != (parent, name) ==> after.entry(
                other_parent,
                other_name,
            ) == namespace.entry(other_parent, other_name)
            &&& inode.kind == StoredNodeKind::Directory || inode.nlink <= 1 ==> after.inode(
                number,
            ) is None
            &&& inode.kind != StoredNodeKind::Directory && inode.nlink > 1 ==> after.inode(number)
                is Some && after.inode(number)->0.nlink == inode.nlink - 1
            &&& entry_removal(
                after,
                write,
                parent,
                name,
                directory,
                now,
                created_at,
            ) == Err::<ChangeView, FuseError>(FuseError::Errno(Errno::ENOENT))
        }),
{
    let mutation = change.mutation;
    let number = namespace.entry(parent, name)->0.inode;
    let inode = namespace.inode(number)->0;
    assert(mutation.entry_deletes =~= seq![(parent, name)]);
    assert(mutation.entry_deletes[0] == (parent, name));
    lemma_entry_after_agrees(namespace, mutation, parent, name);
    lemma_entry_after_agrees(namespace, mutation, other_parent, other_name);
    reveal_with_fuel(last_named, 2);
    reveal_with_fuel(last_put, 4);
    if inode.kind == StoredNodeKind::Directory || inode.nlink <= 1 {
        assert(mutation.inode_deletes =~= seq![number]);
        assert(mutation.inode_deletes[0] == number);
        assert(mutation.inode_puts.drop_last() =~= Seq::<(u64, InodeView)>::empty());
    }
    lemma_inode_after_agrees(namespace, mutation, number);
    assert(!mutation.inode_deletes.contains(parent)) by {
        if mutation.inode_deletes.contains(parent) {
            let i = choose|i: int|
                0 <= i < mutation.inode_deletes.len() && mutation.inode_deletes[i] == parent;
        }
    }
    lemma_inode_after_agrees(namespace, mutation, parent);
}

/// A renamed entry is under its new name and no longer under its old one, unless that is the same; what
/// it stands for is the same, and no other name changes.
pub proof fn lemma_renamed_has_moved(
    namespace: Namespace,
    write: WriteState,
    parent: u64,
    name: Seq<u8>,
    new_parent: u64,
    new_name: Seq<u8>,
    no_replace: bool,
    now: StoredTime,
    created_at: time::UtcDateTime,
    change: ChangeView,
    other_parent: u64,
    other_name: Seq<u8>,
)
    requires
        rename_change(
            namespace,
            write,
            parent,
            name,
            new_parent,
            new_name,
            no_replace,
            now,
            created_at,
        ) == Ok::<ChangeView, FuseError>(change),
    ensures
        ({
            let after = namespace.after(change.mutation);
            &&& namespace.entry(parent, name) is Some
            &&& after.entry(new_parent, new_name) == namespace.entry(parent, name)
            &&& (parent, name) != (new_parent, new_name) ==> after.entry(parent, name) is None
            &&& (other_parent, other_name) != (parent, name) && (other_parent, other_name) != (
                new_parent,
                new_name,
            ) ==> after.entry(other_parent, other_name) == namespace.entry(
                other_parent,
                other_name,
            )
            &&& no_replace ==> namespace.entry(new_parent, new_name) is None
        }),
{
    let mutation = change.mutation;
    let found = rename_found(
        namespace,
        write,
        parent,
        name,
        new_parent,
        new_name,
        no_replace,
    )->Ok_0;
    let deletes = mutation.entry_deletes;
    assert(deletes =~= if found.replaced is Some {
        seq![(parent, name), (new_parent, new_name)]
    } else {
        seq![(parent, name)]
    });
    assert(deletes[0] == (parent, name));
    assert(mutation.entry_puts =~= seq![(new_parent, new_name, found.entry)]);
    lemma_entry_after_agrees(namespace, mutation, parent, name);
    lemma_entry_after_agrees(namespace, mutation, new_parent, new_name);
    lemma_entry_after_agrees(namespace, mutation, other_parent, other_name);
    reveal_with_fuel(last_named, 3);
}

/// A rename changes the directories, the inode that moved and the inode that was replaced, and no other:
/// what moved keeps its links, and what was replaced loses one or, with its last link or as a directory,
/// is gone.
pub proof fn lemma_renamed_inodes(
    namespace: Namespace,
    write: WriteState,
    parent: u64,
    name: Seq<u8>,
    new_parent: u64,
    new_name: Seq<u8>,
    no_replace: bool,
    now: StoredTime,
    created_at: time::UtcDateTime,
    change: ChangeView,
    number: u64,
)
    requires
        rename_change(
            namespace,
            write,
            parent,
            name,
            new_parent,
            new_name,
            no_replace,
            now,
            created_at,
        ) == Ok::<ChangeView, FuseError>(change),
    ensures
        ({
            let found = rename_found(
                namespace,
                write,
                parent,
                name,
                new_parent,
                new_name,
                no_replace,
            )->Ok_0;
            let replaced = found.replaced;
            &&& namespace.after(change.mutation).inode(number) == (if number == new_parent
                && new_parent != parent {
                Some(new_parent_after(found, now))
            } else if number == parent {
                Some(old_parent_after(found, now))
            } else if number == found.entry.inode {
                Some(InodeView { parent: new_parent, name: new_name, ctime: now, ..found.inode })
            } else if replaced is Some && number == (replaced->0).0 {
                let old = (replaced->0).1;
                if old.kind == StoredNodeKind::Directory || old.nlink <= 1 {
                    None
                } else {
                    Some(InodeView { nlink: (old.nlink - 1) as u32, ctime: now, ..old })
                }
            } else {
                namespace.inode(number)
            })
            &&& replaced is Some ==> {
                &&& namespace.entry(new_parent, new_name) is Some
                &&& namespace.entry(new_parent, new_name)->0.inode == (replaced->0).0
                &&& namespace.inode((replaced->0).0) == Some((replaced->0).1)
                &&& (replaced->0).0 != parent
                &&& (replaced->0).0 != new_parent
                &&& (replaced->0).0 != found.entry.inode
            }
            &&& replaced is None ==> namespace.entry(new_parent, new_name) is None
                || namespace.entry(new_parent, new_name)->0.inode == found.entry.inode
        }),
{
    let found = rename_found(
        namespace,
        write,
        parent,
        name,
        new_parent,
        new_name,
        no_replace,
    )->Ok_0;
    let mutation = change.mutation;
    let replaced = found.replaced;
    if replaced is Some {
        let gone = (replaced->0).0;
        let old = (replaced->0).1;
        if old.kind == StoredNodeKind::Directory {
            assert(namespace.empty_directory(gone));
            assert(!namespace.entries.contains_key(named_key(gone, name)));
            assert(!namespace.entries.contains_key(named_key(gone, new_name)));
        }
        assert(gone != parent && gone != new_parent && gone != found.entry.inode);
        assert(mutation.inode_deletes =~= if old.kind == StoredNodeKind::Directory || old.nlink
            <= 1 {
            seq![gone]
        } else {
            seq![]
        });
        if mutation.inode_deletes.len() > 0 {
            assert(mutation.inode_deletes[0] == gone);
        }
    } else {
        assert(mutation.inode_deletes =~= seq![]);
    }
    reveal_with_fuel(last_put, 6);
    if mutation.inode_deletes.contains(number) {
        let i = choose|i: int|
            0 <= i < mutation.inode_deletes.len() && mutation.inode_deletes[i] == number;
    }
    lemma_inode_after_agrees(namespace, mutation, number);
}

/// A new link stands for the same inode as the old names, which stay; the inode has one link more.
pub proof fn lemma_linked_has_both_names(
    namespace: Namespace,
    write: WriteState,
    number: u64,
    new_parent: u64,
    new_name: Seq<u8>,
    now: StoredTime,
    created_at: time::UtcDateTime,
    linked: InodeChange,
    other_parent: u64,
    other_name: Seq<u8>,
)
    requires
        link_creation(namespace, write, number, new_parent, new_name, now, created_at) == Ok::<
            InodeChange,
            FuseError,
        >(linked),
    ensures
        ({
            let after = namespace.after(linked.change.mutation);
            &&& namespace.entry(new_parent, new_name) is None
            &&& namespace.inode(number) is Some
            &&& after.entry(new_parent, new_name) == Some(
                StoredDirectoryEntry { inode: number, kind: namespace.inode(number)->0.kind },
            )
            &&& (other_parent, other_name) != (new_parent, new_name) ==> after.entry(
                other_parent,
                other_name,
            ) == namespace.entry(other_parent, other_name)
            &&& after.inode(number) is Some
            &&& after.inode(number)->0.nlink == more_links(namespace.inode(number)->0.nlink)
            &&& after.inode(number)->0.content_manifest_identifier == namespace.inode(
                number,
            )->0.content_manifest_identifier
            &&& after.inode(number)->0.size == namespace.inode(number)->0.size
        }),
{
    let mutation = linked.change.mutation;
    lemma_entry_after_agrees(namespace, mutation, new_parent, new_name);
    lemma_entry_after_agrees(namespace, mutation, other_parent, other_name);
    lemma_inode_after_agrees(namespace, mutation, number);
    reveal_with_fuel(last_named, 3);
    reveal_with_fuel(last_put, 4);
}

/// An extended attribute that was set is read back, and no other changes.
pub proof fn lemma_attribute_is_read_back(
    namespace: Namespace,
    write: WriteState,
    number: u64,
    name: Seq<u8>,
    value: Seq<u8>,
    flags: i32,
    now: StoredTime,
    created_at: time::UtcDateTime,
    change: Option<ChangeView>,
    other: u64,
    other_name: Seq<u8>,
)
    requires
        attribute_setting(namespace, write, number, name, value, flags, now, created_at) == Ok::<
            Option<ChangeView>,
            FuseError,
        >(change),
    ensures
        ({
            let after = match change {
                Some(change) => namespace.after(change.mutation),
                None => namespace,
            };
            &&& after.attribute(number, name) == Some(value)
            &&& (other, other_name) != (number, name) ==> after.attribute(other, other_name)
                == namespace.attribute(other, other_name)
        }),
{
    if change is Some {
        let mutation = change->0.mutation;
        lemma_attribute_after(namespace, mutation, number, name);
        lemma_attribute_after(namespace, mutation, other, other_name);
        reveal_with_fuel(last_named, 3);
    }
}

/// An extended attribute that was removed is gone, and no other changes.
pub proof fn lemma_removed_attribute_is_gone(
    namespace: Namespace,
    write: WriteState,
    number: u64,
    name: Seq<u8>,
    now: StoredTime,
    created_at: time::UtcDateTime,
    change: ChangeView,
    other: u64,
    other_name: Seq<u8>,
)
    requires
        attribute_removal(namespace, write, number, name, now, created_at) == Ok::<
            ChangeView,
            FuseError,
        >(change),
    ensures
        ({
            let after = namespace.after(change.mutation);
            &&& namespace.attribute(number, name) is Some
            &&& after.attribute(number, name) is None
            &&& (other, other_name) != (number, name) ==> after.attribute(other, other_name)
                == namespace.attribute(other, other_name)
        }),
{
    let mutation = change.mutation;
    assert(mutation.attribute_deletes =~= seq![(number, name)]);
    assert(mutation.attribute_deletes[0] == (number, name));
    lemma_attribute_after(namespace, mutation, number, name);
    lemma_attribute_after(namespace, mutation, other, other_name);
    reveal_with_fuel(last_named, 2);
}

} // verus!
