//! The shape that every operation keeps: no name stands for something that is not there, and nothing is
//! deleted while a name stands for it.

use vstd::prelude::*;
use vstd::set_lib::lemma_len_subset;

use crate::changes::{
    attribute_removal, attribute_setting, entry_removal, link_creation, node_creation,
    rename_change, rename_found, symlink_creation, ChangeView, InodeChange,
};
use crate::database::WriteState;
use crate::error::FuseError;
use crate::files::lemma_inode_stored;
use crate::inode::{
    CreateNodeKind, CreateNodeMetadata, InodeView, StoredDirectoryEntry, StoredNodeKind, StoredTime,
    INODE_ROOT,
};
use crate::keys::named_key;
use crate::namespace::{last_put, lemma_inode_after_agrees, MutationView, Namespace};
use crate::naming::{
    last_named, lemma_entry_after_agrees, lemma_renamed_has_moved, lemma_renamed_inodes,
};
use crate::opening::{initial_namespace, root_directory};

verus! {

/// The names that stand for an inode.
pub open spec fn places_of(namespace: Namespace, number: u64) -> Set<(u64, Seq<u8>)> {
    Set::new(
        |place: (u64, Seq<u8>)|
            namespace.entry(place.0, place.1) is Some && namespace.entry(
                place.0,
                place.1,
            )->0.inode == number,
    )
}

/// A name lies in a directory and stands for an inode of its kind that is not the root.
pub open spec fn entry_sound(namespace: Namespace, parent: u64, name: Seq<u8>) -> bool {
    let entry = namespace.entry(parent, name)->0;
    &&& namespace.inode(parent) is Some
    &&& namespace.inode(parent)->0.kind == StoredNodeKind::Directory
    &&& namespace.inode(entry.inode) is Some
    &&& namespace.inode(entry.inode)->0.kind == entry.kind
    &&& entry.inode != INODE_ROOT
}

/// An inode has no more names than links, and a directory has at most one.
pub open spec fn links_sound(namespace: Namespace, number: u64) -> bool {
    let inode = namespace.inode(number)->0;
    &&& places_of(namespace, number).finite()
    &&& places_of(namespace, number).len() <= (if inode.kind == StoredNodeKind::Directory {
        1
    } else {
        inode.nlink as nat
    })
}

/// There is a root directory, every name is sound, and no inode has more names than links.
pub open spec fn tree_sound(namespace: Namespace) -> bool {
    &&& namespace.inode(INODE_ROOT) is Some
    &&& namespace.inode(INODE_ROOT)->0.kind == StoredNodeKind::Directory
    &&& forall|parent: u64, name: Seq<u8>|
        (#[trigger] namespace.entry(parent, name)) is Some ==> entry_sound(namespace, parent, name)
    &&& forall|number: u64|
        (#[trigger] namespace.inode(number)) is Some ==> links_sound(namespace, number)
}

proof fn lemma_names_within(
    after: Namespace,
    number: u64,
    bound: Set<(u64, Seq<u8>)>,
)
    requires
        bound.finite(),
        places_of(after, number).subset_of(bound),
    ensures
        places_of(after, number).finite(),
        places_of(after, number).len() <= bound.len(),
{
    lemma_len_subset(places_of(after, number), bound);
}

/// A new name for a new inode keeps the tree sound.
proof fn lemma_added_keeps_tree(
    before: Namespace,
    after: Namespace,
    parent: u64,
    name: Seq<u8>,
    number: u64,
)
    requires
        tree_sound(before),
        before.inode(number) is None,
        before.inode(parent) is Some,
        before.inode(parent)->0.kind == StoredNodeKind::Directory,
        after.inode(number) is Some,
        after.inode(number)->0.nlink >= 1,
        after.inode(parent) is Some,
        after.inode(parent)->0.kind == StoredNodeKind::Directory,
        after.entry(parent, name) == Some(
            StoredDirectoryEntry { inode: number, kind: after.inode(number)->0.kind },
        ),
        forall|other: u64|
            other != number && other != parent ==> (#[trigger] after.inode(other)) == before.inode(
                other,
            ),
        forall|other: u64, other_name: Seq<u8>|
            (other, other_name) != (parent, name) ==> (#[trigger] after.entry(other, other_name))
                == before.entry(other, other_name),
    ensures
        tree_sound(after),
{
    assert forall|p: u64, n: Seq<u8>| (#[trigger] after.entry(p, n)) is Some implies entry_sound(
        after,
        p,
        n,
    ) by {
        if (p, n) != (parent, name) {
            assert(before.entry(p, n) is Some);
            assert(entry_sound(before, p, n));
        }
    }
    assert forall|m: u64| (#[trigger] after.inode(m)) is Some implies links_sound(after, m) by {
        if m == number {
            let bound = Set::<(u64, Seq<u8>)>::empty().insert((parent, name));
            assert forall|place: (u64, Seq<u8>)| #[trigger]
                places_of(after, m).contains(place) implies bound.contains(place) by {
                if place != (parent, name) {
                    assert(before.entry(place.0, place.1) is Some);
                    assert(entry_sound(before, place.0, place.1));
                }
            }
            lemma_names_within(after, m, bound);
        } else {
            assert(before.inode(m) is Some);
            assert(links_sound(before, m));
            let bound = places_of(before, m);
            assert forall|place: (u64, Seq<u8>)| #[trigger]
                places_of(after, m).contains(place) implies bound.contains(place) by {
                assert(place != (parent, name));
                assert(after.entry(place.0, place.1) == before.entry(place.0, place.1));
            }
            lemma_names_within(after, m, bound);
        }
    }
}

/// Creating a node keeps the tree sound.
pub proof fn lemma_creation_keeps_tree(
    namespace: Namespace,
    write: WriteState,
    parent: u64,
    name: Seq<u8>,
    kind: CreateNodeKind,
    metadata: CreateNodeMetadata,
    now: StoredTime,
    created_at: time::UtcDateTime,
    created: InodeChange,
)
    requires
        tree_sound(namespace),
        node_creation(namespace, write, parent, name, kind, metadata, now, created_at) == Ok::<
            InodeChange,
            FuseError,
        >(created),
    ensures
        tree_sound(namespace.after(created.change.mutation)),
{
    let mutation = created.change.mutation;
    let after = namespace.after(mutation);
    reveal_with_fuel(last_named, 3);
    reveal_with_fuel(last_put, 4);
    lemma_inode_after_agrees(namespace, mutation, created.number);
    lemma_inode_after_agrees(namespace, mutation, parent);
    lemma_entry_after_agrees(namespace, mutation, parent, name);
    assert forall|other: u64| other != created.number && other != parent implies (
    #[trigger] after.inode(other)) == namespace.inode(other) by {
        lemma_inode_after_agrees(namespace, mutation, other);
    }
    assert forall|other: u64, other_name: Seq<u8>|
        (other, other_name) != (parent, name) implies (#[trigger] after.entry(other, other_name))
        == namespace.entry(other, other_name) by {
        lemma_entry_after_agrees(namespace, mutation, other, other_name);
    }
    lemma_added_keeps_tree(namespace, after, parent, name, created.number);
}

/// Creating a symbolic link keeps the tree sound.
pub proof fn lemma_symlink_keeps_tree(
    namespace: Namespace,
    write: WriteState,
    parent: u64,
    name: Seq<u8>,
    target: Seq<u8>,
    metadata: CreateNodeMetadata,
    now: StoredTime,
    created_at: time::UtcDateTime,
    created: InodeChange,
)
    requires
        tree_sound(namespace),
        symlink_creation(
            namespace,
            write,
            parent,
            name,
            target,
            metadata,
            now,
            created_at,
        ) == Ok::<InodeChange, FuseError>(created),
    ensures
        tree_sound(namespace.after(created.change.mutation)),
{
    let mutation = created.change.mutation;
    let after = namespace.after(mutation);
    reveal_with_fuel(last_named, 3);
    reveal_with_fuel(last_put, 4);
    lemma_inode_after_agrees(namespace, mutation, created.number);
    lemma_inode_after_agrees(namespace, mutation, parent);
    lemma_entry_after_agrees(namespace, mutation, parent, name);
    assert forall|other: u64| other != created.number && other != parent implies (
    #[trigger] after.inode(other)) == namespace.inode(other) by {
        lemma_inode_after_agrees(namespace, mutation, other);
    }
    assert forall|other: u64, other_name: Seq<u8>|
        (other, other_name) != (parent, name) implies (#[trigger] after.entry(other, other_name))
        == namespace.entry(other, other_name) by {
        lemma_entry_after_agrees(namespace, mutation, other, other_name);
    }
    lemma_added_keeps_tree(namespace, after, parent, name, created.number);
}

/// Linking keeps the tree sound. Left out is an inode whose links are used up.
pub proof fn lemma_link_keeps_tree(
    namespace: Namespace,
    write: WriteState,
    number: u64,
    new_parent: u64,
    new_name: Seq<u8>,
    now: StoredTime,
    created_at: time::UtcDateTime,
    linked: InodeChange,
)
    requires
        tree_sound(namespace),
        link_creation(namespace, write, number, new_parent, new_name, now, created_at) == Ok::<
            InodeChange,
            FuseError,
        >(linked),
        namespace.inode(number)->0.nlink < u32::MAX,
    ensures
        tree_sound(namespace.after(linked.change.mutation)),
{
    let mutation = linked.change.mutation;
    let after = namespace.after(mutation);
    reveal_with_fuel(last_named, 3);
    reveal_with_fuel(last_put, 4);
    assert forall|p: u64, n: Seq<u8>| (#[trigger] after.entry(p, n)) is Some implies entry_sound(
        after,
        p,
        n,
    ) by {
        lemma_entry_after_agrees(namespace, mutation, p, n);
        lemma_inode_after_agrees(namespace, mutation, p);
        lemma_inode_after_agrees(namespace, mutation, after.entry(p, n)->0.inode);
        if (p, n) != (new_parent, new_name) {
            assert(namespace.entry(p, n) is Some);
            assert(entry_sound(namespace, p, n));
        }
    }
    lemma_inode_after_agrees(namespace, mutation, INODE_ROOT);
    assert forall|m: u64| (#[trigger] after.inode(m)) is Some implies links_sound(after, m) by {
        lemma_inode_after_agrees(namespace, mutation, m);
        assert(namespace.inode(m) is Some);
        assert(links_sound(namespace, m));
        let bound = if m == number {
            places_of(namespace, m).insert((new_parent, new_name))
        } else {
            places_of(namespace, m)
        };
        assert forall|place: (u64, Seq<u8>)| #[trigger]
            places_of(after, m).contains(place) implies bound.contains(place) by {
            lemma_entry_after_agrees(namespace, mutation, place.0, place.1);
        }
        lemma_names_within(after, m, bound);
    }
}

/// Removing a name keeps the tree sound: an inode is deleted only with its last name, and a directory
/// only when it is empty.
pub proof fn lemma_removal_keeps_tree(
    namespace: Namespace,
    write: WriteState,
    parent: u64,
    name: Seq<u8>,
    directory: bool,
    now: StoredTime,
    created_at: time::UtcDateTime,
    change: ChangeView,
)
    requires
        tree_sound(namespace),
        entry_removal(namespace, write, parent, name, directory, now, created_at) == Ok::<
            ChangeView,
            FuseError,
        >(change),
    ensures
        tree_sound(namespace.after(change.mutation)),
{
    let mutation = change.mutation;
    let after = namespace.after(mutation);
    let entry = namespace.entry(parent, name)->0;
    let number = entry.inode;
    let inode = namespace.inode(number)->0;
    let gone = inode.kind == StoredNodeKind::Directory || inode.nlink <= 1;
    assert(entry_sound(namespace, parent, name));
    assert(links_sound(namespace, number));
    assert(number != parent) by {
        if number == parent {
            assert(namespace.empty_directory(number));
            assert(!namespace.entries.contains_key(named_key(number, name)));
        }
    }
    assert(mutation.entry_deletes =~= seq![(parent, name)]);
    assert(mutation.entry_deletes[0] == (parent, name));
    assert(mutation.inode_deletes =~= if gone {
        seq![number]
    } else {
        seq![]
    });
    if gone {
        assert(mutation.inode_deletes[0] == number);
    }
    reveal_with_fuel(last_named, 2);
    reveal_with_fuel(last_put, 4);
    assert forall|m: u64| (#[trigger] after.inode(m)) == (if m == number && gone {
        None
    } else if m == number {
        Some(InodeView { nlink: (inode.nlink - 1) as u32, ctime: now, ..inode })
    } else if m == parent {
        Some(namespace.inode(parent)->0.after_removal(inode, now))
    } else {
        namespace.inode(m)
    }) by {
        if m != number && mutation.inode_deletes.contains(m) {
            let i = choose|i: int|
                0 <= i < mutation.inode_deletes.len() && mutation.inode_deletes[i] == m;
        }
        lemma_inode_after_agrees(namespace, mutation, m);
    }
    assert forall|p: u64, n: Seq<u8>| (#[trigger] after.entry(p, n)) == (if (p, n) == (parent, name) {
        None
    } else {
        namespace.entry(p, n)
    }) by {
        lemma_entry_after_agrees(namespace, mutation, p, n);
    }
    let left = places_of(namespace, number).remove((parent, name));
    assert(places_of(namespace, number).contains((parent, name)));
    assert(places_of(after, number).subset_of(left)) by {
        assert forall|place: (u64, Seq<u8>)| #[trigger]
            places_of(after, number).contains(place) implies left.contains(place) by {
            assert(after.entry(place.0, place.1) is Some);
        }
    }
    lemma_names_within(after, number, left);
    assert forall|p: u64, n: Seq<u8>| (#[trigger] after.entry(p, n)) is Some implies entry_sound(
        after,
        p,
        n,
    ) by {
        assert(entry_sound(namespace, p, n));
        if gone && after.entry(p, n)->0.inode == number {
            assert(places_of(after, number).contains((p, n)));
            assert(left.len() == 0);
        }
        if gone && p == number {
            assert(namespace.empty_directory(number));
            assert(!namespace.entries.contains_key(named_key(number, n)));
        }
    }
    assert forall|m: u64| (#[trigger] after.inode(m)) is Some implies links_sound(after, m) by {
        assert(namespace.inode(m) is Some);
        assert(links_sound(namespace, m));
        if m != number {
            let bound = places_of(namespace, m);
            assert forall|place: (u64, Seq<u8>)| #[trigger]
                places_of(after, m).contains(place) implies bound.contains(place) by {
                assert(after.entry(place.0, place.1) is Some);
            }
            lemma_names_within(after, m, bound);
        }
    }
}

/// The kind of an inode stays, and its links where it is no directory.
spec fn keeps_links(before: Option<InodeView>, after: Option<InodeView>) -> bool {
    match (before, after) {
        (Some(old), Some(new)) => new.kind == old.kind && (old.kind != StoredNodeKind::Directory
            ==> new.nlink == old.nlink),
        (None, None) => true,
        _ => false,
    }
}

/// Changing inodes without touching kinds, links and names keeps the tree sound.
proof fn lemma_changed_inodes_keep_tree(before: Namespace, after: Namespace)
    requires
        tree_sound(before),
        forall|p: u64, n: Seq<u8>| (#[trigger] after.entry(p, n)) == before.entry(p, n),
        forall|m: u64| keeps_links(before.inode(m), #[trigger] after.inode(m)),
    ensures
        tree_sound(after),
{
    assert(keeps_links(before.inode(INODE_ROOT), after.inode(INODE_ROOT)));
    assert forall|p: u64, n: Seq<u8>| (#[trigger] after.entry(p, n)) is Some implies entry_sound(
        after,
        p,
        n,
    ) by {
        assert(entry_sound(before, p, n));
        let number = after.entry(p, n)->0.inode;
        assert(keeps_links(before.inode(p), after.inode(p)));
        assert(keeps_links(before.inode(number), after.inode(number)));
    }
    assert forall|m: u64| (#[trigger] after.inode(m)) is Some implies links_sound(after, m) by {
        assert(keeps_links(before.inode(m), after.inode(m)));
        assert(before.inode(m) is Some);
        assert(links_sound(before, m));
        assert(places_of(after, m) =~= places_of(before, m)) by {
            assert forall|place: (u64, Seq<u8>)| #[trigger]
                places_of(after, m).contains(place) == places_of(before, m).contains(place) by {
                assert(after.entry(place.0, place.1) == before.entry(place.0, place.1));
            }
        }
    }
}

/// Storing an inode anew with its kind and its links keeps the tree sound, as writing, cutting off and
/// changing attributes do.
pub proof fn lemma_stored_inode_keeps_tree(
    namespace: Namespace,
    number: u64,
    inode: InodeView,
)
    requires
        tree_sound(namespace),
        namespace.inode(number) is Some,
        inode.kind == namespace.inode(number)->0.kind,
        inode.nlink == namespace.inode(number)->0.nlink,
    ensures
        tree_sound(namespace.after(MutationView::nothing().with_inode(number, inode))),
{
    let mutation = MutationView::nothing().with_inode(number, inode);
    let after = namespace.after(mutation);
    assert forall|m: u64| keeps_links(namespace.inode(m), #[trigger] after.inode(m)) by {
        lemma_inode_stored(namespace, number, inode, m);
    }
    lemma_inode_stored(namespace, number, inode, number);
    assert forall|p: u64, n: Seq<u8>| (#[trigger] after.entry(p, n)) == namespace.entry(p, n) by {
        assert(after.entries == namespace.entries);
    }
    lemma_changed_inodes_keep_tree(namespace, after);
}

/// The inodes after a rename: what was replaced has lost a name, and no other changes its kind or the
/// links that count.
proof fn lemma_rename_inodes(
    namespace: Namespace,
    write: WriteState,
    parent: u64,
    name: Seq<u8>,
    new_parent: u64,
    new_name: Seq<u8>,
    no_replace: bool,
    now: StoredTime,
    created_at: time::UtcDateTime,
    change: ChangeView,
    number: u64,
)
    requires
        tree_sound(namespace),
        rename_change(
            namespace,
            write,
            parent,
            name,
            new_parent,
            new_name,
            no_replace,
            now,
            created_at,
        ) == Ok::<ChangeView, FuseError>(change),
    ensures
        ({
            let after = namespace.after(change.mutation);
            let replaced = rename_found(
                namespace,
                write,
                parent,
                name,
                new_parent,
                new_name,
                no_replace,
            )->Ok_0.replaced;
            if replaced is Some && (replaced->0).0 == number {
                let old = (replaced->0).1;
                &&& namespace.inode(number) == Some(old)
                &&& if old.kind == StoredNodeKind::Directory || old.nlink <= 1 {
                    after.inode(number) is None
                } else {
                    after.inode(number) is Some && after.inode(number)->0.kind == old.kind
                        && after.inode(number)->0.nlink == old.nlink - 1
                }
            } else {
                keeps_links(namespace.inode(number), after.inode(number))
            }
        }),
{
    assert(entry_sound(namespace, parent, name));
    lemma_renamed_inodes(
        namespace,
        write,
        parent,
        name,
        new_parent,
        new_name,
        no_replace,
        now,
        created_at,
        change,
        number,
    );
}

/// Renaming keeps the tree sound.
pub proof fn lemma_rename_keeps_tree(
    namespace: Namespace,
    write: WriteState,
    parent: u64,
    name: Seq<u8>,
    new_parent: u64,
    new_name: Seq<u8>,
    no_replace: bool,
    now: StoredTime,
    created_at: time::UtcDateTime,
    change: ChangeView,
)
    requires
        tree_sound(namespace),
        rename_change(
            namespace,
            write,
            parent,
            name,
            new_parent,
            new_name,
            no_replace,
            now,
            created_at,
        ) == Ok::<ChangeView, FuseError>(change),
    ensures
        tree_sound(namespace.after(change.mutation)),
{
    let after = namespace.after(change.mutation);
    let found = rename_found(
        namespace,
        write,
        parent,
        name,
        new_parent,
        new_name,
        no_replace,
    )->Ok_0;
    let entry = found.entry;
    let old_place = (parent, name);
    let new_place = (new_parent, new_name);
    assert(entry_sound(namespace, parent, name));
    assert forall|p: u64, n: Seq<u8>| (#[trigger] after.entry(p, n)) == (if (p, n) == new_place {
        Some(entry)
    } else if (p, n) == old_place {
        None
    } else {
        namespace.entry(p, n)
    }) by {
        lemma_renamed_has_moved(
            namespace,
            write,
            parent,
            name,
            new_parent,
            new_name,
            no_replace,
            now,
            created_at,
            change,
            p,
            n,
        );
    }
    assert forall|m: u64|
        found.replaced is None || (found.replaced->0).0 != m implies keeps_links(
        namespace.inode(m),
        #[trigger] after.inode(m),
    ) by {
        lemma_rename_inodes(
            namespace,
            write,
            parent,
            name,
            new_parent,
            new_name,
            no_replace,
            now,
            created_at,
            change,
            m,
        );
    }
    if found.replaced is Some {
        let gone = (found.replaced->0).0;
        lemma_rename_inodes(
            namespace,
            write,
            parent,
            name,
            new_parent,
            new_name,
            no_replace,
            now,
            created_at,
            change,
            gone,
        );
        assert(entry_sound(namespace, new_parent, new_name));
        assert(links_sound(namespace, gone));
        let left = places_of(namespace, gone).remove(new_place);
        assert(places_of(namespace, gone).contains(new_place));
        assert forall|place: (u64, Seq<u8>)| #[trigger]
            places_of(after, gone).contains(place) implies left.contains(place) by {
            assert(after.entry(place.0, place.1) is Some);
        }
        lemma_names_within(after, gone, left);
    }
    assert(after.inode(INODE_ROOT) is Some && after.inode(INODE_ROOT)->0.kind
        == StoredNodeKind::Directory) by {
        if found.replaced is Some {
            assert(entry_sound(namespace, new_parent, new_name));
        }
        assert(keeps_links(namespace.inode(INODE_ROOT), after.inode(INODE_ROOT)));
    }
    assert forall|p: u64, n: Seq<u8>| (#[trigger] after.entry(p, n)) is Some implies entry_sound(
        after,
        p,
        n,
    ) by {
        let number = after.entry(p, n)->0.inode;
        if (p, n) != new_place {
            assert(entry_sound(namespace, p, n));
        }
        if found.replaced is Some {
            let gone = (found.replaced->0).0;
            let old = (found.replaced->0).1;
            if number == gone {
                assert(places_of(after, gone).contains((p, n)));
            }
            if p == gone {
                assert(namespace.inode(p)->0.kind == StoredNodeKind::Directory);
                assert(namespace.empty_directory(gone));
                assert(!namespace.entries.contains_key(named_key(gone, n)));
                assert(!namespace.entries.contains_key(named_key(gone, new_name)));
            }
        }
        assert(found.replaced is None || (found.replaced->0).0 != p ==> keeps_links(
            namespace.inode(p),
            after.inode(p),
        ));
        assert(found.replaced is None || (found.replaced->0).0 != number ==> keeps_links(
            namespace.inode(number),
            after.inode(number),
        ));
    }
    assert forall|m: u64| (#[trigger] after.inode(m)) is Some implies links_sound(after, m) by {
        if found.replaced is None || (found.replaced->0).0 != m {
            assert(keeps_links(namespace.inode(m), after.inode(m)));
            assert(namespace.inode(m) is Some);
            assert(links_sound(namespace, m));
            let bound = if m == entry.inode {
                places_of(namespace, m).remove(old_place).insert(new_place)
            } else {
                places_of(namespace, m)
            };
            if m == entry.inode {
                assert(places_of(namespace, m).contains(old_place));
            }
            assert forall|place: (u64, Seq<u8>)| #[trigger]
                places_of(after, m).contains(place) implies bound.contains(place) by {
                assert(after.entry(place.0, place.1) is Some);
            }
            lemma_names_within(after, m, bound);
        }
    }
}

/// Setting an extended attribute keeps the tree sound.
pub proof fn lemma_attribute_setting_keeps_tree(
    namespace: Namespace,
    write: WriteState,
    number: u64,
    name: Seq<u8>,
    value: Seq<u8>,
    flags: i32,
    now: StoredTime,
    created_at: time::UtcDateTime,
    change: ChangeView,
)
    requires
        tree_sound(namespace),
        attribute_setting(namespace, write, number, name, value, flags, now, created_at) == Ok::<
            Option<ChangeView>,
            FuseError,
        >(Some(change)),
    ensures
        tree_sound(namespace.after(change.mutation)),
{
    let after = namespace.after(change.mutation);
    reveal_with_fuel(last_put, 3);
    assert forall|m: u64| keeps_links(namespace.inode(m), #[trigger] after.inode(m)) by {
        lemma_inode_after_agrees(namespace, change.mutation, m);
    }
    assert forall|p: u64, n: Seq<u8>| (#[trigger] after.entry(p, n)) == namespace.entry(p, n) by {
        lemma_entry_after_agrees(namespace, change.mutation, p, n);
    }
    lemma_changed_inodes_keep_tree(namespace, after);
}

/// Removing an extended attribute keeps the tree sound.
pub proof fn lemma_attribute_removal_keeps_tree(
    namespace: Namespace,
    write: WriteState,
    number: u64,
    name: Seq<u8>,
    now: StoredTime,
    created_at: time::UtcDateTime,
    change: ChangeView,
)
    requires
        tree_sound(namespace),
        attribute_removal(namespace, write, number, name, now, created_at) == Ok::<
            ChangeView,
            FuseError,
        >(change),
    ensures
        tree_sound(namespace.after(change.mutation)),
{
    let after = namespace.after(change.mutation);
    reveal_with_fuel(last_put, 3);
    assert forall|m: u64| keeps_links(namespace.inode(m), #[trigger] after.inode(m)) by {
        lemma_inode_after_agrees(namespace, change.mutation, m);
    }
    assert forall|p: u64, n: Seq<u8>| (#[trigger] after.entry(p, n)) == namespace.entry(p, n) by {
        lemma_entry_after_agrees(namespace, change.mutation, p, n);
    }
    lemma_changed_inodes_keep_tree(namespace, after);
}

/// The tree of a new filesystem is sound.
pub proof fn lemma_new_tree_is_sound(uid: u32, gid: u32, now: StoredTime)
    ensures
        tree_sound(initial_namespace(root_directory(uid, gid, now))),
{
    let namespace = initial_namespace(root_directory(uid, gid, now));
    assert forall|m: u64| (#[trigger] namespace.inode(m)) is Some implies links_sound(
        namespace,
        m,
    ) by {
        assert(places_of(namespace, m) =~= Set::empty());
    }
}

} // verus!
