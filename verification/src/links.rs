//! Link counts: a directory has two links and one more for each directory in it, anything else has as
//! many links as names.

use vstd::prelude::*;

use crate::changes::{
    attribute_removal, attribute_setting, entry_removal, link_creation, node_creation,
    rename_change, rename_found, symlink_creation, ChangeView, InodeChange,
};
use crate::database::WriteState;
use crate::error::FuseError;
use crate::files::lemma_inode_stored;
use crate::inode::{
    CreateNodeKind, CreateNodeMetadata, InodeView, StoredDirectoryEntry, StoredNodeKind, StoredTime,
};
use crate::keys::named_key;
use crate::namespace::{last_put, lemma_inode_after_agrees, MutationView, Namespace};
use crate::naming::{
    last_named, lemma_entry_after_agrees, lemma_named_key_injective, lemma_renamed_has_moved,
    lemma_renamed_inodes,
};
use crate::opening::{initial_namespace, root_directory};
use crate::tree::{entry_sound, places_of, tree_sound};

verus! {

/// The names of the directories in a directory.
pub open spec fn subdirectories(namespace: Namespace, number: u64) -> Set<Seq<u8>> {
    Set::new(
        |name: Seq<u8>|
            namespace.entry(number, name) is Some && namespace.entry(number, name)->0.kind
                == StoredNodeKind::Directory,
    )
}

/// A directory has two links and one more for each directory in it, anything else has as many links as
/// names.
pub open spec fn counted(namespace: Namespace, number: u64) -> bool {
    let inode = namespace.inode(number)->0;
    if inode.kind == StoredNodeKind::Directory {
        subdirectories(namespace, number).finite() && inode.nlink == 2 + subdirectories(
            namespace,
            number,
        ).len()
    } else {
        places_of(namespace, number).finite() && inode.nlink == places_of(namespace, number).len()
    }
}

/// The links of every inode are counted.
pub open spec fn links_counted(namespace: Namespace) -> bool {
    forall|number: u64| (#[trigger] namespace.inode(number)) is Some ==> counted(namespace, number)
}

/// One more entry is one more name of what it stands for and, where that is a directory, one more
/// directory in the one it lies in.
proof fn lemma_one_entry(
    without: Namespace,
    with: Namespace,
    parent: u64,
    name: Seq<u8>,
    entry: StoredDirectoryEntry,
)
    requires
        without.entry(parent, name) is None,
        with.entry(parent, name) == Some(entry),
        forall|p: u64, n: Seq<u8>|
            (p, n) != (parent, name) ==> (#[trigger] with.entry(p, n)) == without.entry(p, n),
    ensures
        forall|m: u64| #[trigger]
            places_of(with, m) == (if m == entry.inode {
                places_of(without, m).insert((parent, name))
            } else {
                places_of(without, m)
            }),
        forall|m: u64| #[trigger]
            subdirectories(with, m) == (if m == parent && entry.kind == StoredNodeKind::Directory {
                subdirectories(without, m).insert(name)
            } else {
                subdirectories(without, m)
            }),
        !places_of(without, entry.inode).contains((parent, name)),
        places_of(with, entry.inode).contains((parent, name)),
        !subdirectories(without, parent).contains(name),
        entry.kind == StoredNodeKind::Directory ==> subdirectories(with, parent).contains(name),
{
    assert forall|m: u64| #[trigger]
        places_of(with, m) == (if m == entry.inode {
            places_of(without, m).insert((parent, name))
        } else {
            places_of(without, m)
        }) by {
        let expected = if m == entry.inode {
            places_of(without, m).insert((parent, name))
        } else {
            places_of(without, m)
        };
        assert forall|place: (u64, Seq<u8>)| #[trigger]
            places_of(with, m).contains(place) == expected.contains(place) by {
            if place != (parent, name) {
                assert(with.entry(place.0, place.1) == without.entry(place.0, place.1));
            }
        }
        assert(places_of(with, m) =~= expected);
    }
    assert forall|m: u64| #[trigger]
        subdirectories(with, m) == (if m == parent && entry.kind == StoredNodeKind::Directory {
            subdirectories(without, m).insert(name)
        } else {
            subdirectories(without, m)
        }) by {
        let expected = if m == parent && entry.kind == StoredNodeKind::Directory {
            subdirectories(without, m).insert(name)
        } else {
            subdirectories(without, m)
        };
        assert forall|n: Seq<u8>| #[trigger]
            subdirectories(with, m).contains(n) == expected.contains(n) by {
            if (m, n) != (parent, name) {
                assert(with.entry(m, n) == without.entry(m, n));
            }
        }
        assert(subdirectories(with, m) =~= expected);
    }
}

/// The same entries give the same counts.
proof fn lemma_same_entries(before: Namespace, after: Namespace, number: u64)
    requires
        forall|p: u64, n: Seq<u8>| (#[trigger] after.entry(p, n)) == before.entry(p, n),
    ensures
        places_of(after, number) == places_of(before, number),
        subdirectories(after, number) == subdirectories(before, number),
{
    assert forall|place: (u64, Seq<u8>)| #[trigger]
        places_of(after, number).contains(place) == places_of(before, number).contains(place) by {
        assert(after.entry(place.0, place.1) == before.entry(place.0, place.1));
    }
    assert(places_of(after, number) =~= places_of(before, number));
    assert forall|n: Seq<u8>| #[trigger]
        subdirectories(after, number).contains(n) == subdirectories(before, number).contains(n) by {
        assert(after.entry(number, n) == before.entry(number, n));
    }
    assert(subdirectories(after, number) =~= subdirectories(before, number));
}

/// A number that no inode has has no names and no directories in it.
proof fn lemma_nothing_counted(namespace: Namespace, number: u64)
    requires
        tree_sound(namespace),
        namespace.inode(number) is None,
    ensures
        places_of(namespace, number) == Set::<(u64, Seq<u8>)>::empty(),
        subdirectories(namespace, number) == Set::<Seq<u8>>::empty(),
{
    assert forall|place: (u64, Seq<u8>)| !#[trigger]
        places_of(namespace, number).contains(place) by {
        if places_of(namespace, number).contains(place) {
            assert(entry_sound(namespace, place.0, place.1));
        }
    }
    assert(places_of(namespace, number) =~= Set::<(u64, Seq<u8>)>::empty());
    assert forall|n: Seq<u8>| !#[trigger] subdirectories(namespace, number).contains(n) by {
        if subdirectories(namespace, number).contains(n) {
            assert(entry_sound(namespace, number, n));
        }
    }
    assert(subdirectories(namespace, number) =~= Set::<Seq<u8>>::empty());
}

proof fn lemma_added_keeps_links(
    before: Namespace,
    after: Namespace,
    parent: u64,
    name: Seq<u8>,
    number: u64,
)
    requires
        tree_sound(before),
        links_counted(before),
        before.inode(number) is None,
        before.inode(parent) is Some,
        before.inode(parent)->0.kind == StoredNodeKind::Directory,
        before.entry(parent, name) is None,
        after.inode(number) is Some,
        after.inode(parent) is Some,
        after.inode(parent)->0.kind == StoredNodeKind::Directory,
        ({
            let kind = after.inode(number)->0.kind;
            let directory = kind == StoredNodeKind::Directory;
            &&& after.inode(number)->0.nlink == if directory {
                2int
            } else {
                1
            }
            &&& after.inode(parent)->0.nlink == before.inode(parent)->0.nlink + if directory {
                1int
            } else {
                0
            }
            &&& after.entry(parent, name) == Some(StoredDirectoryEntry { inode: number, kind })
        }),
        forall|other: u64|
            other != number && other != parent ==> (#[trigger] after.inode(other)) == before.inode(
                other,
            ),
        forall|other: u64, other_name: Seq<u8>|
            (other, other_name) != (parent, name) ==> (#[trigger] after.entry(other, other_name))
                == before.entry(other, other_name),
    ensures
        links_counted(after),
{
    let kind = after.inode(number)->0.kind;
    lemma_one_entry(before, after, parent, name, StoredDirectoryEntry { inode: number, kind });
    lemma_nothing_counted(before, number);
    assert forall|m: u64| (#[trigger] after.inode(m)) is Some implies counted(after, m) by {
        if m != number {
            assert(before.inode(m) is Some);
            assert(counted(before, m));
        }
    }
}

/// Creating a node keeps the links counted. Left out is a directory in one whose links are used up.
pub proof fn lemma_creation_counts_links(
    namespace: Namespace,
    write: WriteState,
    parent: u64,
    name: Seq<u8>,
    kind: CreateNodeKind,
    metadata: CreateNodeMetadata,
    now: StoredTime,
    created_at: time::UtcDateTime,
    created: InodeChange,
)
    requires
        tree_sound(namespace),
        links_counted(namespace),
        node_creation(namespace, write, parent, name, kind, metadata, now, created_at) == Ok::<
            InodeChange,
            FuseError,
        >(created),
        created.inode.kind == StoredNodeKind::Directory ==> namespace.inode(parent)->0.nlink
            < u32::MAX,
    ensures
        links_counted(namespace.after(created.change.mutation)),
{
    let mutation = created.change.mutation;
    let after = namespace.after(mutation);
    reveal_with_fuel(last_named, 3);
    reveal_with_fuel(last_put, 4);
    lemma_inode_after_agrees(namespace, mutation, created.number);
    lemma_inode_after_agrees(namespace, mutation, parent);
    lemma_entry_after_agrees(namespace, mutation, parent, name);
    assert forall|other: u64| other != created.number && other != parent implies (
    #[trigger] after.inode(other)) == namespace.inode(other) by {
        lemma_inode_after_agrees(namespace, mutation, other);
    }
    assert forall|other: u64, other_name: Seq<u8>|
        (other, other_name) != (parent, name) implies (#[trigger] after.entry(other, other_name))
        == namespace.entry(other, other_name) by {
        lemma_entry_after_agrees(namespace, mutation, other, other_name);
    }
    lemma_added_keeps_links(namespace, after, parent, name, created.number);
}

/// Creating a symbolic link keeps the links counted.
pub proof fn lemma_symlink_counts_links(
    namespace: Namespace,
    write: WriteState,
    parent: u64,
    name: Seq<u8>,
    target: Seq<u8>,
    metadata: CreateNodeMetadata,
    now: StoredTime,
    created_at: time::UtcDateTime,
    created: InodeChange,
)
    requires
        tree_sound(namespace),
        links_counted(namespace),
        symlink_creation(
            namespace,
            write,
            parent,
            name,
            target,
            metadata,
            now,
            created_at,
        ) == Ok::<InodeChange, FuseError>(created),
    ensures
        links_counted(namespace.after(created.change.mutation)),
{
    let mutation = created.change.mutation;
    let after = namespace.after(mutation);
    reveal_with_fuel(last_named, 3);
    reveal_with_fuel(last_put, 4);
    lemma_inode_after_agrees(namespace, mutation, created.number);
    lemma_inode_after_agrees(namespace, mutation, parent);
    lemma_entry_after_agrees(namespace, mutation, parent, name);
    assert forall|other: u64| other != created.number && other != parent implies (
    #[trigger] after.inode(other)) == namespace.inode(other) by {
        lemma_inode_after_agrees(namespace, mutation, other);
    }
    assert forall|other: u64, other_name: Seq<u8>|
        (other, other_name) != (parent, name) implies (#[trigger] after.entry(other, other_name))
        == namespace.entry(other, other_name) by {
        lemma_entry_after_agrees(namespace, mutation, other, other_name);
    }
    lemma_added_keeps_links(namespace, after, parent, name, created.number);
}

/// Linking keeps the links counted. Left out is an inode whose links are used up.
pub proof fn lemma_link_counts_links(
    namespace: Namespace,
    write: WriteState,
    number: u64,
    new_parent: u64,
    new_name: Seq<u8>,
    now: StoredTime,
    created_at: time::UtcDateTime,
    linked: InodeChange,
)
    requires
        tree_sound(namespace),
        links_counted(namespace),
        link_creation(namespace, write, number, new_parent, new_name, now, created_at) == Ok::<
            InodeChange,
            FuseError,
        >(linked),
        namespace.inode(number)->0.nlink < u32::MAX,
    ensures
        links_counted(namespace.after(linked.change.mutation)),
{
    let mutation = linked.change.mutation;
    let after = namespace.after(mutation);
    let inode = namespace.inode(number)->0;
    reveal_with_fuel(last_named, 3);
    reveal_with_fuel(last_put, 4);
    lemma_entry_after_agrees(namespace, mutation, new_parent, new_name);
    assert forall|p: u64, n: Seq<u8>| (p, n) != (new_parent, new_name) implies (
    #[trigger] after.entry(p, n)) == namespace.entry(p, n) by {
        lemma_entry_after_agrees(namespace, mutation, p, n);
    }
    lemma_one_entry(
        namespace,
        after,
        new_parent,
        new_name,
        StoredDirectoryEntry { inode: number, kind: inode.kind },
    );
    assert forall|m: u64| (#[trigger] after.inode(m)) is Some implies counted(after, m) by {
        lemma_inode_after_agrees(namespace, mutation, m);
        assert(namespace.inode(m) is Some);
        assert(counted(namespace, m));
    }
}

/// Removing a name keeps the links counted.
pub proof fn lemma_removal_counts_links(
    namespace: Namespace,
    write: WriteState,
    parent: u64,
    name: Seq<u8>,
    directory: bool,
    now: StoredTime,
    created_at: time::UtcDateTime,
    change: ChangeView,
)
    requires
        tree_sound(namespace),
        links_counted(namespace),
        entry_removal(namespace, write, parent, name, directory, now, created_at) == Ok::<
            ChangeView,
            FuseError,
        >(change),
    ensures
        links_counted(namespace.after(change.mutation)),
{
    let mutation = change.mutation;
    let after = namespace.after(mutation);
    let entry = namespace.entry(parent, name)->0;
    let number = entry.inode;
    let inode = namespace.inode(number)->0;
    let gone = inode.kind == StoredNodeKind::Directory || inode.nlink <= 1;
    assert(entry_sound(namespace, parent, name));
    assert(number != parent) by {
        if number == parent {
            assert(namespace.empty_directory(number));
            assert(!namespace.entries.contains_key(named_key(number, name)));
        }
    }
    assert(mutation.entry_deletes =~= seq![(parent, name)]);
    assert(mutation.entry_deletes[0] == (parent, name));
    assert(mutation.inode_deletes =~= if gone {
        seq![number]
    } else {
        seq![]
    });
    if gone {
        assert(mutation.inode_deletes[0] == number);
    }
    reveal_with_fuel(last_named, 2);
    reveal_with_fuel(last_put, 4);
    assert forall|p: u64, n: Seq<u8>| (#[trigger] after.entry(p, n)) == (if (p, n) == (parent, name) {
        None
    } else {
        namespace.entry(p, n)
    }) by {
        lemma_entry_after_agrees(namespace, mutation, p, n);
    }
    lemma_one_entry(after, namespace, parent, name, entry);
    assert forall|m: u64| (#[trigger] after.inode(m)) is Some implies counted(after, m) by {
        if m != number && mutation.inode_deletes.contains(m) {
            let i = choose|i: int|
                0 <= i < mutation.inode_deletes.len() && mutation.inode_deletes[i] == m;
        }
        lemma_inode_after_agrees(namespace, mutation, m);
        assert(namespace.inode(m) is Some);
        assert(counted(namespace, m));
        lemma_smaller_counts(after, namespace, parent, name, entry, m);
    }
}

/// The counts without an entry, from those with it.
proof fn lemma_smaller_counts(
    without: Namespace,
    with: Namespace,
    parent: u64,
    name: Seq<u8>,
    entry: StoredDirectoryEntry,
    number: u64,
)
    requires
        without.entry(parent, name) is None,
        with.entry(parent, name) == Some(entry),
        forall|p: u64, n: Seq<u8>|
            (p, n) != (parent, name) ==> (#[trigger] with.entry(p, n)) == without.entry(p, n),
    ensures
        places_of(with, number).finite() ==> {
            &&& places_of(without, number).finite()
            &&& places_of(with, number).len() == places_of(without, number).len() + (if number
                == entry.inode {
                1int
            } else {
                0
            })
        },
        subdirectories(with, number).finite() ==> {
            &&& subdirectories(without, number).finite()
            &&& subdirectories(with, number).len() == subdirectories(without, number).len() + (
            if number == parent && entry.kind == StoredNodeKind::Directory {
                1int
            } else {
                0
            })
        },
{
    lemma_one_entry(without, with, parent, name, entry);
    if number == entry.inode {
        assert(places_of(without, number) =~= places_of(with, number).remove((parent, name)));
    } else {
        assert(places_of(without, number) == places_of(with, number));
    }
    if number == parent && entry.kind == StoredNodeKind::Directory {
        assert(subdirectories(without, number) =~= subdirectories(with, number).remove(name));
    } else {
        assert(subdirectories(without, number) == subdirectories(with, number));
    }
}

/// A state without an entry.
spec fn without_entry_at(namespace: Namespace, parent: u64, name: Seq<u8>) -> Namespace {
    Namespace { entries: namespace.entries.remove(named_key(parent, name)), ..namespace }
}

proof fn lemma_without_entry_at(namespace: Namespace, parent: u64, name: Seq<u8>)
    ensures
        without_entry_at(namespace, parent, name).entry(parent, name) is None,
        forall|p: u64, n: Seq<u8>|
            (p, n) != (parent, name) ==> (#[trigger] namespace.entry(p, n)) == without_entry_at(
                namespace,
                parent,
                name,
            ).entry(p, n),
{
    assert forall|p: u64, n: Seq<u8>| (p, n) != (parent, name) implies (
    #[trigger] namespace.entry(p, n)) == without_entry_at(namespace, parent, name).entry(p, n) by {
        if named_key(p, n) == named_key(parent, name) {
            lemma_named_key_injective(p, n, parent, name);
        }
    }
}

/// How the counts of an inode change when an entry moves to a free name or replaces another.
proof fn lemma_moved_counts(
    before: Namespace,
    after: Namespace,
    parent: u64,
    name: Seq<u8>,
    new_parent: u64,
    new_name: Seq<u8>,
    number: u64,
)
    requires
        before.entry(parent, name) is Some,
        (parent, name) != (new_parent, new_name),
        forall|p: u64, n: Seq<u8>|
            (#[trigger] after.entry(p, n)) == (if (p, n) == (new_parent, new_name) {
                before.entry(parent, name)
            } else if (p, n) == (parent, name) {
                None
            } else {
                before.entry(p, n)
            }),
    ensures
        ({
            let entry = before.entry(parent, name)->0;
            let replaced = before.entry(new_parent, new_name);
            let directory = entry.kind == StoredNodeKind::Directory;
            &&& places_of(before, number).finite() ==> {
                &&& places_of(after, number).finite()
                &&& places_of(after, number).len() == places_of(before, number).len() - (
                if replaced is Some && replaced->0.inode == number {
                    1int
                } else {
                    0
                })
            }
            &&& subdirectories(before, number).finite() ==> {
                &&& subdirectories(after, number).finite()
                &&& subdirectories(after, number).len() == subdirectories(before, number).len() - (
                if number == parent && directory {
                    1int
                } else {
                    0
                }) - (if replaced is Some && number == new_parent && replaced->0.kind
                    == StoredNodeKind::Directory {
                    1int
                } else {
                    0
                }) + (if number == new_parent && directory {
                    1int
                } else {
                    0
                })
            }
        }),
{
    let entry = before.entry(parent, name)->0;
    let replaced = before.entry(new_parent, new_name);
    let first = without_entry_at(before, parent, name);
    let second = without_entry_at(first, new_parent, new_name);
    lemma_without_entry_at(before, parent, name);
    lemma_without_entry_at(first, new_parent, new_name);
    lemma_smaller_counts(first, before, parent, name, entry, number);
    if replaced is Some {
        assert(first.entry(new_parent, new_name) == replaced);
        lemma_smaller_counts(second, first, new_parent, new_name, replaced->0, number);
    } else {
        assert forall|p: u64, n: Seq<u8>| (#[trigger] second.entry(p, n)) == first.entry(p, n) by {
            if (p, n) == (new_parent, new_name) {
                assert(before.entry(p, n) == first.entry(p, n));
            } else {
                assert(first.entry(p, n) == second.entry(p, n));
            }
        }
        lemma_same_entries(first, second, number);
    }
    assert forall|p: u64, n: Seq<u8>| (p, n) != (new_parent, new_name) implies (
    #[trigger] after.entry(p, n)) == second.entry(p, n) by {
        assert(first.entry(p, n) == second.entry(p, n));
        if (p, n) != (parent, name) {
            assert(before.entry(p, n) == first.entry(p, n));
        }
    }
    assert(after.entry(new_parent, new_name) == Some(entry));
    lemma_one_entry(second, after, new_parent, new_name, entry);
}

/// Renaming keeps the links counted. Left out are a name that is renamed to another name of the same
/// file, which leaves the file one name fewer with the same links, and a directory that moves into one
/// whose links are used up.
pub proof fn lemma_rename_counts_links(
    namespace: Namespace,
    write: WriteState,
    parent: u64,
    name: Seq<u8>,
    new_parent: u64,
    new_name: Seq<u8>,
    no_replace: bool,
    now: StoredTime,
    created_at: time::UtcDateTime,
    change: ChangeView,
)
    requires
        tree_sound(namespace),
        links_counted(namespace),
        rename_change(
            namespace,
            write,
            parent,
            name,
            new_parent,
            new_name,
            no_replace,
            now,
            created_at,
        ) == Ok::<ChangeView, FuseError>(change),
        (parent, name) == (new_parent, new_name) || namespace.entry(new_parent, new_name) is None
            || namespace.entry(new_parent, new_name)->0.inode != namespace.entry(
            parent,
            name,
        )->0.inode,
        namespace.entry(parent, name)->0.kind == StoredNodeKind::Directory && new_parent != parent
            && namespace.entry(new_parent, new_name) is None ==> namespace.inode(
            new_parent,
        )->0.nlink < u32::MAX,
    ensures
        links_counted(namespace.after(change.mutation)),
{
    let after = namespace.after(change.mutation);
    let found = rename_found(
        namespace,
        write,
        parent,
        name,
        new_parent,
        new_name,
        no_replace,
    )->Ok_0;
    let entry = found.entry;
    assert(entry_sound(namespace, parent, name));
    if namespace.entry(new_parent, new_name) is Some {
        assert(entry_sound(namespace, new_parent, new_name));
    }
    assert forall|p: u64, n: Seq<u8>| (#[trigger] after.entry(p, n)) == (if (p, n) == (
        new_parent,
        new_name,
    ) {
        namespace.entry(parent, name)
    } else if (p, n) == (parent, name) {
        None
    } else {
        namespace.entry(p, n)
    }) by {
        lemma_renamed_has_moved(
            namespace,
            write,
            parent,
            name,
            new_parent,
            new_name,
            no_replace,
            now,
            created_at,
            change,
            p,
            n,
        );
    }
    assert forall|m: u64| (#[trigger] after.inode(m)) is Some implies counted(after, m) by {
        lemma_renamed_inodes(
            namespace,
            write,
            parent,
            name,
            new_parent,
            new_name,
            no_replace,
            now,
            created_at,
            change,
            m,
        );
        assert(namespace.inode(m) is Some);
        assert(counted(namespace, m));
        if (parent, name) == (new_parent, new_name) {
            lemma_same_entries(namespace, after, m);
        } else {
            lemma_moved_counts(namespace, after, parent, name, new_parent, new_name, m);
        }
    }
}

/// Changing inodes without touching kinds, links and names keeps the links counted.
proof fn lemma_changed_inodes_keep_links(before: Namespace, after: Namespace)
    requires
        links_counted(before),
        forall|p: u64, n: Seq<u8>| (#[trigger] after.entry(p, n)) == before.entry(p, n),
        forall|m: u64|
            (#[trigger] after.inode(m)) is Some ==> before.inode(m) is Some && after.inode(m)->0.kind
                == before.inode(m)->0.kind && after.inode(m)->0.nlink == before.inode(m)->0.nlink,
    ensures
        links_counted(after),
{
    assert forall|m: u64| (#[trigger] after.inode(m)) is Some implies counted(after, m) by {
        assert(before.inode(m) is Some);
        assert(counted(before, m));
        lemma_same_entries(before, after, m);
    }
}

/// Storing an inode anew with its kind and its links keeps the links counted, as writing, cutting off
/// and changing attributes do.
pub proof fn lemma_stored_inode_counts_links(namespace: Namespace, number: u64, inode: InodeView)
    requires
        links_counted(namespace),
        namespace.inode(number) is Some,
        inode.kind == namespace.inode(number)->0.kind,
        inode.nlink == namespace.inode(number)->0.nlink,
    ensures
        links_counted(namespace.after(MutationView::nothing().with_inode(number, inode))),
{
    let after = namespace.after(MutationView::nothing().with_inode(number, inode));
    assert forall|m: u64| (#[trigger] after.inode(m)) is Some implies namespace.inode(m) is Some
        && after.inode(m)->0.kind == namespace.inode(m)->0.kind && after.inode(m)->0.nlink
        == namespace.inode(m)->0.nlink by {
        lemma_inode_stored(namespace, number, inode, m);
        lemma_inode_stored(namespace, number, inode, number);
    }
    assert forall|p: u64, n: Seq<u8>| (#[trigger] after.entry(p, n)) == namespace.entry(p, n) by {
        assert(after.entries == namespace.entries);
    }
    lemma_changed_inodes_keep_links(namespace, after);
}

/// Setting an extended attribute keeps the links counted.
pub proof fn lemma_attribute_setting_counts_links(
    namespace: Namespace,
    write: WriteState,
    number: u64,
    name: Seq<u8>,
    value: Seq<u8>,
    flags: i32,
    now: StoredTime,
    created_at: time::UtcDateTime,
    change: ChangeView,
)
    requires
        links_counted(namespace),
        attribute_setting(namespace, write, number, name, value, flags, now, created_at) == Ok::<
            Option<ChangeView>,
            FuseError,
        >(Some(change)),
    ensures
        links_counted(namespace.after(change.mutation)),
{
    let after = namespace.after(change.mutation);
    reveal_with_fuel(last_put, 3);
    assert forall|m: u64| (#[trigger] after.inode(m)) is Some implies namespace.inode(m) is Some
        && after.inode(m)->0.kind == namespace.inode(m)->0.kind && after.inode(m)->0.nlink
        == namespace.inode(m)->0.nlink by {
        lemma_inode_after_agrees(namespace, change.mutation, m);
    }
    assert forall|p: u64, n: Seq<u8>| (#[trigger] after.entry(p, n)) == namespace.entry(p, n) by {
        lemma_entry_after_agrees(namespace, change.mutation, p, n);
    }
    lemma_changed_inodes_keep_links(namespace, after);
}

/// Removing an extended attribute keeps the links counted.
pub proof fn lemma_attribute_removal_counts_links(
    namespace: Namespace,
    write: WriteState,
    number: u64,
    name: Seq<u8>,
    now: StoredTime,
    created_at: time::UtcDateTime,
    change: ChangeView,
)
    requires
        links_counted(namespace),
        attribute_removal(namespace, write, number, name, now, created_at) == Ok::<
            ChangeView,
            FuseError,
        >(change),
    ensures
        links_counted(namespace.after(change.mutation)),
{
    let after = namespace.after(change.mutation);
    reveal_with_fuel(last_put, 3);
    assert forall|m: u64| (#[trigger] after.inode(m)) is Some implies namespace.inode(m) is Some
        && after.inode(m)->0.kind == namespace.inode(m)->0.kind && after.inode(m)->0.nlink
        == namespace.inode(m)->0.nlink by {
        lemma_inode_after_agrees(namespace, change.mutation, m);
    }
    assert forall|p: u64, n: Seq<u8>| (#[trigger] after.entry(p, n)) == namespace.entry(p, n) by {
        lemma_entry_after_agrees(namespace, change.mutation, p, n);
    }
    lemma_changed_inodes_keep_links(namespace, after);
}

/// The links of a new filesystem are counted.
pub proof fn lemma_new_links_are_counted(uid: u32, gid: u32, now: StoredTime)
    ensures
        links_counted(initial_namespace(root_directory(uid, gid, now))),
{
    let namespace = initial_namespace(root_directory(uid, gid, now));
    assert forall|m: u64| (#[trigger] namespace.inode(m)) is Some implies counted(namespace, m) by {
        assert(places_of(namespace, m) =~= Set::empty());
        assert(subdirectories(namespace, m) =~= Set::empty());
    }
}

} // verus!
