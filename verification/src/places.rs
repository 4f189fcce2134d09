//! Where things are: every directory stands under its own name in its parent, every name lies in a
//! directory and tells the kind of what it stands for. So a path leads to what it is the path of, and
//! the double dot of a directory is the directory that holds its name.

use vstd::prelude::*;

use crate::branches::{branch_at, BranchCreation};
use crate::changes::{
    entry_removal, link_creation, node_creation, rename_change, rename_found, symlink_creation,
    ChangeView, InodeChange,
};
use crate::commit::{next_position, ActiveView, PayloadExtents};
use crate::database::{BatchView, Image, WriteState};
use crate::durability::{contents_only, lemma_commit_rows, lemma_put_one_row, persisted};
use crate::error::FuseError;
use crate::files::{lemma_store_grows, uncollided};
use crate::filesystem::BranchPosition;
use crate::history::root_of;
use crate::inode::{
    CreateNodeKind, CreateNodeMetadata, InodeView, StoredDirectoryEntry, StoredNodeKind, StoredTime,
    INODE_ROOT,
};
use crate::keys::{lemma_u64_key_injective, named_key, pair_key};
use crate::namespace::{last_put, lemma_inode_after_agrees, MutationView, Namespace};
use crate::naming::{
    last_named, lemma_entry_after_agrees, lemma_renamed_has_moved, lemma_renamed_inodes,
};
use crate::numbering::{next_after, numbered, well_numbered};
use crate::opening::{initial_namespace, initial_rows, opened, root_directory};
use crate::persist::stored_state;
use crate::roots::{head_filed, head_of, roots_filed};
use crate::soundness::rooted;
use crate::storage::{PreparedView, StorageView};
use crate::timeline::{lemma_kept_state_stays, lemma_state_is_recorded};
use crate::trie::TriePlan;

verus! {

/// A directory other than the root stands under its own name in its parent, which is another
/// directory.
pub open spec fn directory_placed(namespace: Namespace, number: u64) -> bool {
    let inode = namespace.inode(number);
    inode is Some && inode->0.kind == StoredNodeKind::Directory && number != INODE_ROOT ==> {
        &&& inode->0.parent != number
        &&& namespace.entry(inode->0.parent, inode->0.name) == Some(
            StoredDirectoryEntry { inode: number, kind: StoredNodeKind::Directory },
        )
    }
}

/// A name lies in a directory, is not empty and holds no slash. It stands for an inode of its kind that
/// has a number that was given; where that is a directory, it is there and knows its parent and name.
pub open spec fn entry_placed(
    namespace: Namespace,
    next: u64,
    parent: u64,
    name: Seq<u8>,
) -> bool {
    let entry = namespace.entry(parent, name);
    entry is Some ==> {
        let inode = namespace.inode(entry->0.inode);
        &&& namespace.inode(parent) is Some
        &&& namespace.inode(parent)->0.kind == StoredNodeKind::Directory
        &&& name.len() > 0
        &&& !name.contains(47)
        &&& entry->0.inode < next
        &&& entry->0.inode != INODE_ROOT
        &&& inode is Some ==> inode->0.kind == entry->0.kind
        &&& entry->0.kind == StoredNodeKind::Directory ==> inode is Some && inode->0.parent == parent
            && inode->0.name == name
    }
}

/// All directories and names of a state are in their places.
pub open spec fn well_placed(namespace: Namespace, next: u64) -> bool {
    &&& forall|number: u64| #[trigger] directory_placed(namespace, number)
    &&& forall|parent: u64, name: Seq<u8>| #[trigger] entry_placed(namespace, next, parent, name)
}

/// Two inodes are of one kind and have the same parent and name.
pub open spec fn same_place(before: Option<InodeView>, after: Option<InodeView>) -> bool {
    match (before, after) {
        (Some(old), Some(new)) => new.kind == old.kind && new.parent == old.parent && new.name
            == old.name,
        (None, None) => true,
        _ => false,
    }
}

/// Changing inodes without touching kinds, parents and names keeps everything in its place.
proof fn lemma_inodes_stay_placed(before: Namespace, after: Namespace, next: u64)
    requires
        well_placed(before, next),
        forall|p: u64, n: Seq<u8>| (#[trigger] after.entry(p, n)) == before.entry(p, n),
        forall|m: u64| same_place(before.inode(m), #[trigger] after.inode(m)),
    ensures
        well_placed(after, next),
{
    assert forall|number: u64| #[trigger] directory_placed(after, number) by {
        assert(directory_placed(before, number));
        assert(same_place(before.inode(number), after.inode(number)));
    }
    assert forall|parent: u64, name: Seq<u8>| #[trigger]
        entry_placed(after, next, parent, name) by {
        assert(entry_placed(before, next, parent, name));
        if after.entry(parent, name) is Some {
            assert(same_place(before.inode(parent), after.inode(parent)));
            let number = after.entry(parent, name)->0.inode;
            assert(same_place(before.inode(number), after.inode(number)));
        }
    }
}

/// A new name for a new inode, or for one that is no directory, keeps everything in its place.
proof fn lemma_added_stays_placed(
    before: Namespace,
    after: Namespace,
    parent: u64,
    name: Seq<u8>,
    entry: StoredDirectoryEntry,
    next: u64,
    more: u64,
)
    requires
        well_placed(before, next),
        next <= more,
        before.entry(parent, name) is None,
        before.inode(parent) is Some,
        before.inode(parent)->0.kind == StoredNodeKind::Directory,
        name.len() > 0,
        !name.contains(47),
        entry.inode != INODE_ROOT,
        entry.inode < more,
        entry.inode != parent,
        forall|p: u64, n: Seq<u8>|
            (#[trigger] after.entry(p, n)) == (if (p, n) == (parent, name) {
                Some(entry)
            } else {
                before.entry(p, n)
            }),
        forall|m: u64|
            m != entry.inode ==> same_place(before.inode(m), #[trigger] after.inode(m)),
        after.inode(entry.inode) is Some,
        after.inode(entry.inode)->0.kind == entry.kind,
        before.inode(entry.inode) is None && entry.inode >= next && after.inode(
            entry.inode,
        )->0.parent == parent && after.inode(entry.inode)->0.name == name || (entry.kind
            != StoredNodeKind::Directory && same_place(
            before.inode(entry.inode),
            after.inode(entry.inode),
        )),
    ensures
        well_placed(after, more),
{
    assert forall|number: u64| #[trigger] directory_placed(after, number) by {
        assert(directory_placed(before, number));
        if number != entry.inode {
            assert(same_place(before.inode(number), after.inode(number)));
        }
    }
    assert forall|p: u64, n: Seq<u8>| #[trigger] entry_placed(after, more, p, n) by {
        assert(entry_placed(before, next, p, n));
        if (p, n) != (parent, name) && after.entry(p, n) is Some {
            assert(p != entry.inode || before.inode(p) is Some);
            assert(same_place(before.inode(p), after.inode(p))) by {
                if p == entry.inode {
                    assert(before.inode(p) is Some);
                }
            }
            let number = after.entry(p, n)->0.inode;
            assert(same_place(before.inode(number), after.inode(number)));
        }
        if (p, n) == (parent, name) {
            assert(same_place(before.inode(parent), after.inode(parent)));
        }
    }
}

/// Creating a node keeps everything in its place.
pub proof fn lemma_creation_stays_placed(
    namespace: Namespace,
    write: WriteState,
    parent: u64,
    name: Seq<u8>,
    kind: CreateNodeKind,
    metadata: CreateNodeMetadata,
    now: StoredTime,
    created_at: time::UtcDateTime,
    created: InodeChange,
)
    requires
        well_placed(namespace, write.next_inode_number),
        node_creation(namespace, write, parent, name, kind, metadata, now, created_at) == Ok::<
            InodeChange,
            FuseError,
        >(created),
    ensures
        well_placed(
            namespace.after(created.change.mutation),
            created.change.next_inode_number->0,
        ),
        created.change.next_inode_number is Some,
{
    let mutation = created.change.mutation;
    let entry = StoredDirectoryEntry { inode: created.number, kind: created.inode.kind };
    assert(mutation.entry_puts =~= seq![(parent, name, entry)]);
    lemma_created(namespace, mutation, parent, name, created.number, created.inode, entry);
    lemma_added_stays_placed(
        namespace,
        namespace.after(mutation),
        parent,
        name,
        entry,
        write.next_inode_number,
        (write.next_inode_number + 1) as u64,
    );
}

/// What a change makes of a state that stores a new inode, its name and its directory.
proof fn lemma_created(
    namespace: Namespace,
    mutation: MutationView,
    parent: u64,
    name: Seq<u8>,
    number: u64,
    inode: InodeView,
    entry: StoredDirectoryEntry,
)
    requires
        number != parent,
        namespace.inode(parent) is Some,
        mutation.inode_deletes.len() == 0,
        mutation.entry_deletes.len() == 0,
        mutation.entry_puts == seq![(parent, name, entry)],
        mutation.inode_puts.len() == 2,
        mutation.inode_puts[0] == (number, inode),
        mutation.inode_puts[1].0 == parent,
        same_place(namespace.inode(parent), Some(mutation.inode_puts[1].1)),
    ensures
        ({
            let after = namespace.after(mutation);
            &&& after.inode(number) == Some(inode)
            &&& after.inode(parent) == Some(mutation.inode_puts[1].1)
            &&& forall|p: u64, n: Seq<u8>|
                (#[trigger] after.entry(p, n)) == (if (p, n) == (parent, name) {
                    Some(entry)
                } else {
                    namespace.entry(p, n)
                })
            &&& forall|m: u64|
                m != number ==> same_place(namespace.inode(m), #[trigger] after.inode(m))
        }),
{
    let after = namespace.after(mutation);
    reveal_with_fuel(last_named, 3);
    reveal_with_fuel(last_put, 4);
    lemma_inode_after_agrees(namespace, mutation, number);
    lemma_inode_after_agrees(namespace, mutation, parent);
    assert forall|m: u64| m != number implies same_place(
        namespace.inode(m),
        #[trigger] after.inode(m),
    ) by {
        lemma_inode_after_agrees(namespace, mutation, m);
    }
    assert forall|p: u64, n: Seq<u8>|
        (#[trigger] after.entry(p, n)) == (if (p, n) == (parent, name) {
            Some(entry)
        } else {
            namespace.entry(p, n)
        }) by {
        lemma_entry_after_agrees(namespace, mutation, p, n);
    }
}

/// Creating a symbolic link keeps everything in its place.
pub proof fn lemma_symlink_stays_placed(
    namespace: Namespace,
    write: WriteState,
    parent: u64,
    name: Seq<u8>,
    target: Seq<u8>,
    metadata: CreateNodeMetadata,
    now: StoredTime,
    created_at: time::UtcDateTime,
    created: InodeChange,
)
    requires
        well_placed(namespace, write.next_inode_number),
        symlink_creation(
            namespace,
            write,
            parent,
            name,
            target,
            metadata,
            now,
            created_at,
        ) == Ok::<InodeChange, FuseError>(created),
    ensures
        well_placed(
            namespace.after(created.change.mutation),
            created.change.next_inode_number->0,
        ),
        created.change.next_inode_number is Some,
{
    let mutation = created.change.mutation;
    let entry = StoredDirectoryEntry { inode: created.number, kind: StoredNodeKind::Symlink };
    assert(mutation.entry_puts =~= seq![(parent, name, entry)]);
    lemma_created(namespace, mutation, parent, name, created.number, created.inode, entry);
    lemma_added_stays_placed(
        namespace,
        namespace.after(mutation),
        parent,
        name,
        entry,
        write.next_inode_number,
        (write.next_inode_number + 1) as u64,
    );
}

/// Linking keeps everything in its place.
pub proof fn lemma_link_stays_placed(
    namespace: Namespace,
    write: WriteState,
    number: u64,
    new_parent: u64,
    new_name: Seq<u8>,
    now: StoredTime,
    created_at: time::UtcDateTime,
    linked: InodeChange,
)
    requires
        rooted(namespace),
        numbered(namespace, write.next_inode_number),
        well_placed(namespace, write.next_inode_number),
        link_creation(namespace, write, number, new_parent, new_name, now, created_at) == Ok::<
            InodeChange,
            FuseError,
        >(linked),
    ensures
        well_placed(namespace.after(linked.change.mutation), write.next_inode_number),
{
    let mutation = linked.change.mutation;
    let entry = StoredDirectoryEntry { inode: number, kind: linked.inode.kind };
    assert(mutation.entry_puts =~= seq![(new_parent, new_name, entry)]);
    assert(namespace.inode(number) is Some);
    lemma_created(namespace, mutation, new_parent, new_name, number, linked.inode, entry);
    lemma_added_stays_placed(
        namespace,
        namespace.after(mutation),
        new_parent,
        new_name,
        entry,
        write.next_inode_number,
        write.next_inode_number,
    );
}

/// What removing a name makes of a state.
proof fn lemma_removed(
    namespace: Namespace,
    write: WriteState,
    parent: u64,
    name: Seq<u8>,
    directory: bool,
    now: StoredTime,
    created_at: time::UtcDateTime,
    change: ChangeView,
)
    requires
        entry_removal(namespace, write, parent, name, directory, now, created_at) == Ok::<
            ChangeView,
            FuseError,
        >(change),
    ensures
        ({
            let after = namespace.after(change.mutation);
            let number = namespace.entry(parent, name)->0.inode;
            let inode = namespace.inode(number)->0;
            let gone = inode.kind == StoredNodeKind::Directory || inode.nlink <= 1;
            &&& number != parent
            &&& forall|p: u64, n: Seq<u8>|
                (#[trigger] after.entry(p, n)) == (if (p, n) == (parent, name) {
                    None
                } else {
                    namespace.entry(p, n)
                })
            &&& forall|m: u64|
                !(m == number && gone) ==> same_place(
                    namespace.inode(m),
                    #[trigger] after.inode(m),
                )
            &&& gone ==> after.inode(number) is None
        }),
{
    let mutation = change.mutation;
    let after = namespace.after(mutation);
    let number = namespace.entry(parent, name)->0.inode;
    let inode = namespace.inode(number)->0;
    let gone = inode.kind == StoredNodeKind::Directory || inode.nlink <= 1;
    assert(number != parent) by {
        if number == parent {
            assert(namespace.empty_directory(number));
            assert(!namespace.entries.contains_key(named_key(number, name)));
        }
    }
    assert(mutation.entry_deletes =~= seq![(parent, name)]);
    assert(mutation.entry_deletes[0] == (parent, name));
    assert(mutation.inode_deletes =~= if gone {
        seq![number]
    } else {
        seq![]
    });
    if gone {
        assert(mutation.inode_deletes[0] == number);
    }
    reveal_with_fuel(last_named, 2);
    reveal_with_fuel(last_put, 4);
    lemma_inode_after_agrees(namespace, mutation, number);
    assert forall|m: u64| !(m == number && gone) implies same_place(
        namespace.inode(m),
        #[trigger] after.inode(m),
    ) by {
        if m != number && mutation.inode_deletes.contains(m) {
            let i = choose|i: int|
                0 <= i < mutation.inode_deletes.len() && mutation.inode_deletes[i] == m;
        }
        lemma_inode_after_agrees(namespace, mutation, m);
    }
    assert forall|p: u64, n: Seq<u8>|
        (#[trigger] after.entry(p, n)) == (if (p, n) == (parent, name) {
            None
        } else {
            namespace.entry(p, n)
        }) by {
        lemma_entry_after_agrees(namespace, mutation, p, n);
    }
}

/// Removing a name keeps everything else in its place.
pub proof fn lemma_removal_stays_placed(
    namespace: Namespace,
    write: WriteState,
    parent: u64,
    name: Seq<u8>,
    directory: bool,
    now: StoredTime,
    created_at: time::UtcDateTime,
    change: ChangeView,
)
    requires
        well_placed(namespace, write.next_inode_number),
        entry_removal(namespace, write, parent, name, directory, now, created_at) == Ok::<
            ChangeView,
            FuseError,
        >(change),
    ensures
        well_placed(namespace.after(change.mutation), write.next_inode_number),
{
    let next = write.next_inode_number;
    let after = namespace.after(change.mutation);
    let number = namespace.entry(parent, name)->0.inode;
    let inode = namespace.inode(number)->0;
    let gone = inode.kind == StoredNodeKind::Directory || inode.nlink <= 1;
    lemma_removed(namespace, write, parent, name, directory, now, created_at, change);
    assert(entry_placed(namespace, next, parent, name));
    assert forall|other: u64| #[trigger] directory_placed(after, other) by {
        assert(directory_placed(namespace, other));
        if !(other == number && gone) {
            assert(same_place(namespace.inode(other), after.inode(other)));
        }
    }
    assert forall|p: u64, n: Seq<u8>| #[trigger] entry_placed(after, next, p, n) by {
        assert(entry_placed(namespace, next, p, n));
        if after.entry(p, n) is Some {
            if p == number && gone {
                assert(namespace.inode(p)->0.kind == StoredNodeKind::Directory);
                assert(namespace.empty_directory(number));
                assert(!namespace.entries.contains_key(named_key(number, n)));
            }
            assert(same_place(namespace.inode(p), after.inode(p)));
            let other = after.entry(p, n)->0.inode;
            if !(other == number && gone) {
                assert(same_place(namespace.inode(other), after.inode(other)));
            }
        }
    }
}

/// Renaming keeps everything in its place.
#[verifier::spinoff_prover]
pub proof fn lemma_rename_stays_placed(
    namespace: Namespace,
    write: WriteState,
    parent: u64,
    name: Seq<u8>,
    new_parent: u64,
    new_name: Seq<u8>,
    no_replace: bool,
    now: StoredTime,
    created_at: time::UtcDateTime,
    change: ChangeView,
)
    requires
        well_placed(namespace, write.next_inode_number),
        rename_change(
            namespace,
            write,
            parent,
            name,
            new_parent,
            new_name,
            no_replace,
            now,
            created_at,
        ) == Ok::<ChangeView, FuseError>(change),
    ensures
        well_placed(namespace.after(change.mutation), write.next_inode_number),
{
    let next = write.next_inode_number;
    let after = namespace.after(change.mutation);
    let found = rename_found(
        namespace,
        write,
        parent,
        name,
        new_parent,
        new_name,
        no_replace,
    )->Ok_0;
    let entry = found.entry;
    let old_place = (parent, name);
    let new_place = (new_parent, new_name);
    let moved = entry.inode;
    let target = namespace.entry(new_parent, new_name);
    assert(entry_placed(namespace, next, parent, name));
    assert(entry_placed(namespace, next, new_parent, new_name));
    assert(directory_placed(namespace, moved));
    assert(moved != new_parent) by {
        if moved == new_parent {
            assert(namespace.inode(new_parent)->0.kind == StoredNodeKind::Directory);
        }
    }
    assert(moved != parent);
    assert forall|p: u64, n: Seq<u8>|
        (#[trigger] after.entry(p, n)) == (if (p, n) == new_place {
            Some(entry)
        } else if (p, n) == old_place {
            None
        } else {
            namespace.entry(p, n)
        }) by {
        lemma_renamed_has_moved(
            namespace,
            write,
            parent,
            name,
            new_parent,
            new_name,
            no_replace,
            now,
            created_at,
            change,
            p,
            n,
        );
    }
    let replaced = found.replaced;
    let lost = replaced is Some && ((replaced->0).1.kind == StoredNodeKind::Directory || (
    replaced->0).1.nlink <= 1);
    lemma_renamed_inodes(
        namespace,
        write,
        parent,
        name,
        new_parent,
        new_name,
        no_replace,
        now,
        created_at,
        change,
        moved,
    );
    assert forall|m: u64| m != moved && !(lost && m == (replaced->0).0) implies same_place(
        namespace.inode(m),
        #[trigger] after.inode(m),
    ) by {
        lemma_renamed_inodes(
            namespace,
            write,
            parent,
            name,
            new_parent,
            new_name,
            no_replace,
            now,
            created_at,
            change,
            m,
        );
    }
    if lost {
        lemma_renamed_inodes(
            namespace,
            write,
            parent,
            name,
            new_parent,
            new_name,
            no_replace,
            now,
            created_at,
            change,
            (replaced->0).0,
        );
    }
    assert forall|other: u64| #[trigger] directory_placed(after, other) by {
        assert(directory_placed(namespace, other));
        if other != moved && !(lost && other == (replaced->0).0) {
            assert(same_place(namespace.inode(other), after.inode(other)));
        }
    }
    assert forall|p: u64, n: Seq<u8>| #[trigger] entry_placed(after, next, p, n) by {
        assert(entry_placed(namespace, next, p, n));
        if after.entry(p, n) is Some {
            if lost && p == (replaced->0).0 {
                assert(namespace.inode(p)->0.kind == StoredNodeKind::Directory);
                assert(namespace.empty_directory(p));
                assert(!namespace.entries.contains_key(named_key(p, n)));
            }
            if p == moved {
                assert(after.inode(p)->0.kind == StoredNodeKind::Directory);
            } else {
                assert(same_place(namespace.inode(p), after.inode(p)));
            }
            let other = after.entry(p, n)->0.inode;
            if other != moved && !(lost && other == (replaced->0).0) {
                assert(same_place(namespace.inode(other), after.inode(other)));
            }
        }
    }
}

/// Storing an inode anew with its kind, parent and name keeps everything in its place.
pub proof fn lemma_stored_inode_stays_placed(
    namespace: Namespace,
    next: u64,
    mutation: MutationView,
    number: u64,
    inode: InodeView,
)
    requires
        well_placed(namespace, next),
        same_place(namespace.inode(number), Some(inode)),
        mutation.inode_deletes.len() == 0,
        mutation.entry_deletes.len() == 0,
        mutation.entry_puts.len() == 0,
        mutation.inode_puts == seq![(number, inode)],
    ensures
        well_placed(namespace.after(mutation), next),
{
    let after = namespace.after(mutation);
    reveal_with_fuel(last_put, 2);
    assert forall|m: u64| same_place(namespace.inode(m), #[trigger] after.inode(m)) by {
        lemma_inode_after_agrees(namespace, mutation, m);
    }
    assert forall|p: u64, n: Seq<u8>| (#[trigger] after.entry(p, n)) == namespace.entry(p, n) by {
        lemma_entry_after_agrees(namespace, mutation, p, n);
    }
    lemma_inodes_stay_placed(namespace, after, next);
}

/// More numbers that were given keep everything in its place.
pub proof fn lemma_more_numbers_stay_placed(namespace: Namespace, next: u64, more: u64)
    requires
        well_placed(namespace, next),
        next <= more,
    ensures
        well_placed(namespace, more),
{
    assert forall|p: u64, n: Seq<u8>| #[trigger] entry_placed(namespace, more, p, n) by {
        assert(entry_placed(namespace, next, p, n));
    }
}

/// States with the same inodes and names are in place alike.
pub proof fn lemma_alike_placed(one: Namespace, other: Namespace, next: u64)
    requires
        well_placed(one, next),
        other.inodes == one.inodes,
        other.entries == one.entries,
    ensures
        well_placed(other, next),
{
    assert forall|m: u64| same_place(one.inode(m), #[trigger] other.inode(m)) by {}
    assert forall|p: u64, n: Seq<u8>| (#[trigger] other.entry(p, n)) == one.entry(p, n) by {}
    lemma_inodes_stay_placed(one, other, next);
}

/// In a new filesystem everything is in its place.
pub proof fn lemma_new_state_is_placed(uid: u32, gid: u32, now: StoredTime, next: u64)
    ensures
        well_placed(initial_namespace(root_directory(uid, gid, now)), next),
{
    let namespace = initial_namespace(root_directory(uid, gid, now));
    assert forall|number: u64| #[trigger] directory_placed(namespace, number) by {
        lemma_u64_key_injective(number, INODE_ROOT);
    }
}

/// A state is stored under a name, with everything in its place.
pub open spec fn stored_placed(image: Image, name: Seq<u8>, next: u64) -> bool {
    let state = stored_state(image.nodes, name);
    state is Some && well_placed(state->0, next)
}

/// In the state in memory and in all stored states everything is in its place.
#[verifier::opaque]
pub open spec fn all_placed(storage: StorageView) -> bool {
    let next = storage.write.next_inode_number;
    &&& well_placed(storage.namespace(), next)
    &&& forall|key: Seq<u8>| #[trigger]
        storage.image.branch_roots.contains_key(key) && storage.image.branch_roots[key] is Some
            ==> stored_placed(
            storage.image,
            storage.image.branch_roots[key]->0.namespace_identifier,
            next,
        )
}

/// A change leaves everything in its place.
pub open spec fn keeps_places(
    namespace: Namespace,
    write: WriteState,
    change: ChangeView,
) -> bool {
    well_placed(namespace.after(change.mutation), next_after(write, change))
}

/// A commit of a change that leaves everything in its place keeps all states in place.
#[verifier::spinoff_prover]
pub proof fn lemma_commit_keeps_places(
    storage: StorageView,
    change: ChangeView,
    rows: BatchView,
    payload: PayloadExtents,
    manifest: Option<Seq<u8>>,
    prepared: PreparedView,
)
    requires
        persisted(storage),
        all_placed(storage),
        storage.prepare(change, rows, payload, manifest) == Ok::<PreparedView, FuseError>(prepared),
        contents_only(rows),
        storage.stores_state(change.mutation),
        well_numbered(storage.namespace(), storage.write, change),
        uncollided(storage.image.nodes, prepared.batch.nodes),
        keeps_places(storage.namespace(), storage.write, change),
    ensures
        all_placed(storage.after(prepared)),
{
    reveal(all_placed);
    let before = storage.image;
    let after = storage.after(prepared);
    let later = after.image;
    let next = storage.write.next_inode_number;
    let more = next_after(storage.write, change);
    lemma_commit_rows(storage, change, rows, payload, manifest, prepared);
    lemma_store_grows(before.nodes, prepared.batch.nodes);
    lemma_state_is_recorded(storage, change, rows, payload, manifest, prepared);
    let position = next_position(storage.active);
    let new_key = pair_key(position.branch_identifier.0, position.ordinal);
    let root = root_of(later, position)->0;
    let recorded = stored_state(later.nodes, root.namespace_identifier)->0;
    lemma_alike_placed(after.namespace(), recorded, more);
    assert(stored_placed(later, root.namespace_identifier, more));
    lemma_put_one_row(before.branch_roots, new_key, prepared.batch.branch_roots[0].1);
    assert forall|key: Seq<u8>| #[trigger]
        later.branch_roots.contains_key(key) && later.branch_roots[key] is Some implies stored_placed(
        later,
        later.branch_roots[key]->0.namespace_identifier,
        more,
    ) by {
        if key != new_key {
            assert(before.branch_roots.contains_key(key));
            let name = before.branch_roots[key]->0.namespace_identifier;
            assert(stored_placed(before, name, next));
            lemma_kept_state_stays(before, later.nodes, name, next);
            lemma_more_numbers_stay_placed(stored_state(before.nodes, name)->0, next, more);
        }
    }
}

/// States stay in place where their tables do and each is one of those before.
proof fn lemma_places_stay(before: StorageView, after: StorageView)
    requires
        all_placed(before),
        after.image.nodes == before.image.nodes,
        after.write.next_inode_number == before.write.next_inode_number,
        well_placed(after.namespace(), before.write.next_inode_number),
        forall|key: Seq<u8>| #[trigger]
            after.image.branch_roots.contains_key(key) && after.image.branch_roots[key] is Some
                ==> stored_placed(
                before.image,
                after.image.branch_roots[key]->0.namespace_identifier,
                before.write.next_inode_number,
            ),
    ensures
        all_placed(after),
{
    reveal(all_placed);
    assert forall|key: Seq<u8>| #[trigger]
        after.image.branch_roots.contains_key(key) && after.image.branch_roots[key] is Some implies
        stored_placed(
        after.image,
        after.image.branch_roots[key]->0.namespace_identifier,
        after.write.next_inode_number,
    ) by {
        assert(stored_placed(
            before.image,
            after.image.branch_roots[key]->0.namespace_identifier,
            before.write.next_inode_number,
        ));
    }
}

/// Creating a branch keeps all states in place.
pub proof fn lemma_creation_keeps_places(
    storage: StorageView,
    name: Seq<char>,
    from: BranchPosition,
    creation: BranchCreation,
)
    requires
        all_placed(storage),
        storage.branch_creation(name, from) == Some(creation),
    ensures
        all_placed(storage.after_creation(creation)),
{
    reveal(all_placed);
    let before = storage.image;
    let after = storage.after_creation(creation);
    let root = root_of(before, from)->0;
    let key = pair_key(creation.branch.identifier, from.ordinal);
    lemma_put_one_row(before.branch_roots, key, root);
    assert(after.image.nodes == before.nodes);
    assert(before.branch_roots.contains_key(pair_key(from.branch_identifier.0, from.ordinal)));
    assert forall|other: Seq<u8>| #[trigger]
        after.image.branch_roots.contains_key(other) && after.image.branch_roots[other] is Some implies
        stored_placed(
        before,
        after.image.branch_roots[other]->0.namespace_identifier,
        storage.write.next_inode_number,
    ) by {
        if other != key {
            assert(before.branch_roots.contains_key(other));
        }
    }
    lemma_places_stay(storage, after);
}

/// Making a branch active keeps all states in place.
pub proof fn lemma_switch_keeps_places(
    storage: StorageView,
    name: Seq<char>,
    number: u64,
    active: ActiveView,
)
    requires
        all_placed(storage),
        roots_filed(storage.image),
        storage.branch_switch(name) == Some((number, active)),
    ensures
        all_placed(storage.after_switch(StorageView::switch_rows(number), number, active)),
{
    reveal(all_placed);
    let after = storage.after_switch(StorageView::switch_rows(number), number, active);
    let head = head_of(branch_at(storage.image, number)->0);
    assert(head_filed(storage.image, number));
    assert(storage.image.branch_roots.contains_key(
        pair_key(head.branch_identifier.0, head.ordinal),
    ));
    assert(after.image.branch_roots == storage.image.branch_roots);
    assert(after.image.nodes == storage.image.nodes);
    assert forall|key: Seq<u8>| #[trigger]
        after.image.branch_roots.contains_key(key) && after.image.branch_roots[key] is Some implies
        stored_placed(
        storage.image,
        after.image.branch_roots[key]->0.namespace_identifier,
        storage.write.next_inode_number,
    ) by {
        assert(storage.image.branch_roots.contains_key(key));
    }
    lemma_places_stay(storage, after);
}

/// Deleting a branch keeps all states in place.
pub proof fn lemma_deletion_keeps_places(storage: StorageView, name: Seq<char>, batch: BatchView)
    requires
        all_placed(storage),
        storage.branch_deletion(name) == Some(batch),
    ensures
        all_placed(storage.after_deletion(batch)),
{
    reveal(all_placed);
    let after = storage.after_deletion(batch);
    assert(after.image.branch_roots == storage.image.branch_roots);
    assert(after.image.nodes == storage.image.nodes);
    assert forall|key: Seq<u8>| #[trigger]
        after.image.branch_roots.contains_key(key) && after.image.branch_roots[key] is Some implies
        stored_placed(
        storage.image,
        after.image.branch_roots[key]->0.namespace_identifier,
        storage.write.next_inode_number,
    ) by {
        assert(storage.image.branch_roots.contains_key(key));
    }
    lemma_places_stay(storage, after);
}

/// Opening what was written out keeps all states in place.
pub proof fn lemma_reopening_keeps_places(storage: StorageView)
    requires
        persisted(storage),
        all_placed(storage),
    ensures
        all_placed(opened(storage.image)->0),
{
    reveal(all_placed);
    lemma_alike_placed(
        storage.namespace(),
        opened(storage.image)->0.namespace(),
        storage.write.next_inode_number,
    );
}

/// In a new filesystem all states are in place.
pub proof fn lemma_new_filesystem_is_placed(
    storage: StorageView,
    plan: TriePlan,
    uid: u32,
    gid: u32,
    now: StoredTime,
    created_at: time::UtcDateTime,
)
    requires
        ({
            let root = root_directory(uid, gid, now);
            &&& storage.image == Image::nothing().after(initial_rows(plan, root, created_at))
            &&& storage.namespace() == initial_namespace(root)
            &&& stored_state(storage.image.nodes, plan.identifier) == Some(initial_namespace(root))
        }),
    ensures
        all_placed(storage),
{
    reveal(all_placed);
    let root = root_directory(uid, gid, now);
    lemma_new_state_is_placed(uid, gid, now, storage.write.next_inode_number);
    lemma_put_one_row(
        Image::nothing().branch_roots,
        pair_key(crate::branches::BRANCH_IDENTIFIER_INITIAL, 0),
        initial_rows(plan, root, created_at).branch_roots[0].1,
    );
}

} // verus!
