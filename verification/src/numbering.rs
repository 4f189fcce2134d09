//! Inode numbers: a new inode has a number that no state had before, so what a deleted inode leaves
//! behind in a stored state is never seen again.

use vstd::prelude::*;

use crate::bytes::has_prefix;
use crate::changes::{
    attribute_outcome, attribute_removal, attribute_setting, entry_removal, link_creation,
    node_creation, rename_change, rename_found, symlink_creation, AttributeOutcome, ChangeView,
    InodeChange,
};
use crate::database::{Image, WriteState};
use crate::error::FuseError;
use crate::hash::Blobs;
use crate::inode::{
    CreateNodeKind, CreateNodeMetadata, InodeView, SetattrMetadata, StoredNodeKind, StoredTime,
};
use crate::keys::{lemma_named_key_prefix, named_key, u64_key};
use crate::namespace::{
    last_put, lemma_inode_put, lemma_inode_removed, lemma_names_of, lists_names, names_of,
    put_named, remove_attributes_of, remove_inodes, remove_named, MutationView, Namespace,
};
use crate::naming::{
    last_named, lemma_named_key_injective, lemma_put_named_at, lemma_remove_named_at, named,
};
use crate::persist::attribute_changes;
use crate::states::{alike, changed_base, stored_after};
use crate::table::with_prefix;
use crate::writes::{resize_change, write_change, ContentChange};

verus! {

/// All inodes of a state, and all inodes to which it has extended attributes, have numbers below one.
pub open spec fn numbered(namespace: Namespace, next: u64) -> bool {
    &&& forall|number: u64| (#[trigger] namespace.inode(number)) is Some ==> number < next
    &&& forall|number: u64, name: Seq<u8>|
        (#[trigger] namespace.attribute(number, name)) is Some ==> number < next
}

/// The number that the next inode gets after a change.
pub open spec fn next_after(write: WriteState, change: ChangeView) -> u64 {
    match change.next_inode_number {
        Some(next) => next,
        None => write.next_inode_number,
    }
}

/// An inode is there and stays.
pub open spec fn stays(namespace: Namespace, mutation: MutationView, number: u64) -> bool {
    namespace.inode(number) is Some && !mutation.inode_deletes.contains(number)
}

/// A change gives only new numbers to new inodes, and extended attributes only to inodes that stay.
pub open spec fn well_numbered(
    namespace: Namespace,
    write: WriteState,
    change: ChangeView,
) -> bool {
    let mutation = change.mutation;
    &&& write.next_inode_number <= next_after(write, change)
    &&& forall|i: int|
        0 <= i < mutation.inode_puts.len() ==> {
            let number = (#[trigger] mutation.inode_puts[i]).0;
            ||| write.next_inode_number <= number < next_after(write, change)
            ||| stays(namespace, mutation, number)
        }
    &&& forall|i: int|
        0 <= i < mutation.attribute_puts.len() ==> stays(
            namespace,
            mutation,
            (#[trigger] mutation.attribute_puts[i]).0,
        )
}

proof fn lemma_last_named_of<V>(puts: Seq<(u64, Seq<u8>, V)>, number: u64, name: Seq<u8>)
    ensures
        last_named(puts, number, name) is Some ==> exists|i: int|
            0 <= i < puts.len() && (#[trigger] puts[i]).0 == number,
    decreases puts.len(),
{
    if puts.len() > 0 {
        let rest = puts.drop_last();
        lemma_last_named_of(rest, number, name);
        if last_named(puts, number, name) is Some {
            if puts.last().0 == number && puts.last().1 == name {
                assert(puts[puts.len() - 1].0 == number);
            } else {
                let i = choose|i: int| 0 <= i < rest.len() && (#[trigger] rest[i]).0 == number;
                assert(puts[i].0 == number);
            }
        }
    }
}

proof fn lemma_last_put_of(puts: Seq<(u64, InodeView)>, number: u64)
    ensures
        last_put(puts, number) is Some ==> exists|i: int|
            0 <= i < puts.len() && (#[trigger] puts[i]).0 == number,
    decreases puts.len(),
{
    if puts.len() > 0 {
        let rest = puts.drop_last();
        lemma_last_put_of(rest, number);
        if last_put(puts, number) is Some {
            if puts.last().0 == number {
                assert(puts[puts.len() - 1].0 == number);
            } else {
                let i = choose|i: int| 0 <= i < rest.len() && (#[trigger] rest[i]).0 == number;
                assert(puts[i].0 == number);
            }
        }
    }
}

/// Deleting inodes takes their extended attributes away and leaves those of the others.
pub proof fn lemma_attributes_of_deleted(
    attributes: Blobs,
    deletes: Seq<u64>,
    number: u64,
    name: Seq<u8>,
)
    ensures
        named(remove_attributes_of(attributes, deletes), number, name) == (if deletes.contains(
            number,
        ) {
            None
        } else {
            named(attributes, number, name)
        }),
    decreases deletes.len(),
{
    if deletes.len() > 0 {
        let rest = deletes.drop_last();
        let last = deletes.last();
        let key = named_key(number, name);
        lemma_attributes_of_deleted(attributes, rest, number, name);
        assert(with_prefix(u64_key(last)).contains(key) == (last == number)) by {
            if has_prefix(key, u64_key(last)) {
                lemma_named_key_prefix(last, key);
                lemma_named_key_injective(number, name, last, key.skip(8));
            }
            if last == number {
                assert(key.take(8) =~= u64_key(number));
            }
        }
        assert(deletes.contains(number) == (rest.contains(number) || last == number)) by {
            if rest.contains(number) {
                let i = choose|i: int| 0 <= i < rest.len() && rest[i] == number;
                assert(deletes[i] == number);
            }
            if last == number {
                assert(deletes[deletes.len() - 1] == number);
            }
            if deletes.contains(number) && last != number {
                let i = choose|i: int| 0 <= i < deletes.len() && deletes[i] == number;
                assert(rest[i] == number);
            }
        }
    }
}

/// Where an inode comes from after a change: it is new, or it was there and stays.
proof fn lemma_inode_after_change(
    namespace: Namespace,
    write: WriteState,
    change: ChangeView,
    number: u64,
)
    requires
        numbered(namespace, write.next_inode_number),
        well_numbered(namespace, write, change),
        namespace.after(change.mutation).inode(number) is Some,
    ensures
        number < next_after(write, change),
        number < write.next_inode_number ==> stays(namespace, change.mutation, number),
{
    let mutation = change.mutation;
    lemma_inode_removed(namespace.inodes, mutation.inode_deletes, number);
    lemma_inode_put(
        remove_inodes(namespace.inodes, mutation.inode_deletes),
        mutation.inode_puts,
        number,
    );
    lemma_last_put_of(mutation.inode_puts, number);
    assert(namespace.inode(number) is Some ==> number < write.next_inode_number);
    if last_put(mutation.inode_puts, number) is Some {
        let i = choose|i: int|
            0 <= i < mutation.inode_puts.len() && (#[trigger] mutation.inode_puts[i]).0 == number;
        assert(stays(namespace, mutation, number) || write.next_inode_number <= number < next_after(
            write,
            change,
        ));
    }
}

/// What a change makes of the extended attributes of a base.
spec fn attributes_after(base: Blobs, mutation: MutationView) -> Blobs {
    put_named(remove_named(base, mutation.attribute_deletes), mutation.attribute_puts)
}

proof fn lemma_attribute_after_change(
    base: Blobs,
    mutation: MutationView,
    number: u64,
    name: Seq<u8>,
)
    ensures
        named(attributes_after(base, mutation), number, name) == (match last_named(
            mutation.attribute_puts,
            number,
            name,
        ) {
            Some(value) => Some(value),
            None => if mutation.attribute_deletes.contains((number, name)) {
                None
            } else {
                named(base, number, name)
            },
        }),
{
    lemma_remove_named_at(base, mutation.attribute_deletes, number, name);
    lemma_put_named_at(
        remove_named(base, mutation.attribute_deletes),
        mutation.attribute_puts,
        number,
        name,
    );
}

proof fn lemma_attribute_below(
    base: Blobs,
    namespace: Namespace,
    write: WriteState,
    change: ChangeView,
    number: u64,
    name: Seq<u8>,
)
    requires
        numbered(namespace, write.next_inode_number),
        well_numbered(namespace, write, change),
        named(base, number, name) is Some ==> number < write.next_inode_number,
        named(attributes_after(base, change.mutation), number, name) is Some,
    ensures
        number < write.next_inode_number,
{
    let mutation = change.mutation;
    lemma_attribute_after_change(base, mutation, number, name);
    lemma_last_named_of(mutation.attribute_puts, number, name);
    if last_named(mutation.attribute_puts, number, name) is Some {
        let i = choose|i: int|
            0 <= i < mutation.attribute_puts.len() && (#[trigger] mutation.attribute_puts[i]).0
                == number;
        assert(stays(namespace, mutation, number));
        assert(namespace.inode(number) is Some);
    }
}

/// States that show the same list the same extended attributes of every inode that is there.
pub proof fn lemma_alike_lists_same(
    stored: Namespace,
    seen: Namespace,
    number: u64,
    names: Seq<Seq<u8>>,
)
    requires
        alike(stored, seen),
        seen.inode(number) is Some,
        lists_names(names, seen.attributes, number),
    ensures
        names_of(stored.attributes, number) == names,
        names_of(seen.attributes, number) == names,
{
    assert forall|i: int| 0 <= i < names.len() implies stored.attributes.contains_key(
        named_key(number, #[trigger] names[i]),
    ) by {
        assert(seen.attribute(number, names[i]) is Some);
    }
    assert forall|name: Seq<u8>|
        stored.attributes.contains_key(#[trigger] named_key(number, name)) implies names.contains(
        name,
    ) by {
        assert(stored.attribute(number, name) is Some);
        assert(seen.attribute(number, name) is Some);
    }
    lemma_names_of(names, stored.attributes, number);
    lemma_names_of(names, seen.attributes, number);
}

/// A stored state that is like the one in memory stays like it under a change that gives new numbers to
/// new inodes.
pub proof fn lemma_change_keeps_alike(
    stored: Namespace,
    seen: Namespace,
    write: WriteState,
    change: ChangeView,
)
    requires
        alike(stored, seen),
        numbered(stored, write.next_inode_number),
        numbered(seen, write.next_inode_number),
        well_numbered(seen, write, change),
    ensures
        alike(stored_after(stored, seen, change.mutation), seen.after(change.mutation)),
        numbered(stored_after(stored, seen, change.mutation), next_after(write, change)),
        numbered(seen.after(change.mutation), next_after(write, change)),
{
    let mutation = change.mutation;
    let base = changed_base(stored.attributes, seen.attributes, attribute_changes(mutation));
    let trimmed = remove_attributes_of(seen.attributes, mutation.inode_deletes);
    let held = stored_after(stored, seen, mutation);
    let after = seen.after(mutation);
    assert(held.attributes == attributes_after(base, mutation));
    assert(after.attributes == attributes_after(trimmed, mutation));
    assert forall|number: u64, name: Seq<u8>| #[trigger] named(base, number, name) is Some implies
        number < write.next_inode_number by {
        assert(named(stored.attributes, number, name) == stored.attribute(number, name));
        assert(named(seen.attributes, number, name) == seen.attribute(number, name));
    }
    assert forall|number: u64, name: Seq<u8>|
        #[trigger] named(trimmed, number, name) is Some implies number
        < write.next_inode_number by {
        lemma_attributes_of_deleted(seen.attributes, mutation.inode_deletes, number, name);
        assert(named(seen.attributes, number, name) == seen.attribute(number, name));
    }
    assert forall|number: u64| (#[trigger] after.inode(number)) is Some implies number
        < next_after(write, change) by {
        lemma_inode_after_change(seen, write, change, number);
    }
    assert forall|number: u64, name: Seq<u8>|
        (#[trigger] held.attribute(number, name)) is Some implies number < next_after(
        write,
        change,
    ) by {
        assert(named(held.attributes, number, name) == held.attribute(number, name));
        lemma_attribute_below(base, seen, write, change, number, name);
    }
    assert forall|number: u64, name: Seq<u8>|
        (#[trigger] after.attribute(number, name)) is Some implies number < next_after(
        write,
        change,
    ) by {
        assert(named(after.attributes, number, name) == after.attribute(number, name));
        lemma_attribute_below(trimmed, seen, write, change, number, name);
    }
    assert forall|number: u64| (#[trigger] held.inode(number)) is Some implies number
        < next_after(write, change) by {
        assert(held.inode(number) == after.inode(number));
    }
    assert forall|number: u64, name: Seq<u8>|
        after.inode(number) is Some implies #[trigger] held.attribute(number, name)
        == after.attribute(number, name) by {
        lemma_inode_after_change(seen, write, change, number);
        assert(named(held.attributes, number, name) == held.attribute(number, name));
        assert(named(after.attributes, number, name) == after.attribute(number, name));
        if number >= write.next_inode_number {
            if held.attribute(number, name) is Some {
                lemma_attribute_below(base, seen, write, change, number, name);
            }
            if after.attribute(number, name) is Some {
                lemma_attribute_below(trimmed, seen, write, change, number, name);
            }
        } else {
            assert(seen.inode(number) is Some);
            assert(stored.attribute(number, name) == seen.attribute(number, name));
            assert(named(stored.attributes, number, name) == stored.attribute(number, name));
            assert(named(seen.attributes, number, name) == seen.attribute(number, name));
            lemma_attributes_of_deleted(seen.attributes, mutation.inode_deletes, number, name);
            lemma_attribute_after_change(base, mutation, number, name);
            lemma_attribute_after_change(trimmed, mutation, number, name);
        }
    }
}

/// Storing an inode that is there anew gives no new number.
proof fn lemma_stored_inode_numbered(
    namespace: Namespace,
    write: WriteState,
    change: ChangeView,
    number: u64,
    inode: InodeView,
)
    requires
        namespace.inode(number) is Some,
        change.mutation == MutationView::nothing().with_inode(number, inode),
        change.next_inode_number is None,
    ensures
        well_numbered(namespace, write, change),
{
    assert(!change.mutation.inode_deletes.contains(number));
}

/// Creating a node gives it a new number.
pub proof fn lemma_creation_numbered(
    namespace: Namespace,
    write: WriteState,
    parent: u64,
    name: Seq<u8>,
    kind: CreateNodeKind,
    metadata: CreateNodeMetadata,
    now: StoredTime,
    created_at: time::UtcDateTime,
    created: InodeChange,
)
    requires
        node_creation(namespace, write, parent, name, kind, metadata, now, created_at) == Ok::<
            InodeChange,
            FuseError,
        >(created),
    ensures
        well_numbered(namespace, write, created.change),
{
    assert(!created.change.mutation.inode_deletes.contains(parent));
}

/// Creating a symbolic link gives it a new number.
pub proof fn lemma_symlink_numbered(
    namespace: Namespace,
    write: WriteState,
    parent: u64,
    name: Seq<u8>,
    target: Seq<u8>,
    metadata: CreateNodeMetadata,
    now: StoredTime,
    created_at: time::UtcDateTime,
    created: InodeChange,
)
    requires
        symlink_creation(
            namespace,
            write,
            parent,
            name,
            target,
            metadata,
            now,
            created_at,
        ) == Ok::<InodeChange, FuseError>(created),
    ensures
        well_numbered(namespace, write, created.change),
{
    assert(!created.change.mutation.inode_deletes.contains(parent));
}

/// Linking gives no new number.
pub proof fn lemma_link_numbered(
    namespace: Namespace,
    write: WriteState,
    number: u64,
    new_parent: u64,
    new_name: Seq<u8>,
    now: StoredTime,
    created_at: time::UtcDateTime,
    linked: InodeChange,
)
    requires
        link_creation(namespace, write, number, new_parent, new_name, now, created_at) == Ok::<
            InodeChange,
            FuseError,
        >(linked),
    ensures
        well_numbered(namespace, write, linked.change),
{
    assert(!linked.change.mutation.inode_deletes.contains(number));
    assert(!linked.change.mutation.inode_deletes.contains(new_parent));
}

/// Removing a name gives no new number.
pub proof fn lemma_removal_numbered(
    namespace: Namespace,
    write: WriteState,
    parent: u64,
    name: Seq<u8>,
    directory: bool,
    now: StoredTime,
    created_at: time::UtcDateTime,
    change: ChangeView,
)
    requires
        entry_removal(namespace, write, parent, name, directory, now, created_at) == Ok::<
            ChangeView,
            FuseError,
        >(change),
    ensures
        well_numbered(namespace, write, change),
{
    let number = namespace.entry(parent, name)->0.inode;
    let inode = namespace.inode(number)->0;
    let mutation = change.mutation;
    assert(number != parent) by {
        if number == parent {
            assert(namespace.empty_directory(number));
            assert(!namespace.entries.contains_key(named_key(number, name)));
        }
    }
    if inode.kind == StoredNodeKind::Directory || inode.nlink <= 1 {
        assert(mutation.inode_deletes =~= seq![number]);
    } else {
        assert(mutation.inode_deletes =~= seq![]);
    }
    assert(stays(namespace, mutation, parent));
}

/// Renaming gives no new number.
pub proof fn lemma_rename_numbered(
    namespace: Namespace,
    write: WriteState,
    parent: u64,
    name: Seq<u8>,
    new_parent: u64,
    new_name: Seq<u8>,
    no_replace: bool,
    now: StoredTime,
    created_at: time::UtcDateTime,
    change: ChangeView,
)
    requires
        rename_change(
            namespace,
            write,
            parent,
            name,
            new_parent,
            new_name,
            no_replace,
            now,
            created_at,
        ) == Ok::<ChangeView, FuseError>(change),
    ensures
        well_numbered(namespace, write, change),
{
    let found = rename_found(
        namespace,
        write,
        parent,
        name,
        new_parent,
        new_name,
        no_replace,
    )->Ok_0;
    let mutation = change.mutation;
    match found.replaced {
        Some((gone, old)) => {
            if old.kind == StoredNodeKind::Directory {
                assert(namespace.empty_directory(gone));
                assert(!namespace.entries.contains_key(named_key(gone, name)));
                assert(!namespace.entries.contains_key(named_key(gone, new_name)));
            }
            assert(gone != parent && gone != new_parent && gone != found.entry.inode);
            assert(mutation.inode_deletes =~= if old.kind == StoredNodeKind::Directory || old.nlink
                <= 1 {
                seq![gone]
            } else {
                seq![]
            });
        },
        None => {
            assert(mutation.inode_deletes =~= seq![]);
        },
    }
    assert(stays(namespace, mutation, parent));
    assert(stays(namespace, mutation, new_parent));
    assert(stays(namespace, mutation, found.entry.inode));
}

/// Changing attributes gives no new number.
pub proof fn lemma_attributes_numbered(
    namespace: Namespace,
    write: WriteState,
    number: u64,
    metadata: SetattrMetadata,
    now: StoredTime,
    created_at: time::UtcDateTime,
    changed: InodeChange,
)
    requires
        attribute_outcome(namespace, write, number, metadata, now, created_at) == Ok::<
            AttributeOutcome,
            FuseError,
        >(AttributeOutcome::Changed(changed)),
    ensures
        well_numbered(namespace, write, changed.change),
{
    lemma_stored_inode_numbered(namespace, write, changed.change, number, changed.inode);
}

/// Setting an extended attribute gives no new number.
pub proof fn lemma_attribute_setting_numbered(
    namespace: Namespace,
    write: WriteState,
    number: u64,
    name: Seq<u8>,
    value: Seq<u8>,
    flags: i32,
    now: StoredTime,
    created_at: time::UtcDateTime,
    change: ChangeView,
)
    requires
        attribute_setting(namespace, write, number, name, value, flags, now, created_at) == Ok::<
            Option<ChangeView>,
            FuseError,
        >(Some(change)),
    ensures
        well_numbered(namespace, write, change),
{
    assert(!change.mutation.inode_deletes.contains(number));
}

/// Removing an extended attribute gives no new number.
pub proof fn lemma_attribute_removal_numbered(
    namespace: Namespace,
    write: WriteState,
    number: u64,
    name: Seq<u8>,
    now: StoredTime,
    created_at: time::UtcDateTime,
    change: ChangeView,
)
    requires
        attribute_removal(namespace, write, number, name, now, created_at) == Ok::<
            ChangeView,
            FuseError,
        >(change),
    ensures
        well_numbered(namespace, write, change),
{
    assert(!change.mutation.inode_deletes.contains(number));
}

/// Writing into a file gives no new number.
pub proof fn lemma_write_numbered(
    image: Image,
    namespace: Namespace,
    write: WriteState,
    number: u64,
    offset: u64,
    data: Seq<u8>,
    append: bool,
    clear_privileges: bool,
    now: StoredTime,
    created_at: time::UtcDateTime,
    written: ContentChange,
)
    requires
        write_change(
            image,
            namespace,
            write,
            number,
            offset,
            data,
            append,
            clear_privileges,
            now,
            created_at,
        ) == Ok::<ContentChange, FuseError>(written),
    ensures
        well_numbered(namespace, write, written.change),
{
    lemma_stored_inode_numbered(namespace, write, written.change, number, written.inode);
}

/// Cutting a file off or growing it gives no new number.
pub proof fn lemma_resize_numbered(
    image: Image,
    namespace: Namespace,
    write: WriteState,
    number: u64,
    inode: InodeView,
    new_size: u64,
    created_at: time::UtcDateTime,
    resized: ContentChange,
)
    requires
        namespace.inode(number) is Some,
        resize_change(image, namespace, write, number, inode, new_size, created_at) == Ok::<
            Option<ContentChange>,
            FuseError,
        >(Some(resized)),
    ensures
        well_numbered(namespace, write, resized.change),
{
    lemma_stored_inode_numbered(namespace, write, resized.change, number, resized.inode);
}

} // verus!
