//! How changes behave: each takes the next sequence, leaves the root directory alone, and stores regular
//! files that are new and empty or have the contents that they had, unless it is a change of contents.

use vstd::prelude::*;

use crate::changes::{
    attribute_outcome, attribute_removal, attribute_setting, entry_removal, link_creation,
    node_creation, rename_change, rename_found, symlink_creation, AttributeOutcome, ChangeView,
    InodeChange,
};
use crate::database::{Image, WriteState};
use crate::error::FuseError;
use crate::filesystem::EventSequence;
use crate::inode::{
    CreateNodeKind, CreateNodeMetadata, InodeView, SetattrMetadata, StoredNodeKind, StoredTime,
};
use crate::manifest::empty_identifier;
use crate::namespace::{last_put, lemma_inode_after_agrees, MutationView, Namespace};
use crate::numbering::{
    lemma_attribute_removal_numbered, lemma_attribute_setting_numbered, lemma_attributes_numbered,
    lemma_creation_numbered, lemma_link_numbered, lemma_removal_numbered, lemma_rename_numbered,
    lemma_resize_numbered, lemma_symlink_numbered, lemma_write_numbered, well_numbered,
};
use crate::recorded::snapshot_follows;
use crate::soundness::{rooted, same_file, well_rooted};
use crate::writes::{resize_change, write_change, ContentChange};

verus! {

/// What a change stores of an inode is no regular file, is a new and empty one, or has the contents that
/// the inode had.
pub open spec fn file_untouched(namespace: Namespace, put: (u64, InodeView)) -> bool {
    ||| put.1.kind != StoredNodeKind::RegularFile
    ||| put.1.size == 0 && put.1.content_manifest_identifier == Some(empty_identifier())
    ||| namespace.inode(put.0) is Some && same_file(namespace.inode(put.0)->0, put.1)
}

/// A change leaves the contents of all regular files as they were; those that it creates are empty.
pub open spec fn files_untouched(namespace: Namespace, mutation: MutationView) -> bool {
    forall|i: int|
        0 <= i < mutation.inode_puts.len() ==> file_untouched(
            namespace,
            #[trigger] mutation.inode_puts[i],
        )
}

/// A change takes the next sequence, gives only new numbers to new inodes and leaves the root directory
/// alone.
pub open spec fn orderly(namespace: Namespace, write: WriteState, change: ChangeView) -> bool {
    &&& write.sequence_to_give() == Ok::<EventSequence, FuseError>(change.event.sequence)
    &&& well_numbered(namespace, write, change)
    &&& well_rooted(change.mutation)
}

/// A change of names or attributes is orderly, leaves the contents of files as they were and leaves
/// true snapshots.
pub open spec fn behaved(namespace: Namespace, write: WriteState, change: ChangeView) -> bool {
    &&& orderly(namespace, write, change)
    &&& files_untouched(namespace, change.mutation)
    &&& snapshot_follows(namespace, change, None)
}

/// Storing an inode anew with its kind and its contents is orderly.
proof fn lemma_stored_inode_untouched(namespace: Namespace, number: u64, inode: InodeView)
    requires
        rooted(namespace),
        namespace.inode(number) is Some,
        inode.kind == namespace.inode(number)->0.kind,
    ensures
        well_rooted(MutationView::nothing().with_inode(number, inode)),
        same_file(namespace.inode(number)->0, inode) ==> files_untouched(
            namespace,
            MutationView::nothing().with_inode(number, inode),
        ),
{
}

/// Creating a node is behaved.
pub proof fn lemma_creation_behaves(
    namespace: Namespace,
    write: WriteState,
    parent: u64,
    name: Seq<u8>,
    kind: CreateNodeKind,
    metadata: CreateNodeMetadata,
    now: StoredTime,
    created_at: time::UtcDateTime,
    created: InodeChange,
)
    requires
        rooted(namespace),
        node_creation(namespace, write, parent, name, kind, metadata, now, created_at) == Ok::<
            InodeChange,
            FuseError,
        >(created),
    ensures
        behaved(namespace, write, created.change),
{
    let mutation = created.change.mutation;
    lemma_creation_numbered(
        namespace,
        write,
        parent,
        name,
        kind,
        metadata,
        now,
        created_at,
        created,
    );
    reveal_with_fuel(last_put, 3);
    lemma_inode_after_agrees(namespace, mutation, created.number);
    assert(created.number != parent);
    assert(mutation.inode_puts[1].0 == parent);
    assert(mutation.inode_puts.drop_last().last() == (created.number, created.inode));
}

/// Creating a symbolic link is behaved.
pub proof fn lemma_symlink_behaves(
    namespace: Namespace,
    write: WriteState,
    parent: u64,
    name: Seq<u8>,
    target: Seq<u8>,
    metadata: CreateNodeMetadata,
    now: StoredTime,
    created_at: time::UtcDateTime,
    created: InodeChange,
)
    requires
        rooted(namespace),
        symlink_creation(
            namespace,
            write,
            parent,
            name,
            target,
            metadata,
            now,
            created_at,
        ) == Ok::<InodeChange, FuseError>(created),
    ensures
        behaved(namespace, write, created.change),
{
    lemma_symlink_numbered(
        namespace,
        write,
        parent,
        name,
        target,
        metadata,
        now,
        created_at,
        created,
    );
}

/// Linking is behaved.
pub proof fn lemma_link_behaves(
    namespace: Namespace,
    write: WriteState,
    number: u64,
    new_parent: u64,
    new_name: Seq<u8>,
    now: StoredTime,
    created_at: time::UtcDateTime,
    linked: InodeChange,
)
    requires
        rooted(namespace),
        link_creation(namespace, write, number, new_parent, new_name, now, created_at) == Ok::<
            InodeChange,
            FuseError,
        >(linked),
    ensures
        behaved(namespace, write, linked.change),
{
    lemma_link_numbered(
        namespace,
        write,
        number,
        new_parent,
        new_name,
        now,
        created_at,
        linked,
    );
}

/// Removing a name is behaved.
pub proof fn lemma_removal_behaves(
    namespace: Namespace,
    write: WriteState,
    parent: u64,
    name: Seq<u8>,
    directory: bool,
    now: StoredTime,
    created_at: time::UtcDateTime,
    change: ChangeView,
)
    requires
        rooted(namespace),
        entry_removal(namespace, write, parent, name, directory, now, created_at) == Ok::<
            ChangeView,
            FuseError,
        >(change),
    ensures
        behaved(namespace, write, change),
{
    lemma_removal_numbered(
        namespace,
        write,
        parent,
        name,
        directory,
        now,
        created_at,
        change,
    );
    let number = namespace.entry(parent, name)->0.inode;
    let inode = namespace.inode(number)->0;
    let mutation = change.mutation;
    if inode.kind == StoredNodeKind::Directory || inode.nlink <= 1 {
        assert(mutation.inode_deletes =~= seq![number]);
    } else {
        assert(mutation.inode_deletes =~= seq![]);
    }
}

/// Renaming is behaved.
pub proof fn lemma_rename_behaves(
    namespace: Namespace,
    write: WriteState,
    parent: u64,
    name: Seq<u8>,
    new_parent: u64,
    new_name: Seq<u8>,
    no_replace: bool,
    now: StoredTime,
    created_at: time::UtcDateTime,
    change: ChangeView,
)
    requires
        rooted(namespace),
        rename_change(
            namespace,
            write,
            parent,
            name,
            new_parent,
            new_name,
            no_replace,
            now,
            created_at,
        ) == Ok::<ChangeView, FuseError>(change),
    ensures
        behaved(namespace, write, change),
{
    lemma_rename_numbered(
        namespace,
        write,
        parent,
        name,
        new_parent,
        new_name,
        no_replace,
        now,
        created_at,
        change,
    );
    let found = rename_found(
        namespace,
        write,
        parent,
        name,
        new_parent,
        new_name,
        no_replace,
    )->Ok_0;
    let mutation = change.mutation;
    match found.replaced {
        Some((gone, old)) => {
            assert(namespace.entry(new_parent, new_name)->0.inode == gone);
            assert(mutation.inode_deletes =~= if old.kind == StoredNodeKind::Directory || old.nlink
                <= 1 {
                seq![gone]
            } else {
                seq![]
            });
        },
        None => {
            assert(mutation.inode_deletes =~= seq![]);
        },
    }
    assert(mutation.entry_puts =~= seq![(new_parent, new_name, found.entry)]);
}

/// Changing attributes is behaved.
pub proof fn lemma_attributes_behave(
    namespace: Namespace,
    write: WriteState,
    number: u64,
    metadata: SetattrMetadata,
    now: StoredTime,
    created_at: time::UtcDateTime,
    changed: InodeChange,
)
    requires
        rooted(namespace),
        attribute_outcome(namespace, write, number, metadata, now, created_at) == Ok::<
            AttributeOutcome,
            FuseError,
        >(AttributeOutcome::Changed(changed)),
    ensures
        behaved(namespace, write, changed.change),
{
    lemma_attributes_numbered(namespace, write, number, metadata, now, created_at, changed);
    lemma_stored_inode_untouched(namespace, number, changed.inode);
}

/// Setting an extended attribute is behaved.
pub proof fn lemma_attribute_setting_behaves(
    namespace: Namespace,
    write: WriteState,
    number: u64,
    name: Seq<u8>,
    value: Seq<u8>,
    flags: i32,
    now: StoredTime,
    created_at: time::UtcDateTime,
    change: ChangeView,
)
    requires
        rooted(namespace),
        attribute_setting(namespace, write, number, name, value, flags, now, created_at) == Ok::<
            Option<ChangeView>,
            FuseError,
        >(Some(change)),
    ensures
        behaved(namespace, write, change),
{
    lemma_attribute_setting_numbered(
        namespace,
        write,
        number,
        name,
        value,
        flags,
        now,
        created_at,
        change,
    );
}

/// Removing an extended attribute is behaved.
pub proof fn lemma_attribute_removal_behaves(
    namespace: Namespace,
    write: WriteState,
    number: u64,
    name: Seq<u8>,
    now: StoredTime,
    created_at: time::UtcDateTime,
    change: ChangeView,
)
    requires
        rooted(namespace),
        attribute_removal(namespace, write, number, name, now, created_at) == Ok::<
            ChangeView,
            FuseError,
        >(change),
    ensures
        behaved(namespace, write, change),
{
    lemma_attribute_removal_numbered(namespace, write, number, name, now, created_at, change);
}

/// Writing into a file is orderly and leaves a true snapshot.
pub proof fn lemma_write_behaves(
    image: Image,
    namespace: Namespace,
    write: WriteState,
    number: u64,
    offset: u64,
    data: Seq<u8>,
    append: bool,
    clear_privileges: bool,
    now: StoredTime,
    created_at: time::UtcDateTime,
    written: ContentChange,
)
    requires
        rooted(namespace),
        write_change(
            image,
            namespace,
            write,
            number,
            offset,
            data,
            append,
            clear_privileges,
            now,
            created_at,
        ) == Ok::<ContentChange, FuseError>(written),
    ensures
        orderly(namespace, write, written.change),
        snapshot_follows(namespace, written.change, Some(written.plan.identifier)),
        written.change.mutation == MutationView::nothing().with_inode(number, written.inode),
{
    lemma_write_numbered(
        image,
        namespace,
        write,
        number,
        offset,
        data,
        append,
        clear_privileges,
        now,
        created_at,
        written,
    );
    lemma_stored_inode_untouched(namespace, number, written.inode);
    reveal_with_fuel(last_put, 2);
    lemma_inode_after_agrees(namespace, written.change.mutation, number);
}

/// Cutting a file off or growing it is orderly and leaves a true snapshot.
pub proof fn lemma_resize_behaves(
    image: Image,
    namespace: Namespace,
    write: WriteState,
    number: u64,
    inode: InodeView,
    new_size: u64,
    created_at: time::UtcDateTime,
    resized: ContentChange,
)
    requires
        rooted(namespace),
        namespace.inode(number) is Some,
        same_file(namespace.inode(number)->0, inode),
        resize_change(image, namespace, write, number, inode, new_size, created_at) == Ok::<
            Option<ContentChange>,
            FuseError,
        >(Some(resized)),
    ensures
        orderly(namespace, write, resized.change),
        snapshot_follows(namespace, resized.change, Some(resized.plan.identifier)),
        resized.change.mutation == MutationView::nothing().with_inode(number, resized.inode),
{
    lemma_resize_numbered(
        image,
        namespace,
        write,
        number,
        inode,
        new_size,
        created_at,
        resized,
    );
    lemma_stored_inode_untouched(namespace, number, resized.inode);
    reveal_with_fuel(last_put, 2);
    lemma_inode_after_agrees(namespace, resized.change.mutation, number);
}

} // verus!
