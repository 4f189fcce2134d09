//! The operations on a filesystem and what all of them keep: a consistent filesystem stays consistent
//! under every operation, under creating, deleting and switching branches, and when it is opened again.

use vstd::prelude::*;

use crate::behaviour::{
    behaved, lemma_attribute_removal_behaves, lemma_attribute_setting_behaves,
    lemma_attributes_behave, lemma_creation_behaves, lemma_link_behaves, lemma_removal_behaves,
    lemma_rename_behaves, lemma_resize_behaves, lemma_symlink_behaves, lemma_write_behaves, orderly,
};
use crate::branches::BranchCreation;
use crate::changes::{
    attribute_outcome, attribute_removal, attribute_setting, entry_removal, inode_of, link_creation,
    node_creation, rename_change, symlink_creation, AttributeOutcome, ChangeView,
};
use crate::commit::{payload_manifests, ActiveView, PayloadExtents};
use crate::counters::{
    counted, lemma_commit_keeps_count, lemma_creation_keeps_count, lemma_deletion_keeps_count,
    lemma_new_filesystem_is_counted, lemma_switch_keeps_count,
};
use crate::database::{BatchView, Image, WriteState};
use crate::durability::{
    contents_only, lemma_branch_creation_persists, lemma_branch_deletion_persists,
    lemma_branch_switch_persists, lemma_commit_persists, lemma_commit_rows,
    lemma_new_filesystem_opens, lemma_reopening_persists, persisted,
};
use crate::edit::all_sound;
use crate::error::FuseError;
use crate::extents::{data_cuts, is_partition};
use crate::files::{
    lemma_resize_keeps_bytes, lemma_write_is_read_back, names_agree, sound_file, stocked,
    uncollided,
};
use crate::filesystem::BranchPosition;
use crate::indexes::{
    indexed, lemma_branch_creation_keeps_indexes, lemma_branch_deletion_keeps_indexes,
    lemma_branch_switch_keeps_indexes, lemma_commit_keeps_indexes, lemma_new_filesystem_is_indexed,
};
use crate::inode::{
    CreateNodeKind, CreateNodeMetadata, InodeView, SetattrMetadata, StoredNodeKind, StoredTime,
};
use crate::manifest::Manifest;
use crate::namespace::{MutationView, Namespace};
use crate::numbering::numbered;
use crate::opening::{initial_namespace, initial_rows, opened, root_directory};
use crate::persist::{encodable, state_plan};
use crate::places::{
    all_placed, keeps_places, lemma_commit_keeps_places, lemma_creation_keeps_places,
    lemma_creation_stays_placed, lemma_deletion_keeps_places, lemma_link_stays_placed,
    lemma_new_filesystem_is_placed, lemma_removal_stays_placed, lemma_rename_stays_placed,
    lemma_reopening_keeps_places, lemma_stored_inode_stays_placed, lemma_switch_keeps_places,
    lemma_symlink_stays_placed, same_place, well_placed,
};
use crate::recorded::{
    lemma_commit_keeps_snapshots, lemma_creation_keeps_snapshots, lemma_deletion_keeps_snapshots,
    lemma_new_filesystem_has_snapshots_filed, lemma_switch_keeps_snapshots, snapshot_follows,
    snapshots_filed,
};
use crate::roots::{
    lemma_commit_keeps_roots, lemma_creation_keeps_roots, lemma_deletion_keeps_roots,
    lemma_new_filesystem_has_roots, lemma_switch_keeps_roots, rooted_branches,
};
use crate::soundness::{
    all_sound_states, files_follow, files_sound, lemma_commit_keeps_states,
    lemma_creation_keeps_states, lemma_deletion_keeps_states, lemma_new_filesystem_has_sound_states,
    lemma_reopening_keeps_states, lemma_switch_keeps_states, rooted, same_file,
};
use crate::storage::{PreparedView, StorageView};
use crate::trie::{node_puts, nodes_sound};
use crate::writes::{resize_change, write_change, ContentChange};

verus! {

/// A filesystem and its tables agree: opening the tables gives the filesystem, the indexes, counters and
/// branches are in order, every state has a root directory and sound files and holds everything in its
/// place, and every snapshot is what its state has of the file.
#[verifier::opaque]
pub open spec fn consistent(storage: StorageView) -> bool {
    &&& persisted(storage)
    &&& indexed(storage)
    &&& counted(storage)
    &&& rooted_branches(storage)
    &&& all_sound_states(storage)
    &&& snapshots_filed(storage.image)
    &&& all_placed(storage)
}

/// An operation that changes the state of the active branch.
pub ghost enum Operation {
    CreateNode {
        parent: u64,
        name: Seq<u8>,
        kind: CreateNodeKind,
        metadata: CreateNodeMetadata,
    },
    CreateSymlink {
        parent: u64,
        name: Seq<u8>,
        target: Seq<u8>,
        metadata: CreateNodeMetadata,
    },
    HardLink { number: u64, new_parent: u64, new_name: Seq<u8> },
    RemoveEntry { parent: u64, name: Seq<u8>, directory: bool },
    Rename {
        parent: u64,
        name: Seq<u8>,
        new_parent: u64,
        new_name: Seq<u8>,
        no_replace: bool,
    },
    SetAttributes { number: u64, attributes: SetattrMetadata },
    SetExtendedAttribute { number: u64, name: Seq<u8>, value: Seq<u8>, flags: i32 },
    RemoveExtendedAttribute { number: u64, name: Seq<u8> },
    OpenTruncating { number: u64 },
    Write {
        number: u64,
        offset: u64,
        data: Seq<u8>,
        append: bool,
        clear_privileges: bool,
    },
}

/// A planned change: its event and mutation, the rows and payload that come with it, the manifest that
/// its snapshot gets, and the manifests that it stores.
pub ghost struct Planned {
    pub change: ChangeView,
    pub rows: BatchView,
    pub payload: PayloadExtents,
    pub manifest: Option<Seq<u8>>,
    pub manifests: Seq<Manifest>,
}

impl Planned {
    /// A change of names or attributes.
    pub open spec fn of_change(change: ChangeView) -> Planned {
        Planned {
            change,
            rows: BatchView::nothing(),
            payload: PayloadExtents::Nothing,
            manifest: None,
            manifests: Seq::empty(),
        }
    }

    /// A change of file contents.
    pub open spec fn of_content(content: ContentChange) -> Planned {
        Planned {
            change: content.change,
            rows: content.rows,
            payload: content.payload,
            manifest: Some(content.plan.identifier),
            manifests: content.plan.nodes + payload_manifests(
                content.change.event,
                content.payload,
            ),
        }
    }
}

/// The change of the size of a file that is planned, if there is one.
pub open spec fn planned_resize(
    storage: StorageView,
    number: u64,
    inode: InodeView,
    new_size: u64,
    created_at: time::UtcDateTime,
) -> Option<Planned> {
    match resize_change(
        storage.image,
        storage.namespace(),
        storage.write,
        number,
        inode,
        new_size,
        created_at,
    ) {
        Ok(Some(content)) => Some(Planned::of_content(content)),
        _ => None,
    }
}

/// The change that an operation plans; `None` where it is refused or changes nothing.
pub open spec fn planned(
    storage: StorageView,
    operation: Operation,
    now: StoredTime,
    created_at: time::UtcDateTime,
) -> Option<Planned> {
    let namespace = storage.namespace();
    let write = storage.write;
    match operation {
        Operation::CreateNode { parent, name, kind, metadata } => match node_creation(
            namespace,
            write,
            parent,
            name,
            kind,
            metadata,
            now,
            created_at,
        ) {
            Ok(created) => Some(Planned::of_change(created.change)),
            Err(_) => None,
        },
        Operation::CreateSymlink { parent, name, target, metadata } => match symlink_creation(
            namespace,
            write,
            parent,
            name,
            target,
            metadata,
            now,
            created_at,
        ) {
            Ok(created) => Some(Planned::of_change(created.change)),
            Err(_) => None,
        },
        Operation::HardLink { number, new_parent, new_name } => match link_creation(
            namespace,
            write,
            number,
            new_parent,
            new_name,
            now,
            created_at,
        ) {
            Ok(linked) => Some(Planned::of_change(linked.change)),
            Err(_) => None,
        },
        Operation::RemoveEntry { parent, name, directory } => match entry_removal(
            namespace,
            write,
            parent,
            name,
            directory,
            now,
            created_at,
        ) {
            Ok(change) => Some(Planned::of_change(change)),
            Err(_) => None,
        },
        Operation::Rename { parent, name, new_parent, new_name, no_replace } => match rename_change(
            namespace,
            write,
            parent,
            name,
            new_parent,
            new_name,
            no_replace,
            now,
            created_at,
        ) {
            Ok(change) => Some(Planned::of_change(change)),
            Err(_) => None,
        },
        Operation::SetAttributes { number, attributes } => match attribute_outcome(
            namespace,
            write,
            number,
            attributes,
            now,
            created_at,
        ) {
            Ok(AttributeOutcome::Changed(changed)) => Some(Planned::of_change(changed.change)),
            Ok(AttributeOutcome::Resized(inode, size)) => planned_resize(
                storage,
                number,
                inode,
                size,
                created_at,
            ),
            _ => None,
        },
        Operation::SetExtendedAttribute { number, name, value, flags } => match attribute_setting(
            namespace,
            write,
            number,
            name,
            value,
            flags,
            now,
            created_at,
        ) {
            Ok(Some(change)) => Some(Planned::of_change(change)),
            _ => None,
        },
        Operation::RemoveExtendedAttribute { number, name } => match attribute_removal(
            namespace,
            write,
            number,
            name,
            now,
            created_at,
        ) {
            Ok(change) => Some(Planned::of_change(change)),
            Err(_) => None,
        },
        Operation::OpenTruncating { number } => match inode_of(namespace, number) {
            Ok(inode) => if inode.kind == StoredNodeKind::RegularFile && inode.size != 0 {
                planned_resize(storage, number, inode.touched(now), 0, created_at)
            } else {
                None
            },
            Err(_) => None,
        },
        Operation::Write { number, offset, data, append, clear_privileges } => match write_change(
            storage.image,
            namespace,
            write,
            number,
            offset,
            data,
            append,
            clear_privileges,
            now,
            created_at,
        ) {
            Ok(content) => Some(Planned::of_content(content)),
            Err(_) => None,
        },
    }
}

/// The commit of a planned change; `None` where it cannot be stored.
#[verifier::opaque]
pub open spec fn commit_planned(storage: StorageView, planned: Planned) -> Option<PreparedView> {
    match storage.prepare(planned.change, planned.rows, planned.payload, planned.manifest) {
        Ok(prepared) => Some(prepared),
        Err(_) => None,
    }
}

/// No two contents that meet in a commit share a hash, and what it stores decodes back.
#[verifier::opaque]
pub open spec fn faithful(storage: StorageView, planned: Planned, prepared: PreparedView) -> bool {
    &&& storage.stores_state(planned.change.mutation)
    &&& uncollided(storage.image.nodes, prepared.batch.nodes)
    &&& names_agree(storage.image, prepared.batch)
    &&& all_sound(planned.manifests)
}

/// The data of a write is cut into pieces that make it up.
pub open spec fn cut_fully(operation: Operation) -> bool {
    operation matches Operation::Write { data, .. } ==> data.len() > 0 ==> is_partition(
        data_cuts(data),
        data.len() as int,
    )
}

/// What every commit has to keep for the filesystem to stay consistent.
proof fn lemma_commit_keeps_consistent(
    storage: StorageView,
    planned: Planned,
    prepared: PreparedView,
)
    requires
        consistent(storage),
        commit_planned(storage, planned) == Some(prepared),
        contents_only(planned.rows),
        faithful(storage, planned, prepared),
        orderly(storage.namespace(), storage.write, planned.change),
        snapshot_follows(storage.namespace(), planned.change, planned.manifest),
        keeps_places(storage.namespace(), storage.write, planned.change),
        storage.image.manifests.submap_of(storage.after(prepared).image.manifests),
        storage.image.chunks.submap_of(storage.after(prepared).image.chunks),
        stocked(
            storage.after(prepared).image.manifests,
            storage.after(prepared).image.chunks,
        ),
        files_follow(
            storage.namespace(),
            planned.change.mutation,
            storage.after(prepared).image,
            planned.change.event.sequence.0 as nat,
        ),
    ensures
        consistent(storage.after(prepared)),
{
    reveal(commit_planned);
    reveal(faithful);
    reveal(consistent);
    let (change, rows, payload, manifest) = (
        planned.change,
        planned.rows,
        planned.payload,
        planned.manifest,
    );
    lemma_commit_persists(storage, change, rows, payload, manifest, prepared);
    lemma_commit_keeps_indexes(storage, change, rows, payload, manifest, prepared);
    lemma_commit_keeps_count(storage, change, rows, payload, manifest, prepared);
    lemma_commit_keeps_roots(storage, change, rows, payload, manifest, prepared);
    lemma_commit_keeps_states(storage, change, rows, payload, manifest, prepared);
    lemma_commit_keeps_snapshots(storage, change, rows, payload, manifest, prepared);
    lemma_commit_keeps_places(storage, change, rows, payload, manifest, prepared);
}

/// A change of names or attributes keeps a filesystem consistent.
proof fn lemma_plain_change_keeps_consistent(
    storage: StorageView,
    change: ChangeView,
    prepared: PreparedView,
)
    requires
        consistent(storage),
        commit_planned(storage, Planned::of_change(change)) == Some(prepared),
        faithful(storage, Planned::of_change(change), prepared),
        behaved(storage.namespace(), storage.write, change),
        keeps_places(storage.namespace(), storage.write, change),
    ensures
        consistent(storage.after(prepared)),
{
    reveal(commit_planned);
    reveal(faithful);
    reveal(consistent);
    let planned = Planned::of_change(change);
    let after = storage.after(prepared).image;
    lemma_commit_rows(
        storage,
        change,
        planned.rows,
        planned.payload,
        planned.manifest,
        prepared,
    );
    assert(prepared.batch.manifests =~= Seq::<(Seq<u8>, Seq<u8>)>::empty());
    assert(prepared.batch.chunks =~= Seq::<(Seq<u8>, Seq<u8>)>::empty());
    assert(after.manifests == storage.image.manifests);
    assert(after.chunks == storage.image.chunks);
    lemma_commit_keeps_consistent(storage, planned, prepared);
}

pub proof fn lemma_parts_sound(content: ContentChange)
    requires
        all_sound(Planned::of_content(content).manifests),
    ensures
        crate::storage::content_sound(content),
{
    let paid = payload_manifests(content.change.event, content.payload);
    let all = content.plan.nodes + paid;
    assert forall|i: int| 0 <= i < content.plan.nodes.len() implies crate::edit::sound(
        #[trigger] content.plan.nodes[i],
    ) by {
        assert(all[i] == content.plan.nodes[i]);
    }
    assert forall|i: int| 0 <= i < paid.len() implies crate::edit::sound(#[trigger] paid[i]) by {
        assert(all[content.plan.nodes.len() + i] == paid[i]);
    }
}

/// A change of the size of a file keeps a filesystem consistent.
proof fn lemma_resize_keeps_consistent(
    storage: StorageView,
    number: u64,
    inode: InodeView,
    new_size: u64,
    created_at: time::UtcDateTime,
    content: ContentChange,
    prepared: PreparedView,
)
    requires
        consistent(storage),
        storage.namespace().inode(number) is Some,
        same_file(storage.namespace().inode(number)->0, inode),
        same_place(storage.namespace().inode(number), Some(inode)),
        resize_change(
            storage.image,
            storage.namespace(),
            storage.write,
            number,
            inode,
            new_size,
            created_at,
        ) == Ok::<Option<ContentChange>, FuseError>(Some(content)),
        commit_planned(storage, Planned::of_content(content)) == Some(prepared),
        faithful(storage, Planned::of_content(content), prepared),
    ensures
        consistent(storage.after(prepared)),
{
    let levels = storage.write.last_event_sequence as nat;
    assert(rooted(storage.namespace()) && stocked(storage.image.manifests, storage.image.chunks)
        && files_sound(storage.image, storage.namespace(), levels)) by {
        reveal(consistent);
    }
    lemma_resize_behaves(
        storage.image,
        storage.namespace(),
        storage.write,
        number,
        inode,
        new_size,
        created_at,
        content,
    );
    assert(crate::storage::content_sound(content)) by {
        reveal(faithful);
        lemma_parts_sound(content);
    }
    assert(names_agree(storage.image, prepared.batch)) by {
        reveal(faithful);
    }
    assert(storage.prepare_content(content) == Ok::<PreparedView, FuseError>(prepared)) by {
        reveal(commit_planned);
    }
    lemma_resize_keeps_bytes(
        storage,
        number,
        inode,
        new_size,
        created_at,
        crate::storage::answer_of(number, content.inode),
        prepared,
        levels,
    );
    lemma_content_commit_keeps_consistent(storage, number, content, prepared);
}

/// What an operation plans is a change of file contents, or a behaved change of names or attributes.
pub proof fn lemma_operation_behaves(
    storage: StorageView,
    operation: Operation,
    now: StoredTime,
    created_at: time::UtcDateTime,
)
    requires
        rooted(storage.namespace()),
        planned(storage, operation, now, created_at) is Some,
        planned(storage, operation, now, created_at)->0.manifest is None,
    ensures
        ({
            let change = planned(storage, operation, now, created_at)->0.change;
            &&& planned(storage, operation, now, created_at)->0 == Planned::of_change(change)
            &&& behaved(storage.namespace(), storage.write, change)
        }),
{
    let namespace = storage.namespace();
    let write = storage.write;
    let change = planned(storage, operation, now, created_at)->0.change;
    match operation {
        Operation::CreateNode { parent, name, kind, metadata } => {
            let created = node_creation(
                namespace,
                write,
                parent,
                name,
                kind,
                metadata,
                now,
                created_at,
            )->Ok_0;
            lemma_creation_behaves(
                namespace,
                write,
                parent,
                name,
                kind,
                metadata,
                now,
                created_at,
                created,
            );
        },
        Operation::CreateSymlink { parent, name, target, metadata } => {
            let created = symlink_creation(
                namespace,
                write,
                parent,
                name,
                target,
                metadata,
                now,
                created_at,
            )->Ok_0;
            lemma_symlink_behaves(
                namespace,
                write,
                parent,
                name,
                target,
                metadata,
                now,
                created_at,
                created,
            );
        },
        Operation::HardLink { number, new_parent, new_name } => {
            let linked = link_creation(
                namespace,
                write,
                number,
                new_parent,
                new_name,
                now,
                created_at,
            )->Ok_0;
            lemma_link_behaves(
                namespace,
                write,
                number,
                new_parent,
                new_name,
                now,
                created_at,
                linked,
            );
        },
        Operation::RemoveEntry { parent, name, directory } => {
            lemma_removal_behaves(
                namespace,
                write,
                parent,
                name,
                directory,
                now,
                created_at,
                change,
            );
        },
        Operation::Rename { parent, name, new_parent, new_name, no_replace } => {
            lemma_rename_behaves(
                namespace,
                write,
                parent,
                name,
                new_parent,
                new_name,
                no_replace,
                now,
                created_at,
                change,
            );
        },
        Operation::SetAttributes { number, attributes } => {
            match attribute_outcome(namespace, write, number, attributes, now, created_at)->Ok_0 {
                AttributeOutcome::Changed(changed) => {
                    lemma_attributes_behave(
                        namespace,
                        write,
                        number,
                        attributes,
                        now,
                        created_at,
                        changed,
                    );
                        },
                _ => {},
            }
        },
        Operation::SetExtendedAttribute { number, name, value, flags } => {
            lemma_attribute_setting_behaves(
                namespace,
                write,
                number,
                name,
                value,
                flags,
                now,
                created_at,
                change,
            );
        },
        Operation::RemoveExtendedAttribute { number, name } => {
            lemma_attribute_removal_behaves(
                namespace,
                write,
                number,
                name,
                now,
                created_at,
                change,
            );
        },
        Operation::OpenTruncating { .. } => {},
        Operation::Write { .. } => {},
    }
}

/// Whatever an operation plans is orderly.
pub proof fn lemma_operation_orderly(
    storage: StorageView,
    operation: Operation,
    now: StoredTime,
    created_at: time::UtcDateTime,
)
    requires
        rooted(storage.namespace()),
        planned(storage, operation, now, created_at) is Some,
    ensures
        orderly(
            storage.namespace(),
            storage.write,
            planned(storage, operation, now, created_at)->0.change,
        ),
{
    let namespace = storage.namespace();
    if planned(storage, operation, now, created_at)->0.manifest is None {
        lemma_operation_behaves(storage, operation, now, created_at);
    } else if operation is Write {
        lemma_write_behaves(
            storage.image,
            namespace,
            storage.write,
            operation->Write_number,
            operation->offset,
            operation->data,
            operation->append,
            operation->clear_privileges,
            now,
            created_at,
            write_change(
                storage.image,
                namespace,
                storage.write,
                operation->Write_number,
                operation->offset,
                operation->data,
                operation->append,
                operation->clear_privileges,
                now,
                created_at,
            )->Ok_0,
        );
    } else if operation is OpenTruncating {
        let number = operation->OpenTruncating_number;
        let inode = namespace.inode(number)->0.touched(now);
        lemma_planned_resize_orderly(storage, number, inode, 0, created_at);
    } else if operation is SetAttributes {
        let outcome = attribute_outcome(
            namespace,
            storage.write,
            operation->SetAttributes_number,
            operation->attributes,
            now,
            created_at,
        )->Ok_0;
        lemma_planned_resize_orderly(
            storage,
            operation->SetAttributes_number,
            outcome->Resized_0,
            outcome->Resized_1,
            created_at,
        );
    } else {
        lemma_other_operations_are_plain(storage, operation, now, created_at);
    }
}

proof fn lemma_planned_resize_orderly(
    storage: StorageView,
    number: u64,
    inode: InodeView,
    new_size: u64,
    created_at: time::UtcDateTime,
)
    requires
        rooted(storage.namespace()),
        storage.namespace().inode(number) is Some,
        same_file(storage.namespace().inode(number)->0, inode),
        planned_resize(storage, number, inode, new_size, created_at) is Some,
    ensures
        orderly(
            storage.namespace(),
            storage.write,
            planned_resize(storage, number, inode, new_size, created_at)->0.change,
        ),
{
    lemma_resize_behaves(
        storage.image,
        storage.namespace(),
        storage.write,
        number,
        inode,
        new_size,
        created_at,
        resize_change(
            storage.image,
            storage.namespace(),
            storage.write,
            number,
            inode,
            new_size,
            created_at,
        )->Ok_0->0,
    );
}

/// A change of the size of a file that an operation plans keeps a filesystem consistent.
proof fn lemma_planned_resize_keeps_consistent(
    storage: StorageView,
    number: u64,
    inode: InodeView,
    new_size: u64,
    created_at: time::UtcDateTime,
    prepared: PreparedView,
)
    requires
        consistent(storage),
        storage.namespace().inode(number) is Some,
        same_file(storage.namespace().inode(number)->0, inode),
        same_place(storage.namespace().inode(number), Some(inode)),
        planned_resize(storage, number, inode, new_size, created_at) is Some,
        ({
            let resize = planned_resize(storage, number, inode, new_size, created_at)->0;
            &&& commit_planned(storage, resize) == Some(prepared)
            &&& faithful(storage, resize, prepared)
        }),
    ensures
        consistent(storage.after(prepared)),
{
    let content = resize_change(
        storage.image,
        storage.namespace(),
        storage.write,
        number,
        inode,
        new_size,
        created_at,
    )->Ok_0->0;
    lemma_resize_keeps_consistent(
        storage,
        number,
        inode,
        new_size,
        created_at,
        content,
        prepared,
    );
}

/// A commit of what an operation plans, with no two contents that share a hash.
pub open spec fn commits(
    storage: StorageView,
    operation: Operation,
    now: StoredTime,
    created_at: time::UtcDateTime,
    prepared: PreparedView,
) -> bool {
    match planned(storage, operation, now, created_at) {
        None => false,
        Some(made) => commit_planned(storage, made) == Some(prepared) && faithful(
            storage,
            made,
            prepared,
        ),
    }
}

/// What an operation on names or attributes plans leaves everything in its place.
#[verifier::spinoff_prover]
proof fn lemma_operation_keeps_places(
    storage: StorageView,
    operation: Operation,
    now: StoredTime,
    created_at: time::UtcDateTime,
)
    requires
        consistent(storage),
        planned(storage, operation, now, created_at) is Some,
        planned(storage, operation, now, created_at)->0.manifest is None,
    ensures
        keeps_places(
            storage.namespace(),
            storage.write,
            planned(storage, operation, now, created_at)->0.change,
        ),
{
    let namespace = storage.namespace();
    let write = storage.write;
    let change = planned(storage, operation, now, created_at)->0.change;
    assert(rooted(namespace) && numbered(namespace, write.next_inode_number) && well_placed(
        namespace,
        write.next_inode_number,
    )) by {
        reveal(consistent);
        reveal(all_placed);
    }
    match operation {
        Operation::CreateNode { parent, name, kind, metadata } => {
            let created = node_creation(
                namespace,
                write,
                parent,
                name,
                kind,
                metadata,
                now,
                created_at,
            )->Ok_0;
            lemma_creation_stays_placed(
                namespace,
                write,
                parent,
                name,
                kind,
                metadata,
                now,
                created_at,
                created,
            );
        },
        Operation::CreateSymlink { parent, name, target, metadata } => {
            let created = symlink_creation(
                namespace,
                write,
                parent,
                name,
                target,
                metadata,
                now,
                created_at,
            )->Ok_0;
            lemma_symlink_stays_placed(
                namespace,
                write,
                parent,
                name,
                target,
                metadata,
                now,
                created_at,
                created,
            );
        },
        Operation::HardLink { number, new_parent, new_name } => {
            let linked = link_creation(
                namespace,
                write,
                number,
                new_parent,
                new_name,
                now,
                created_at,
            )->Ok_0;
            lemma_link_stays_placed(
                namespace,
                write,
                number,
                new_parent,
                new_name,
                now,
                created_at,
                linked,
            );
        },
        Operation::RemoveEntry { parent, name, directory } => {
            lemma_removal_stays_placed(
                namespace,
                write,
                parent,
                name,
                directory,
                now,
                created_at,
                change,
            );
        },
        Operation::Rename { parent, name, new_parent, new_name, no_replace } => {
            lemma_rename_stays_placed(
                namespace,
                write,
                parent,
                name,
                new_parent,
                new_name,
                no_replace,
                now,
                created_at,
                change,
            );
        },
        Operation::SetAttributes { number, .. } => {
            lemma_stored_one_stays_placed(namespace, write, number, change);
        },
        Operation::SetExtendedAttribute { number, .. } => {
            lemma_stored_one_stays_placed(namespace, write, number, change);
        },
        Operation::RemoveExtendedAttribute { number, .. } => {
            lemma_stored_one_stays_placed(namespace, write, number, change);
        },
        _ => {},
    }
}

proof fn lemma_stored_one_stays_placed(
    namespace: Namespace,
    write: WriteState,
    number: u64,
    change: ChangeView,
)
    requires
        well_placed(namespace, write.next_inode_number),
        change.next_inode_number is None,
        change.mutation.inode_deletes.len() == 0,
        change.mutation.entry_deletes.len() == 0,
        change.mutation.entry_puts.len() == 0,
        change.mutation.inode_puts.len() == 1,
        change.mutation.inode_puts[0].0 == number,
        same_place(namespace.inode(number), Some(change.mutation.inode_puts[0].1)),
    ensures
        keeps_places(namespace, write, change),
{
    let inode = change.mutation.inode_puts[0].1;
    assert(change.mutation.inode_puts =~= seq![(number, inode)]);
    lemma_stored_inode_stays_placed(
        namespace,
        write.next_inode_number,
        change.mutation,
        number,
        inode,
    );
}

/// An operation on names or attributes keeps a filesystem consistent.
proof fn lemma_plain_operation_keeps_consistent(
    storage: StorageView,
    operation: Operation,
    now: StoredTime,
    created_at: time::UtcDateTime,
    prepared: PreparedView,
    made: Planned,
)
    requires
        consistent(storage),
        planned(storage, operation, now, created_at) == Some(made),
        made.manifest is None,
        commit_planned(storage, made) == Some(prepared),
        faithful(storage, made, prepared),
    ensures
        consistent(storage.after(prepared)),
{
    assert(rooted(storage.namespace())) by {
        reveal(consistent);
    }
    lemma_operation_behaves(storage, operation, now, created_at);
    lemma_operation_keeps_places(storage, operation, now, created_at);
    lemma_plain_change_keeps_consistent(storage, made.change, prepared);
}

/// Changing the attributes of an inode keeps a filesystem consistent.
proof fn lemma_attributes_keep_consistent(
    storage: StorageView,
    number: u64,
    attributes: SetattrMetadata,
    now: StoredTime,
    created_at: time::UtcDateTime,
    prepared: PreparedView,
)
    requires
        consistent(storage),
        commits(
            storage,
            Operation::SetAttributes { number, attributes },
            now,
            created_at,
            prepared,
        ),
    ensures
        consistent(storage.after(prepared)),
{
    let operation = Operation::SetAttributes { number, attributes };
    let made = planned(storage, operation, now, created_at)->0;
    match attribute_outcome(
        storage.namespace(),
        storage.write,
        number,
        attributes,
        now,
        created_at,
    )->Ok_0 {
        AttributeOutcome::Resized(inode, size) => {
            lemma_planned_resize_keeps_consistent(
                storage,
                number,
                inode,
                size,
                created_at,
                prepared,
            );
        },
        _ => {
            lemma_plain_operation_keeps_consistent(
                storage,
                operation,
                now,
                created_at,
                prepared,
                made,
            );
        },
    }
}

/// Cutting a file off when it is opened keeps a filesystem consistent.
proof fn lemma_truncation_keeps_consistent(
    storage: StorageView,
    number: u64,
    now: StoredTime,
    created_at: time::UtcDateTime,
    prepared: PreparedView,
)
    requires
        consistent(storage),
        commits(storage, Operation::OpenTruncating { number }, now, created_at, prepared),
    ensures
        consistent(storage.after(prepared)),
{
    lemma_planned_resize_keeps_consistent(
        storage,
        number,
        storage.namespace().inode(number)->0.touched(now),
        0,
        created_at,
        prepared,
    );
}

/// A write keeps a filesystem consistent.
proof fn lemma_written_keeps_consistent(
    storage: StorageView,
    number: u64,
    offset: u64,
    data: Seq<u8>,
    append: bool,
    clear_privileges: bool,
    now: StoredTime,
    created_at: time::UtcDateTime,
    content: ContentChange,
    prepared: PreparedView,
)
    requires
        consistent(storage),
        write_change(
            storage.image,
            storage.namespace(),
            storage.write,
            number,
            offset,
            data,
            append,
            clear_privileges,
            now,
            created_at,
        ) == Ok::<ContentChange, FuseError>(content),
        commit_planned(storage, Planned::of_content(content)) == Some(prepared),
        faithful(storage, Planned::of_content(content), prepared),
        data.len() > 0 ==> is_partition(data_cuts(data), data.len() as int),
    ensures
        consistent(storage.after(prepared)),
{
    let planned = Planned::of_content(content);
    let levels = storage.write.last_event_sequence as nat;
    let inode = storage.namespace().inode(number)->0;
    assert(rooted(storage.namespace()) && stocked(storage.image.manifests, storage.image.chunks)
        && files_sound(storage.image, storage.namespace(), levels)) by {
        reveal(consistent);
    }
    lemma_write_behaves(
        storage.image,
        storage.namespace(),
        storage.write,
        number,
        offset,
        data,
        append,
        clear_privileges,
        now,
        created_at,
        content,
    );
    assert(crate::storage::content_sound(content)) by {
        reveal(faithful);
        lemma_parts_sound(content);
    }
    assert(names_agree(storage.image, prepared.batch)) by {
        reveal(faithful);
    }
    assert(storage.prepare_content(content) == Ok::<PreparedView, FuseError>(prepared)) by {
        reveal(commit_planned);
    }
    lemma_write_is_read_back(
        storage,
        number,
        inode,
        offset,
        data,
        append,
        clear_privileges,
        now,
        created_at,
        prepared,
        levels,
    );
    lemma_content_commit_keeps_consistent(storage, number, content, prepared);
}

/// A commit of new contents of a file that are sound keeps a filesystem consistent.
proof fn lemma_content_commit_keeps_consistent(
    storage: StorageView,
    number: u64,
    content: ContentChange,
    prepared: PreparedView,
)
    requires
        consistent(storage),
        commit_planned(storage, Planned::of_content(content)) == Some(prepared),
        faithful(storage, Planned::of_content(content), prepared),
        contents_only(content.rows),
        orderly(storage.namespace(), storage.write, content.change),
        snapshot_follows(storage.namespace(), content.change, Some(content.plan.identifier)),
        content.change.mutation == MutationView::nothing().with_inode(number, content.inode),
        content.change.next_inode_number is None,
        same_place(storage.namespace().inode(number), Some(content.inode)),
        storage.image.manifests.submap_of(storage.after(prepared).image.manifests),
        storage.image.chunks.submap_of(storage.after(prepared).image.chunks),
        stocked(
            storage.after(prepared).image.manifests,
            storage.after(prepared).image.chunks,
        ),
        sound_file(
            storage.after(prepared).image,
            storage.after(prepared).namespace().inode(number)->0,
            storage.write.last_event_sequence as nat + 1,
        ),
    ensures
        consistent(storage.after(prepared)),
{
    assert(prepared.mutation == content.change.mutation) by {
        reveal(commit_planned);
    }
    crate::files::lemma_inode_stored(storage.namespace(), number, content.inode, number);
    assert(content.change.mutation.inode_puts =~= seq![(number, content.inode)]);
    assert(well_placed(storage.namespace(), storage.write.next_inode_number)) by {
        reveal(consistent);
        reveal(all_placed);
    }
    lemma_stored_inode_stays_placed(
        storage.namespace(),
        storage.write.next_inode_number,
        content.change.mutation,
        number,
        content.inode,
    );
    lemma_commit_keeps_consistent(storage, Planned::of_content(content), prepared);
}

/// Writing keeps a filesystem consistent.
proof fn lemma_write_keeps_consistent(
    storage: StorageView,
    number: u64,
    offset: u64,
    data: Seq<u8>,
    append: bool,
    clear_privileges: bool,
    now: StoredTime,
    created_at: time::UtcDateTime,
    prepared: PreparedView,
)
    requires
        consistent(storage),
        commits(
            storage,
            Operation::Write { number, offset, data, append, clear_privileges },
            now,
            created_at,
            prepared,
        ),
        data.len() > 0 ==> is_partition(data_cuts(data), data.len() as int),
    ensures
        consistent(storage.after(prepared)),
{
    let content = write_change(
        storage.image,
        storage.namespace(),
        storage.write,
        number,
        offset,
        data,
        append,
        clear_privileges,
        now,
        created_at,
    )->Ok_0;
    lemma_written_keeps_consistent(
        storage,
        number,
        offset,
        data,
        append,
        clear_privileges,
        now,
        created_at,
        content,
        prepared,
    );
}

/// Operations other than these are on names or attributes.
proof fn lemma_other_operations_are_plain(
    storage: StorageView,
    operation: Operation,
    now: StoredTime,
    created_at: time::UtcDateTime,
)
    requires
        planned(storage, operation, now, created_at) is Some,
        !(operation is SetAttributes),
        !(operation is OpenTruncating),
        !(operation is Write),
    ensures
        planned(storage, operation, now, created_at)->0.manifest is None,
{
}

/// Every operation keeps a filesystem consistent.
pub proof fn lemma_operation_keeps_consistent(
    storage: StorageView,
    operation: Operation,
    now: StoredTime,
    created_at: time::UtcDateTime,
    prepared: PreparedView,
)
    requires
        consistent(storage),
        commits(storage, operation, now, created_at, prepared),
        cut_fully(operation),
    ensures
        consistent(storage.after(prepared)),
{
    if operation is SetAttributes {
        lemma_attributes_keep_consistent(
            storage,
            operation->SetAttributes_number,
            operation->attributes,
            now,
            created_at,
            prepared,
        );
    } else if operation is OpenTruncating {
        lemma_truncation_keeps_consistent(
            storage,
            operation->OpenTruncating_number,
            now,
            created_at,
            prepared,
        );
    } else if operation is Write {
        lemma_write_keeps_consistent(
            storage,
            operation->Write_number,
            operation->offset,
            operation->data,
            operation->append,
            operation->clear_privileges,
            now,
            created_at,
            prepared,
        );
    } else {
        lemma_other_operations_are_plain(storage, operation, now, created_at);
        lemma_plain_operation_keeps_consistent(
            storage,
            operation,
            now,
            created_at,
            prepared,
            planned(storage, operation, now, created_at)->0,
        );
    }
}

/// Creating a branch keeps a filesystem consistent.
pub proof fn lemma_creation_keeps_consistent(
    storage: StorageView,
    name: Seq<char>,
    from: BranchPosition,
    creation: BranchCreation,
)
    requires
        consistent(storage),
        name.len() > 0,
        storage.branch_creation(name, from) == Some(creation),
    ensures
        consistent(storage.after_creation(creation)),
{
    reveal(consistent);
    lemma_branch_creation_persists(storage, name, from, creation, 0);
    lemma_branch_creation_keeps_indexes(storage, name, from, creation);
    lemma_creation_keeps_count(storage, name, from, creation);
    lemma_creation_keeps_roots(storage, name, from, creation);
    lemma_creation_keeps_states(storage, name, from, creation);
    lemma_creation_keeps_snapshots(storage, name, from, creation);
    lemma_creation_keeps_places(storage, name, from, creation);
}

/// Making a branch active keeps a filesystem consistent.
pub proof fn lemma_switch_keeps_consistent(
    storage: StorageView,
    name: Seq<char>,
    number: u64,
    active: ActiveView,
)
    requires
        consistent(storage),
        storage.branch_switch(name) == Some((number, active)),
    ensures
        consistent(storage.after_switch(StorageView::switch_rows(number), number, active)),
{
    reveal(consistent);
    lemma_branch_switch_persists(storage, name, number, active);
    lemma_branch_switch_keeps_indexes(storage, name, number, active);
    lemma_switch_keeps_count(storage, number, active);
    lemma_switch_keeps_roots(storage, number, active);
    lemma_switch_keeps_states(storage, name, number, active);
    lemma_switch_keeps_snapshots(storage, number, active);
    lemma_switch_keeps_places(storage, name, number, active);
}

/// Deleting a branch keeps a filesystem consistent.
pub proof fn lemma_deletion_keeps_consistent(
    storage: StorageView,
    name: Seq<char>,
    batch: BatchView,
)
    requires
        consistent(storage),
        storage.branch_deletion(name) == Some(batch),
    ensures
        consistent(storage.after_deletion(batch)),
{
    reveal(consistent);
    lemma_branch_deletion_persists(storage, name, batch);
    lemma_branch_deletion_keeps_indexes(storage, name, batch);
    lemma_deletion_keeps_count(storage, name, batch);
    lemma_deletion_keeps_roots(storage, name, batch);
    lemma_deletion_keeps_states(storage, name, batch);
    lemma_deletion_keeps_snapshots(storage, name, batch);
    lemma_deletion_keeps_places(storage, name, batch);
}

/// Opening what was written out gives a consistent filesystem.
pub proof fn lemma_reopening_keeps_consistent(storage: StorageView)
    requires
        consistent(storage),
    ensures
        opened(storage.image) is Some,
        consistent(opened(storage.image)->0),
{
    reveal(consistent);
    lemma_reopening_persists(storage);
    lemma_reopening_keeps_states(storage);
    lemma_reopening_keeps_places(storage);
}

/// A new filesystem is consistent.
pub proof fn lemma_new_filesystem_is_consistent(
    uid: u32,
    gid: u32,
    now: StoredTime,
    created_at: time::UtcDateTime,
)
    requires
        ({
            let root = root_directory(uid, gid, now);
            let plan = state_plan(initial_namespace(root));
            &&& plan is Some
            &&& nodes_sound((plan->0).0.nodes)
            &&& encodable(initial_namespace(root))
            &&& uncollided(Map::empty(), node_puts((plan->0).0.nodes))
        }),
    ensures
        ({
            let root = root_directory(uid, gid, now);
            let plan = (state_plan(initial_namespace(root))->0).0;
            let image = Image::nothing().after(initial_rows(plan, root, created_at));
            &&& opened(image) is Some
            &&& consistent(opened(image)->0)
        }),
{
    reveal(consistent);
    let root = root_directory(uid, gid, now);
    let plan = (state_plan(initial_namespace(root))->0).0;
    let image = Image::nothing().after(initial_rows(plan, root, created_at));
    lemma_new_filesystem_opens(uid, gid, now, created_at);
    let storage = opened(image)->0;
    lemma_new_filesystem_is_indexed(storage, plan, root, created_at);
    lemma_new_filesystem_is_counted(storage, plan, root, created_at);
    lemma_new_filesystem_has_roots(storage, plan, root, created_at);
    lemma_new_filesystem_has_sound_states(storage, plan, root, created_at);
    lemma_new_filesystem_has_snapshots_filed(image, plan, root, created_at);
    lemma_new_filesystem_is_placed(storage, plan, uid, gid, now, created_at);
}

} // verus!
