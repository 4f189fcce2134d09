//! The states of a filesystem: in every state that a branch went through there is a root directory that
//! no name stands for, and every regular file is sound.

use vstd::prelude::*;

use crate::branches::BranchCreation;
use crate::changes::ChangeView;
use crate::commit::{next_position, ActiveView, PayloadExtents};
use crate::database::{BatchView, Image};
use crate::durability::{contents_only, lemma_commit_rows, lemma_put_one_row, persisted};
use crate::error::FuseError;
use crate::files::{lemma_file_kept, lemma_store_grows, sound_file, stocked, uncollided};
use crate::filesystem::BranchPosition;
use crate::history::root_of;
use crate::inode::{InodeView, StoredNodeKind, INODE_ROOT};
use crate::keys::{lemma_u64_key_injective, pair_key};
use crate::manifest::empty_identifier;
use crate::namespace::{
    last_put, lemma_inode_put, lemma_inode_removed, remove_inodes, remove_named, MutationView,
    Namespace,
};
use crate::naming::{last_named, lemma_put_named_at, lemma_remove_named_at, named};
use crate::numbering::well_numbered;
use crate::opening::{initial_namespace, initial_rows, opened};
use crate::persist::stored_state;
use crate::roots::{head_filed, head_of, roots_filed};
use crate::storage::{PreparedView, StorageView};
use crate::timeline::{lemma_kept_state_stays, lemma_state_is_recorded};
use crate::trie::TriePlan;

verus! {

/// There is a root directory, and no name stands for it.
pub open spec fn rooted(namespace: Namespace) -> bool {
    &&& namespace.inode(INODE_ROOT) is Some
    &&& namespace.inode(INODE_ROOT)->0.kind == StoredNodeKind::Directory
    &&& forall|parent: u64, name: Seq<u8>|
        (#[trigger] namespace.entry(parent, name)) is Some ==> namespace.entry(
            parent,
            name,
        )->0.inode != INODE_ROOT
}

/// Every regular file of a state is sound and at most some levels deep.
pub open spec fn files_sound(image: Image, namespace: Namespace, levels: nat) -> bool {
    forall|number: u64|
        (#[trigger] namespace.inode(number)) is Some && namespace.inode(number)->0.kind
            == StoredNodeKind::RegularFile ==> sound_file(
            image,
            namespace.inode(number)->0,
            levels,
        )
}

/// A state has a root directory and sound files.
pub open spec fn state_sound(image: Image, namespace: Namespace, levels: nat) -> bool {
    rooted(namespace) && files_sound(image, namespace, levels)
}

/// A state is stored under a name, with a root directory and sound files.
pub open spec fn stored_sound(image: Image, name: Seq<u8>, levels: nat) -> bool {
    let state = stored_state(image.nodes, name);
    state is Some && state_sound(image, state->0, levels)
}

/// All states that the branches went through have a root directory and sound files.
pub open spec fn states_sound(image: Image, levels: nat) -> bool {
    forall|key: Seq<u8>| #[trigger]
        image.branch_roots.contains_key(key) && image.branch_roots[key] is Some ==> stored_sound(
            image,
            image.branch_roots[key]->0.namespace_identifier,
            levels,
        )
}

/// The state in memory and all stored states have a root directory and sound files, of no more levels
/// than there were events after the first.
pub open spec fn all_sound_states(storage: StorageView) -> bool {
    let levels = storage.write.last_event_sequence as nat;
    &&& stocked(storage.image.manifests, storage.image.chunks)
    &&& state_sound(storage.image, storage.namespace(), levels)
    &&& states_sound(storage.image, levels)
}

/// A change leaves the root directory a directory and gives it no name.
pub open spec fn well_rooted(mutation: MutationView) -> bool {
    &&& !mutation.inode_deletes.contains(INODE_ROOT)
    &&& forall|i: int|
        0 <= i < mutation.inode_puts.len() && (#[trigger] mutation.inode_puts[i]).0 == INODE_ROOT
            ==> mutation.inode_puts[i].1.kind == StoredNodeKind::Directory
    &&& forall|i: int|
        0 <= i < mutation.entry_puts.len() ==> (#[trigger] mutation.entry_puts[i]).2.inode
            != INODE_ROOT
}

/// Two inodes are of one kind and have the same size and manifest.
pub open spec fn same_file(old: InodeView, new: InodeView) -> bool {
    &&& new.kind == old.kind
    &&& new.size == old.size
    &&& new.content_manifest_identifier == old.content_manifest_identifier
}

/// What a change stores of an inode is no regular file, is a new and empty one, has the contents that
/// the inode had, or is sound in the later tables.
pub open spec fn file_follows(
    namespace: Namespace,
    put: (u64, InodeView),
    later: Image,
    levels: nat,
) -> bool {
    ||| put.1.kind != StoredNodeKind::RegularFile
    ||| put.1.size == 0 && put.1.content_manifest_identifier == Some(empty_identifier())
    ||| namespace.inode(put.0) is Some && same_file(namespace.inode(put.0)->0, put.1)
    ||| sound_file(later, put.1, levels)
}

/// All regular files that a change stores follow from the state before.
pub open spec fn files_follow(
    namespace: Namespace,
    mutation: MutationView,
    later: Image,
    levels: nat,
) -> bool {
    forall|i: int|
        0 <= i < mutation.inode_puts.len() ==> file_follows(
            namespace,
            #[trigger] mutation.inode_puts[i],
            later,
            levels,
        )
}

proof fn lemma_last_put_at(puts: Seq<(u64, InodeView)>, number: u64) -> (at: int)
    requires
        last_put(puts, number) is Some,
    ensures
        0 <= at < puts.len(),
        puts[at] == (number, last_put(puts, number)->0),
    decreases puts.len(),
{
    if puts.last().0 == number {
        puts.len() - 1
    } else {
        let at = lemma_last_put_at(puts.drop_last(), number);
        assert(puts[at] == puts.drop_last()[at]);
        at
    }
}

proof fn lemma_last_named_at<V>(
    puts: Seq<(u64, Seq<u8>, V)>,
    number: u64,
    name: Seq<u8>,
) -> (at: int)
    requires
        last_named(puts, number, name) is Some,
    ensures
        0 <= at < puts.len(),
        puts[at] == (number, name, last_named(puts, number, name)->0),
    decreases puts.len(),
{
    if puts.last().0 == number && puts.last().1 == name {
        puts.len() - 1
    } else {
        let at = lemma_last_named_at(puts.drop_last(), number, name);
        assert(puts[at] == puts.drop_last()[at]);
        at
    }
}

/// A change that leaves the root directory alone keeps it.
pub proof fn lemma_change_keeps_root(namespace: Namespace, mutation: MutationView)
    requires
        rooted(namespace),
        well_rooted(mutation),
    ensures
        rooted(namespace.after(mutation)),
{
    let after = namespace.after(mutation);
    let removed = remove_inodes(namespace.inodes, mutation.inode_deletes);
    lemma_inode_removed(namespace.inodes, mutation.inode_deletes, INODE_ROOT);
    lemma_inode_put(removed, mutation.inode_puts, INODE_ROOT);
    if last_put(mutation.inode_puts, INODE_ROOT) is Some {
        let at = lemma_last_put_at(mutation.inode_puts, INODE_ROOT);
        assert(mutation.inode_puts[at].0 == INODE_ROOT);
    }
    assert forall|parent: u64, name: Seq<u8>|
        (#[trigger] after.entry(parent, name)) is Some implies after.entry(parent, name)->0.inode
        != INODE_ROOT by {
        let kept = remove_named(namespace.entries, mutation.entry_deletes);
        lemma_remove_named_at(namespace.entries, mutation.entry_deletes, parent, name);
        lemma_put_named_at(kept, mutation.entry_puts, parent, name);
        assert(after.entry(parent, name) == named(after.entries, parent, name));
        assert(namespace.entry(parent, name) == named(namespace.entries, parent, name));
        if last_named(mutation.entry_puts, parent, name) is Some {
            let at = lemma_last_named_at(mutation.entry_puts, parent, name);
            assert(mutation.entry_puts[at].2.inode != INODE_ROOT);
        }
    }
}

/// A file that follows from the state before is sound.
proof fn lemma_followed_file_sound(
    image: Image,
    later: Image,
    namespace: Namespace,
    put: (u64, InodeView),
    levels: nat,
    more: nat,
)
    requires
        stocked(image.manifests, image.chunks),
        files_sound(image, namespace, levels),
        image.manifests.submap_of(later.manifests),
        image.chunks.submap_of(later.chunks),
        levels < more,
        file_follows(namespace, put, later, more),
        put.1.kind == StoredNodeKind::RegularFile,
    ensures
        sound_file(later, put.1, more),
{
    if namespace.inode(put.0) is Some && same_file(namespace.inode(put.0)->0, put.1) {
        lemma_file_kept(image, later, namespace.inode(put.0)->0, levels, more);
    }
}

/// A change whose files follow from the state before keeps the files sound.
pub proof fn lemma_change_keeps_files(
    image: Image,
    later: Image,
    namespace: Namespace,
    mutation: MutationView,
    levels: nat,
    more: nat,
)
    requires
        stocked(image.manifests, image.chunks),
        files_sound(image, namespace, levels),
        image.manifests.submap_of(later.manifests),
        image.chunks.submap_of(later.chunks),
        levels < more,
        files_follow(namespace, mutation, later, more),
    ensures
        files_sound(later, namespace.after(mutation), more),
{
    let after = namespace.after(mutation);
    let removed = remove_inodes(namespace.inodes, mutation.inode_deletes);
    assert forall|number: u64|
        (#[trigger] after.inode(number)) is Some && after.inode(number)->0.kind
            == StoredNodeKind::RegularFile implies sound_file(
        later,
        after.inode(number)->0,
        more,
    ) by {
        lemma_inode_removed(namespace.inodes, mutation.inode_deletes, number);
        lemma_inode_put(removed, mutation.inode_puts, number);
        if last_put(mutation.inode_puts, number) is Some {
            let at = lemma_last_put_at(mutation.inode_puts, number);
            lemma_followed_file_sound(
                image,
                later,
                namespace,
                mutation.inode_puts[at],
                levels,
                more,
            );
        } else {
            lemma_file_kept(image, later, namespace.inode(number)->0, levels, more);
        }
    }
}

/// Sound files stay sound in tables that only grew.
proof fn lemma_files_stay(
    image: Image,
    later: Image,
    namespace: Namespace,
    levels: nat,
    more: nat,
)
    requires
        stocked(image.manifests, image.chunks),
        files_sound(image, namespace, levels),
        image.manifests.submap_of(later.manifests),
        image.chunks.submap_of(later.chunks),
        levels <= more,
    ensures
        files_sound(later, namespace, more),
{
    assert forall|number: u64|
        (#[trigger] namespace.inode(number)) is Some && namespace.inode(number)->0.kind
            == StoredNodeKind::RegularFile implies sound_file(
        later,
        namespace.inode(number)->0,
        more,
    ) by {
        lemma_file_kept(image, later, namespace.inode(number)->0, levels, more);
    }
}

/// States with the same inodes and names are sound alike.
pub proof fn lemma_alike_sound(image: Image, one: Namespace, other: Namespace, levels: nat)
    requires
        state_sound(image, one, levels),
        other.inodes == one.inodes,
        other.entries == one.entries,
    ensures
        state_sound(image, other, levels),
{
    assert forall|parent: u64, name: Seq<u8>|
        (#[trigger] other.entry(parent, name)) is Some implies other.entry(parent, name)->0.inode
        != INODE_ROOT by {
        assert(one.entry(parent, name) is Some);
    }
    assert forall|number: u64|
        (#[trigger] other.inode(number)) is Some && other.inode(number)->0.kind
            == StoredNodeKind::RegularFile implies sound_file(
        image,
        other.inode(number)->0,
        levels,
    ) by {
        assert(one.inode(number) is Some);
    }
}

/// A stored state stays sound in tables that only grew.
proof fn lemma_stored_sound_stays(
    image: Image,
    later: Image,
    name: Seq<u8>,
    next: u64,
    levels: nat,
    more: nat,
)
    requires
        crate::durability::kept(image.nodes, name, next),
        image.nodes.submap_of(later.nodes),
        stocked(image.manifests, image.chunks),
        stored_sound(image, name, levels),
        image.manifests.submap_of(later.manifests),
        image.chunks.submap_of(later.chunks),
        levels <= more,
    ensures
        stored_sound(later, name, more),
{
    lemma_kept_state_stays(image, later.nodes, name, next);
    lemma_files_stay(image, later, stored_state(image.nodes, name)->0, levels, more);
}

/// A commit of a change that leaves the root directory alone and whose files follow from the state
/// before keeps all states sound.
pub proof fn lemma_commit_keeps_states(
    storage: StorageView,
    change: ChangeView,
    rows: BatchView,
    payload: PayloadExtents,
    manifest: Option<Seq<u8>>,
    prepared: PreparedView,
)
    requires
        persisted(storage),
        all_sound_states(storage),
        storage.prepare(change, rows, payload, manifest) == Ok::<PreparedView, FuseError>(prepared),
        contents_only(rows),
        storage.stores_state(change.mutation),
        well_numbered(storage.namespace(), storage.write, change),
        uncollided(storage.image.nodes, prepared.batch.nodes),
        storage.write.last_event_sequence < change.event.sequence.0,
        storage.image.manifests.submap_of(storage.after(prepared).image.manifests),
        storage.image.chunks.submap_of(storage.after(prepared).image.chunks),
        stocked(
            storage.after(prepared).image.manifests,
            storage.after(prepared).image.chunks,
        ),
        well_rooted(change.mutation),
        files_follow(
            storage.namespace(),
            change.mutation,
            storage.after(prepared).image,
            change.event.sequence.0 as nat,
        ),
    ensures
        all_sound_states(storage.after(prepared)),
{
    let before = storage.image;
    let later = storage.after(prepared).image;
    let levels = storage.write.last_event_sequence as nat;
    let more = change.event.sequence.0 as nat;
    let next = storage.write.next_inode_number;
    lemma_commit_rows(storage, change, rows, payload, manifest, prepared);
    lemma_store_grows(before.nodes, prepared.batch.nodes);
    lemma_change_keeps_root(storage.namespace(), change.mutation);
    lemma_change_keeps_files(
        before,
        later,
        storage.namespace(),
        change.mutation,
        levels,
        more,
    );
    lemma_state_is_recorded(storage, change, rows, payload, manifest, prepared);
    let position = next_position(storage.active);
    let new_key = pair_key(position.branch_identifier.0, position.ordinal);
    let root = root_of(later, position)->0;
    let recorded = stored_state(later.nodes, root.namespace_identifier)->0;
    lemma_alike_sound(later, storage.after(prepared).namespace(), recorded, more);
    assert(stored_sound(later, root.namespace_identifier, more));
    lemma_put_one_row(before.branch_roots, new_key, prepared.batch.branch_roots[0].1);
    assert forall|key: Seq<u8>| #[trigger]
        later.branch_roots.contains_key(key) && later.branch_roots[key] is Some implies stored_sound(
        later,
        later.branch_roots[key]->0.namespace_identifier,
        more,
    ) by {
        if key != new_key {
            assert(before.branch_roots.contains_key(key));
            lemma_stored_sound_stays(
                before,
                later,
                before.branch_roots[key]->0.namespace_identifier,
                next,
                levels,
                more,
            );
        }
    }
}

/// States stay sound where no table that they lie in changes and each is one of those before.
proof fn lemma_states_stay(before: StorageView, after: StorageView)
    requires
        all_sound_states(before),
        after.image.nodes == before.image.nodes,
        after.image.manifests == before.image.manifests,
        after.image.chunks == before.image.chunks,
        after.write.last_event_sequence == before.write.last_event_sequence,
        state_sound(
            before.image,
            after.namespace(),
            before.write.last_event_sequence as nat,
        ),
        forall|key: Seq<u8>| #[trigger]
            after.image.branch_roots.contains_key(key) && after.image.branch_roots[key] is Some
                ==> stored_sound(
                before.image,
                after.image.branch_roots[key]->0.namespace_identifier,
                before.write.last_event_sequence as nat,
            ),
    ensures
        all_sound_states(after),
{
    let levels = before.write.last_event_sequence as nat;
    lemma_files_stay(before.image, after.image, after.namespace(), levels, levels);
    assert forall|key: Seq<u8>| #[trigger]
        after.image.branch_roots.contains_key(key) && after.image.branch_roots[key] is Some implies
        stored_sound(
        after.image,
        after.image.branch_roots[key]->0.namespace_identifier,
        levels,
    ) by {
        let name = after.image.branch_roots[key]->0.namespace_identifier;
        assert(stored_sound(before.image, name, levels));
        let state = stored_state(before.image.nodes, name)->0;
        lemma_files_stay(before.image, after.image, state, levels, levels);
    }
}

/// Creating a branch keeps all states sound.
pub proof fn lemma_creation_keeps_states(
    storage: StorageView,
    name: Seq<char>,
    from: BranchPosition,
    creation: BranchCreation,
)
    requires
        all_sound_states(storage),
        storage.branch_creation(name, from) == Some(creation),
    ensures
        all_sound_states(storage.after_creation(creation)),
{
    let before = storage.image;
    let after = storage.after_creation(creation);
    let root = root_of(before, from)->0;
    let key = pair_key(creation.branch.identifier, from.ordinal);
    lemma_put_one_row(before.branch_roots, key, root);
    assert(after.image.nodes == before.nodes);
    assert(after.image.manifests == before.manifests);
    assert(after.image.chunks == before.chunks);
    assert(before.branch_roots.contains_key(pair_key(from.branch_identifier.0, from.ordinal)));
    assert forall|other: Seq<u8>| #[trigger]
        after.image.branch_roots.contains_key(other) && after.image.branch_roots[other] is Some implies
        stored_sound(
        before,
        after.image.branch_roots[other]->0.namespace_identifier,
        storage.write.last_event_sequence as nat,
    ) by {
        if other != key {
            assert(before.branch_roots.contains_key(other));
        }
    }
    lemma_states_stay(storage, after);
}

/// The head of a branch is a sound state.
pub proof fn lemma_head_is_sound(storage: StorageView, number: u64)
    requires
        all_sound_states(storage),
        roots_filed(storage.image),
        crate::branches::branch_at(storage.image, number) is Some,
    ensures
        stored_sound(
            storage.image,
            crate::branches::branch_at(storage.image, number)->0.namespace_identifier,
            storage.write.last_event_sequence as nat,
        ),
{
    let head = head_of(crate::branches::branch_at(storage.image, number)->0);
    assert(head_filed(storage.image, number));
    assert(storage.image.branch_roots.contains_key(
        pair_key(head.branch_identifier.0, head.ordinal),
    ));
}

/// Making a branch active keeps all states sound.
pub proof fn lemma_switch_keeps_states(
    storage: StorageView,
    name: Seq<char>,
    number: u64,
    active: ActiveView,
)
    requires
        all_sound_states(storage),
        roots_filed(storage.image),
        storage.branch_switch(name) == Some((number, active)),
    ensures
        all_sound_states(
            storage.after_switch(StorageView::switch_rows(number), number, active),
        ),
{
    let after = storage.after_switch(StorageView::switch_rows(number), number, active);
    lemma_head_is_sound(storage, number);
    assert(after.image.branch_roots == storage.image.branch_roots);
    assert(after.image.nodes == storage.image.nodes);
    assert(after.image.manifests == storage.image.manifests);
    assert(after.image.chunks == storage.image.chunks);
    assert forall|key: Seq<u8>| #[trigger]
        after.image.branch_roots.contains_key(key) && after.image.branch_roots[key] is Some implies
        stored_sound(
        storage.image,
        after.image.branch_roots[key]->0.namespace_identifier,
        storage.write.last_event_sequence as nat,
    ) by {
        assert(storage.image.branch_roots.contains_key(key));
    }
    lemma_states_stay(storage, after);
}

/// Deleting a branch keeps all states sound.
pub proof fn lemma_deletion_keeps_states(storage: StorageView, name: Seq<char>, batch: BatchView)
    requires
        all_sound_states(storage),
        storage.branch_deletion(name) == Some(batch),
    ensures
        all_sound_states(storage.after_deletion(batch)),
{
    let after = storage.after_deletion(batch);
    assert(after.image.branch_roots == storage.image.branch_roots);
    assert(after.image.nodes == storage.image.nodes);
    assert(after.image.manifests == storage.image.manifests);
    assert(after.image.chunks == storage.image.chunks);
    assert forall|key: Seq<u8>| #[trigger]
        after.image.branch_roots.contains_key(key) && after.image.branch_roots[key] is Some implies
        stored_sound(
        storage.image,
        after.image.branch_roots[key]->0.namespace_identifier,
        storage.write.last_event_sequence as nat,
    ) by {
        assert(storage.image.branch_roots.contains_key(key));
    }
    lemma_states_stay(storage, after);
}

/// Opening what was written out keeps all states sound.
pub proof fn lemma_reopening_keeps_states(storage: StorageView)
    requires
        persisted(storage),
        all_sound_states(storage),
    ensures
        all_sound_states(opened(storage.image)->0),
{
    lemma_alike_sound(
        storage.image,
        storage.namespace(),
        opened(storage.image)->0.namespace(),
        storage.write.last_event_sequence as nat,
    );
}

/// The state of a new filesystem is sound.
pub proof fn lemma_new_filesystem_has_sound_states(
    storage: StorageView,
    plan: TriePlan,
    root: InodeView,
    created_at: time::UtcDateTime,
)
    requires
        storage.image == Image::nothing().after(initial_rows(plan, root, created_at)),
        root.kind == StoredNodeKind::Directory,
        storage.namespace() == initial_namespace(root),
        stored_state(storage.image.nodes, plan.identifier) == Some(initial_namespace(root)),
    ensures
        all_sound_states(storage),
{
    let image = storage.image;
    let namespace = initial_namespace(root);
    assert(image.manifests == Image::nothing().manifests);
    lemma_put_one_row(
        Image::nothing().branch_roots,
        pair_key(crate::branches::BRANCH_IDENTIFIER_INITIAL, 0),
        initial_rows(plan, root, created_at).branch_roots[0].1,
    );
    assert forall|number: u64| (#[trigger] namespace.inode(number)) is Some implies number
        == INODE_ROOT by {
        lemma_u64_key_injective(number, INODE_ROOT);
    }
}

} // verus!
