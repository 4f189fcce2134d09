//! What succeeds: a change that the rules allow can be stored, and a sound file can be written, cut off
//! and grown.

use vstd::prelude::*;

use crate::bytes::bytes_before;
use crate::changes::ChangeView;
use crate::chunks::{chunk_accepted, chunk_ready, chunks_ready, pieces_accepted};
use crate::commit::{payload_rows, placed_event, PayloadExtents};
use crate::contents::{
    complete, lemma_append_succeeds, lemma_open_children_all, lemma_reading_follows_cells, within,
};
use crate::database::{BatchView, Image};
use crate::durability::{
    contents_only, lemma_commit_appends_event, lemma_commit_rows, lemma_persisted_encodable,
    lemma_put_one_row, persisted,
};
use crate::edit::{
    extents_end, extents_plan, extents_window, replaced_children, replaced_plan, MANIFEST_LEVELS,
};
use crate::error::FuseError;
use crate::extents::{
    data_cuts, extents_bounded, extents_slice, is_partition, lemma_partition_within,
    lemma_slice_within, placed_data, ExtentView,
};
use crate::files::{
    lemma_collected_ready, lemma_slice_ready, manifest_of, sound_file, stocked,
};
use crate::filesystem::{EventKind, EventPayload, EventSequence, FileIdentifier};
use crate::hash::{
    blake3_hash, identifier, well_shaped, Blobs, CONTENT_CHUNK_HASH_BLAKE3,
    CONTENT_MANIFEST_HASH_BLAKE3,
};
use crate::history::{event_of, lemma_same_keys};
use crate::indexes::indexed;
use crate::inode::{InodeView, StoredTime};
use crate::keys::{lemma_u64_round_trip, u64_key, u64_of};
use crate::manifest::{extents_in_range, valid_children, ChildView, CONTENT_MANIFEST_MAX_DEPTH};
use crate::maps::{below, holds, key_step, lemma_child_at, lemma_group, lemma_step_exists};
use crate::namespace::MutationView;
use crate::opening::{initial_event, initial_rows, opened};
use crate::persist::{
    active_mutation_plan, attribute_changes, encoded_entries, encoded_inodes, entry_changes,
    inode_changes,
};
use crate::states::{
    lemma_changed_listed, lemma_listing_spells, lemma_with_entry_sorted,
    lemma_without_entry_sorted, listed, state_held,
};
use crate::storage::{resize_commit, write_commit, PreparedView, StorageView};
use crate::table::listed_keys;
use crate::trie::{
    active_plan, change_all, child_at, children_plan, entries_plan, entries_sorted,
    entry_delete_plan, entry_put_plan, group, listing, node_at, with_entry, without_entry, Change,
    EntryPair, NamespaceMapKind, Node, TriePlan, NAMESPACE_PATH_STEPS,
};
use crate::writes::{old_extents, resize_change, write_change};

verus! {

/// The entries that take a step are in key order where all entries are.
proof fn lemma_group_sorted(
    kind: NamespaceMapKind,
    entries: Seq<EntryPair>,
    depth: int,
    step: u8,
)
    requires
        entries_sorted(entries),
    ensures
        entries_sorted(group(kind, entries, depth, step)),
    decreases entries.len(),
{
    if entries.len() > 0 {
        let rest = entries.drop_last();
        assert(entries_sorted(rest)) by {
            assert forall|i: int, j: int|
                0 <= i < j < rest.len() implies bytes_before(
                (#[trigger] rest[i]).0,
                (#[trigger] rest[j]).0,
            ) by {
                assert(rest[i] == entries[i] && rest[j] == entries[j]);
            }
        }
        lemma_group_sorted(kind, rest, depth, step);
        lemma_group(kind, rest, depth, step);
        let front = group(kind, rest, depth, step);
        let taken = group(kind, entries, depth, step);
        assert forall|i: int, j: int| 0 <= i < j < taken.len() implies bytes_before(
            (#[trigger] taken[i]).0,
            (#[trigger] taken[j]).0,
        ) by {
            assert(taken[i] == front[i]);
            if j < front.len() {
                assert(taken[j] == front[j]);
            } else {
                assert(rest.contains(front[i]));
                let k = choose|k: int| 0 <= k < rest.len() && rest[k] == front[i];
                assert(entries[k] == front[i]);
                assert(taken[j] == entries[entries.len() - 1]);
            }
        }
    }
}

/// Entries in key order can be stored.
proof fn lemma_entries_planned(kind: NamespaceMapKind, entries: Seq<EntryPair>, depth: int)
    requires
        entries_sorted(entries),
        0 <= depth,
    ensures
        entries_plan(kind, entries, depth) is Some,
    decreases NAMESPACE_PATH_STEPS - depth, 17nat,
{
    if depth < NAMESPACE_PATH_STEPS {
        lemma_children_planned(kind, entries, depth, 16);
    }
}

proof fn lemma_children_planned(
    kind: NamespaceMapKind,
    entries: Seq<EntryPair>,
    depth: int,
    steps: nat,
)
    requires
        entries_sorted(entries),
        0 <= depth < NAMESPACE_PATH_STEPS,
        steps <= 16,
    ensures
        children_plan(kind, entries, depth, steps) is Some,
    decreases NAMESPACE_PATH_STEPS - depth, steps,
{
    if steps > 0 {
        let step = (steps - 1) as u8;
        lemma_children_planned(kind, entries, depth, (steps - 1) as nat);
        lemma_group_sorted(kind, entries, depth, step);
        lemma_entries_planned(kind, group(kind, entries, depth, step), depth + 1);
    }
}

/// An entry can be put into a trie that holds a map.
proof fn lemma_put_planned(
    nodes: Blobs,
    kind: NamespaceMapKind,
    name: Seq<u8>,
    key: Seq<u8>,
    value: Seq<u8>,
    depth: int,
    map: Blobs,
)
    requires
        holds(nodes, kind, name, depth, map),
    ensures
        entry_put_plan(nodes, kind, name, key, value, depth) is Some,
    decreases NAMESPACE_PATH_STEPS + 1 - depth,
{
    match node_at(nodes, name) {
        Some(Node::Leaf(entries)) => {
            lemma_with_entry_sorted(entries, key, value, key);
            lemma_entries_planned(kind, with_entry(entries, key, value), depth);
        },
        Some(Node::Branch(children)) => {
            lemma_step_exists(kind, key, depth);
            let step = key_step(kind, key, depth)->0;
            lemma_child_at(children, step);
            match child_at(children, step) {
                Some(child) => {
                    let k = choose|k: int|
                        0 <= k < children.len() && children[k] == (step, child);
                    assert(holds(
                        nodes,
                        kind,
                        children[k].1,
                        depth + 1,
                        below(kind, map, depth, step),
                    ));
                    lemma_put_planned(
                        nodes,
                        kind,
                        child,
                        key,
                        value,
                        depth + 1,
                        below(kind, map, depth, step),
                    );
                },
                None => {
                    lemma_entries_planned(kind, seq![(key, value)], depth + 1);
                },
            }
        },
        _ => {},
    }
}

/// An entry can be deleted from a trie that holds a map.
proof fn lemma_delete_planned(
    nodes: Blobs,
    kind: NamespaceMapKind,
    name: Seq<u8>,
    key: Seq<u8>,
    depth: int,
    map: Blobs,
)
    requires
        holds(nodes, kind, name, depth, map),
    ensures
        entry_delete_plan(nodes, kind, name, key, depth) is Some,
    decreases NAMESPACE_PATH_STEPS + 1 - depth,
{
    lemma_entries_planned(kind, Seq::empty(), depth);
    match node_at(nodes, name) {
        Some(Node::Leaf(entries)) => {
            lemma_without_entry_sorted(entries, key, key);
            lemma_entries_planned(kind, without_entry(entries, key), depth);
        },
        Some(Node::Branch(children)) => {
            lemma_step_exists(kind, key, depth);
            let step = key_step(kind, key, depth)->0;
            lemma_child_at(children, step);
            match child_at(children, step) {
                Some(child) => {
                    let k = choose|k: int|
                        0 <= k < children.len() && children[k] == (step, child);
                    assert(holds(
                        nodes,
                        kind,
                        children[k].1,
                        depth + 1,
                        below(kind, map, depth, step),
                    ));
                    lemma_delete_planned(
                        nodes,
                        kind,
                        child,
                        key,
                        depth + 1,
                        below(kind, map, depth, step),
                    );
                },
                None => {},
            }
        },
        _ => {},
    }
}

/// A map that a trie holds can be changed.
proof fn lemma_map_planned(
    nodes: Blobs,
    kind: NamespaceMapKind,
    root: Seq<u8>,
    stored: Blobs,
    seen: Blobs,
    changes: Seq<Change>,
)
    requires
        listed(seen),
        holds(nodes, kind, root, 0, stored),
    ensures
        active_plan(nodes, kind, root, seen, changes) is Some,
{
    lemma_changed_listed(seen, changes);
    lemma_listing_spells(change_all(seen, changes));
    lemma_entries_planned(kind, listing(change_all(seen, changes)), 0);
    if changes.len() == 1 {
        match changes[0] {
            Change::Put(key, value) => {
                lemma_put_planned(nodes, kind, root, key, value, 0, stored);
            },
            Change::Delete(key) => {
                lemma_delete_planned(nodes, kind, root, key, 0, stored);
            },
        }
    }
}

/// Every change of the state of a filesystem that is persisted can be stored.
pub proof fn lemma_change_can_be_stored(storage: StorageView, mutation: MutationView)
    requires
        persisted(storage),
    ensures
        active_mutation_plan(
            storage.image.nodes,
            storage.active.root,
            storage.namespace(),
            mutation,
        ) is Some,
{
    let nodes = storage.image.nodes;
    let root = storage.active.root;
    let seen = storage.namespace();
    lemma_persisted_encodable(storage);
    let stored = opened(storage.image)->0.namespace();
    assert(state_held(nodes, root, stored));
    lemma_same_keys(
        seen.inodes,
        encoded_inodes(seen.inodes),
        listed_keys(seen.inodes),
    );
    lemma_same_keys(
        seen.entries,
        encoded_entries(seen.entries),
        listed_keys(seen.entries),
    );
    lemma_map_planned(
        nodes,
        NamespaceMapKind::Inodes,
        root.inodes,
        encoded_inodes(stored.inodes),
        encoded_inodes(seen.inodes),
        inode_changes(mutation),
    );
    lemma_map_planned(
        nodes,
        NamespaceMapKind::DirectoryEntries,
        root.entries,
        encoded_entries(stored.entries),
        encoded_entries(seen.entries),
        entry_changes(mutation),
    );
    lemma_map_planned(
        nodes,
        NamespaceMapKind::ExtendedAttributes,
        root.attributes,
        stored.attributes,
        seen.attributes,
        attribute_changes(mutation),
    );
}

/// No event has a sequence that is still to be given.
pub open spec fn sequences_given(storage: StorageView) -> bool {
    forall|key: Seq<u8>| #[trigger]
        storage.image.events.contains_key(key) ==> u64_of(key) <= storage.write.last_event_sequence
}

/// A commit takes the next sequence, and no event has one that is still to be given.
pub proof fn lemma_commit_gives_sequences(
    storage: StorageView,
    change: ChangeView,
    rows: BatchView,
    payload: PayloadExtents,
    manifest: Option<Seq<u8>>,
    prepared: PreparedView,
)
    requires
        sequences_given(storage),
        storage.write.sequence_to_give() == Ok::<EventSequence, FuseError>(change.event.sequence),
        storage.prepare(change, rows, payload, manifest) == Ok::<PreparedView, FuseError>(prepared),
        contents_only(rows),
    ensures
        sequences_given(storage.after(prepared)),
{
    let after = storage.after(prepared);
    lemma_commit_rows(storage, change, rows, payload, manifest, prepared);
    lemma_put_one_row(
        storage.image.events,
        u64_key(change.event.sequence.0),
        prepared.batch.events[0].1,
    );
    lemma_u64_round_trip(change.event.sequence.0);
    assert forall|key: Seq<u8>| #[trigger] after.image.events.contains_key(key) implies u64_of(key)
        <= after.write.last_event_sequence by {
        if key != u64_key(change.event.sequence.0) {
            assert(storage.image.events.contains_key(key));
        }
    }
}

/// A change of names or attributes with the next sequence is committed unless the positions of the
/// branch are used up.
pub proof fn lemma_change_succeeds(storage: StorageView, change: ChangeView)
    requires
        persisted(storage),
        indexed(storage),
        sequences_given(storage),
        storage.write.sequence_to_give() == Ok::<EventSequence, FuseError>(change.event.sequence),
    ensures
        storage.prepare_change(change) is Ok <==> storage.active.branch.head_ordinal < u64::MAX,
{
    lemma_change_can_be_stored(storage, change.mutation);
    lemma_u64_round_trip(change.event.sequence.0);
    if storage.image.events.contains_key(u64_key(change.event.sequence.0)) {
        assert(change.event.sequence.0 <= storage.write.last_event_sequence);
    }
}

/// What is stored under the name of a piece of some data is that piece.
pub open spec fn pieces_agree(chunks: Blobs, data: Seq<u8>) -> bool {
    forall|i: int|
        0 <= i < data_cuts(data).len() ==> {
            let cut = #[trigger] data_cuts(data)[i];
            let piece = data.subrange(cut.0 as int, cut.0 + cut.1);
            let name = identifier(CONTENT_CHUNK_HASH_BLAKE3, piece);
            chunks.contains_key(name) ==> chunks[name] == piece
        }
}

/// Data whose pieces agree with what is stored can be stored.
proof fn lemma_pieces_accepted(chunks: Blobs, data: Seq<u8>)
    requires
        pieces_agree(chunks, data),
    ensures
        pieces_accepted(chunks, data, data_cuts(data)),
{
    let cuts = data_cuts(data);
    assert forall|i: int| 0 <= i < cuts.len() implies {
        let piece = data.subrange((#[trigger] cuts[i]).0 as int, cuts[i].0 + cuts[i].1);
        chunk_accepted(chunks, identifier(CONTENT_CHUNK_HASH_BLAKE3, piece), piece)
    } by {
        let piece = data.subrange(cuts[i].0 as int, cuts[i].0 + cuts[i].1);
        let name = identifier(CONTENT_CHUNK_HASH_BLAKE3, piece);
        assert(name.skip(1) =~= blake3_hash(piece));
    }
}

/// The overwritten part of a sound file can be read.
proof fn lemma_old_extents_found(
    image: Image,
    manifest: Seq<u8>,
    start: u64,
    end: u64,
    levels: nat,
)
    requires
        stocked(image.manifests, image.chunks),
        complete(image.manifests, manifest, levels),
        levels <= CONTENT_MANIFEST_MAX_DEPTH + 1,
        start <= end,
    ensures
        old_extents(image.manifests, image.chunks, manifest, start, end) is Some,
        extents_bounded(
            old_extents(image.manifests, image.chunks, manifest, start, end)->0,
            (end - start) as u64,
        ),
{
    lemma_reading_follows_cells(image.manifests, manifest, start, end, levels);
    let found = extents_in_range(image.manifests, manifest, start, end)->0;
    if start < end {
        lemma_collected_ready(image.manifests, image.chunks, manifest, start, end, 0);
        lemma_slice_found(image.chunks, found, start, end);
        lemma_slice_ready(image.chunks, found, start, end, 0);
        let sliced = extents_slice(found, start, end, 0)->0;
        assert forall|i: int| 0 <= i < sliced.len() implies (#[trigger] sliced[i]).end() <= (end
            - start) as u64 by {
            lemma_slice_within(found, start, end, 0, i);
        }
    } else {
        assert(found =~= Seq::<ExtentView>::empty());
    }
}

/// Extents in a range whose chunks are there can be moved to the start.
proof fn lemma_slice_found(chunks: Blobs, extents: Seq<ExtentView>, start: u64, end: u64)
    requires
        within(extents, start, end),
        chunks_ready(chunks, extents),
    ensures
        extents_slice(extents, start, end, 0) is Some,
    decreases extents.len(),
{
    if start < end && extents.len() > 0 {
        let front = extents.drop_last();
        assert forall|i: int| 0 <= i < front.len() implies start <= (
        #[trigger] front[i]).logical_offset && front[i].end() <= end && front[i].length > 0 by {
            assert(front[i] == extents[i]);
        }
        assert forall|i: int| 0 <= i < front.len() implies chunk_ready(
            chunks,
            #[trigger] front[i],
        ) by {
            assert(front[i] == extents[i]);
        }
        lemma_slice_found(chunks, front, start, end);
        let last = extents[extents.len() - 1];
        assert(start <= last.logical_offset && last.end() <= end);
        assert(chunk_ready(chunks, last));
    }
}

/// The extents of data end where the data ends.
proof fn lemma_placed_end(offset: u64, data: Seq<u8>, count: int)
    requires
        is_partition(data_cuts(data), data.len() as int),
        offset + data.len() <= u64::MAX,
        0 < count <= data_cuts(data).len(),
    ensures
        extents_end(placed_data(offset, data).take(count)) == offset + data_cuts(data)[count - 1].0
            + data_cuts(data)[count - 1].1,
    decreases count,
{
    let cuts = data_cuts(data);
    let all = placed_data(offset, data);
    let front = all.take(count);
    assert(front.drop_last() =~= all.take(count - 1));
    assert(front.last() == all[count - 1]);
    lemma_partition_within(cuts, data.len() as int, count - 1);
    if count > 1 {
        lemma_placed_end(offset, data, count - 1);
        assert(cuts[count - 1].0 == cuts[count - 2].0 + cuts[count - 2].1);
        assert(cuts[count - 1].1 > 0);
    } else {
        assert(all.take(0) =~= Seq::<ExtentView>::empty());
        assert(extents_end(all.take(0)) == 0);
    }
}

/// The extents of data have the window of the data.
pub proof fn lemma_placed_window(offset: u64, data: Seq<u8>, name: Seq<u8>)
    requires
        data.len() > 0,
        is_partition(data_cuts(data), data.len() as int),
        offset + data.len() <= u64::MAX,
    ensures
        placed_data(offset, data).len() > 0,
        extents_window(placed_data(offset, data), name) == Some(
            ChildView { logical_offset: offset, length: data.len() as u64, identifier: name },
        ),
{
    let cuts = data_cuts(data);
    let all = placed_data(offset, data);
    lemma_placed_end(offset, data, cuts.len() as int);
    assert(all.take(cuts.len() as int) =~= all);
    assert(cuts[cuts.len() - 1] == cuts.last());
    assert(all[0].logical_offset == offset);
}

proof fn lemma_placed_bounded(data: Seq<u8>)
    requires
        data.len() > 0 ==> is_partition(data_cuts(data), data.len() as int),
        data.len() <= u64::MAX,
    ensures
        extents_bounded(placed_data(0, data), data.len() as u64),
{
    let all = placed_data(0, data);
    assert forall|i: int| 0 <= i < all.len() implies (#[trigger] all[i]).end()
        <= data.len() as u64 by {
        lemma_partition_within(data_cuts(data), data.len() as int, i);
    }
}

/// A part of a file can be replaced.
proof fn lemma_replace_planned(
    manifest: Seq<u8>,
    size: u64,
    offset: u64,
    data: Seq<u8>,
)
    requires
        well_shaped(manifest, CONTENT_MANIFEST_HASH_BLAKE3),
        offset < size,
        offset + data.len() <= u64::MAX,
        data.len() > 0 ==> is_partition(data_cuts(data), data.len() as int),
    ensures
        replaced_plan(
            manifest,
            size,
            offset,
            (offset + data.len()) as u64,
            placed_data(offset, data),
        ) is Some,
{
    let end = (offset + data.len()) as u64;
    let extents = placed_data(offset, data);
    let name = extents_plan(extents).identifier;
    let written = if data.len() > 0 {
        seq![ChildView { logical_offset: offset, length: data.len() as u64, identifier: name }]
    } else {
        Seq::empty()
    };
    if data.len() > 0 {
        lemma_placed_window(offset, data, name);
    }
    let children = replaced_children(manifest, size, offset, end, written);
    assert(children.len() <= 3);
    assert forall|i: int| 0 <= i < children.len() implies (#[trigger] children[i]).length > 0 by {
    }
    lemma_open_children_all(children);
    if children.len() > 0 {
        assert(valid_children(children));
    }
}

/// A sound file can be written: unless the end of the data does not fit or the sequences are used up,
/// the write is planned.
proof fn lemma_write_planned(
    storage: StorageView,
    number: u64,
    inode: InodeView,
    offset: u64,
    data: Seq<u8>,
    append: bool,
    clear_privileges: bool,
    now: StoredTime,
    created_at: time::UtcDateTime,
    levels: nat,
)
    requires
        stocked(storage.image.manifests, storage.image.chunks),
        storage.namespace().inode(number) == Some(inode),
        sound_file(storage.image, inode, levels),
        levels <= CONTENT_MANIFEST_MAX_DEPTH,
        (if append {
            inode.size
        } else {
            offset
        }) + data.len() <= u64::MAX,
        storage.write.sequence_to_give() is Ok,
        data.len() > 0 ==> is_partition(data_cuts(data), data.len() as int),
        pieces_agree(storage.image.chunks, data),
    ensures
        ({
            let written = write_change(
                storage.image,
                storage.namespace(),
                storage.write,
                number,
                offset,
                data,
                append,
                clear_privileges,
                now,
                created_at,
            );
            &&& written is Ok
            &&& payload_rows(
                written->Ok_0.change.event.sequence.0,
                placed_event(storage.active, written->Ok_0.change.event),
                written->Ok_0.payload,
            ) is Some
        }),
{
    let image = storage.image;
    let start = if append {
        inode.size
    } else {
        offset
    };
    let end = (start + data.len()) as u64;
    let manifest = manifest_of(inode);
    let size = inode.size;
    let extents = placed_data(start, data);
    let name = extents_plan(extents).identifier;
    if start < size {
        let upto = if end < size {
            end
        } else {
            size
        };
        lemma_old_extents_found(image, manifest, start, upto, levels);
        lemma_replace_planned(manifest, size, start, data);
    } else if data.len() > 0 {
        lemma_placed_window(start, data, name);
        lemma_append_succeeds(
            image.manifests,
            manifest,
            0,
            size,
            ChildView { logical_offset: start, length: data.len() as u64, identifier: name },
            MANIFEST_LEVELS as nat,
            levels,
        );
    }
    lemma_pieces_accepted(image.chunks, data);
    lemma_placed_bounded(data);
}

/// A write into a sound file succeeds, unless its end does not fit or the sequences or the positions of
/// the branch are used up: it adds one event, which states where the data was written, how many bytes,
/// the sizes of the file before and after and how many bytes were overwritten.
pub proof fn lemma_write_succeeds(
    storage: StorageView,
    number: u64,
    inode: InodeView,
    offset: u64,
    data: Seq<u8>,
    append: bool,
    clear_privileges: bool,
    now: StoredTime,
    created_at: time::UtcDateTime,
    levels: nat,
)
    requires
        persisted(storage),
        indexed(storage),
        sequences_given(storage),
        stocked(storage.image.manifests, storage.image.chunks),
        storage.namespace().inode(number) == Some(inode),
        sound_file(storage.image, inode, levels),
        levels <= CONTENT_MANIFEST_MAX_DEPTH,
        (if append {
            inode.size
        } else {
            offset
        }) + data.len() <= u64::MAX,
        storage.write.last_event_sequence < u64::MAX,
        storage.active.branch.head_ordinal < u64::MAX,
        data.len() > 0 ==> is_partition(data_cuts(data), data.len() as int),
        pieces_agree(storage.image.chunks, data),
    ensures
        ({
            let start = if append {
                inode.size
            } else {
                offset
            };
            let end = start + data.len();
            let prepared = write_commit(
                storage,
                number,
                offset,
                data,
                append,
                clear_privileges,
                now,
                created_at,
            );
            let sequence = (storage.write.last_event_sequence + 1) as u64;
            let found = event_of(storage.after(prepared->Ok_0).image, sequence);
            let record = found->Ok_0->0;
            &&& prepared is Ok
            &&& found is Ok
            &&& found->Ok_0 is Some
            &&& record.kind == EventKind::FileWritten
            &&& record.file_identifier == Some(FileIdentifier(number))
            &&& record.offset == Some(start)
            &&& record.byte_length == Some(data.len() as u64)
            &&& record.payload == EventPayload::FileWrite {
                old_file_size: inode.size,
                new_file_size: if inode.size < end {
                    end as u64
                } else {
                    inode.size
                },
                overwritten_byte_length: if start >= inode.size {
                    0
                } else if end < inode.size {
                    data.len() as u64
                } else {
                    (inode.size - start) as u64
                },
                written_byte_length: data.len() as u64,
            }
        }),
{
    lemma_write_planned(
        storage,
        number,
        inode,
        offset,
        data,
        append,
        clear_privileges,
        now,
        created_at,
        levels,
    );
    let content = write_change(
        storage.image,
        storage.namespace(),
        storage.write,
        number,
        offset,
        data,
        append,
        clear_privileges,
        now,
        created_at,
    )->Ok_0;
    lemma_change_can_be_stored(storage, content.change.mutation);
    let sequence = content.change.event.sequence.0;
    lemma_u64_round_trip(sequence);
    assert(!storage.image.events.contains_key(u64_key(sequence))) by {
        if storage.image.events.contains_key(u64_key(sequence)) {
            assert(sequence <= storage.write.last_event_sequence);
        }
    }
    let prepared = storage.prepare_content(content)->Ok_0;
    lemma_commit_appends_event(
        storage,
        content.change,
        content.rows,
        content.payload,
        Some(content.plan.identifier),
        prepared,
        0,
    );
}

/// A sound file can be cut off and grown, unless the sequences or the positions of the branch are used
/// up.
pub proof fn lemma_resize_succeeds(
    storage: StorageView,
    number: u64,
    inode: InodeView,
    new_size: u64,
    created_at: time::UtcDateTime,
    levels: nat,
)
    requires
        persisted(storage),
        indexed(storage),
        sequences_given(storage),
        stocked(storage.image.manifests, storage.image.chunks),
        sound_file(storage.image, inode, levels),
        levels <= CONTENT_MANIFEST_MAX_DEPTH,
        storage.write.last_event_sequence < u64::MAX,
        storage.active.branch.head_ordinal < u64::MAX,
    ensures
        resize_commit(storage, number, inode, new_size, created_at) is Ok,
{
    let image = storage.image;
    let manifest = manifest_of(inode);
    if new_size != inode.size {
        if new_size < inode.size {
            lemma_old_extents_found(image, manifest, new_size, inode.size, levels);
            if new_size > 0 {
                let children = seq![
                    ChildView { logical_offset: 0, length: new_size, identifier: manifest },
                ];
                lemma_open_children_all(children);
                assert(valid_children(children));
            }
        }
        let content = resize_change(
            image,
            storage.namespace(),
            storage.write,
            number,
            inode,
            new_size,
            created_at,
        )->Ok_0->0;
        lemma_change_can_be_stored(storage, content.change.mutation);
        let sequence = content.change.event.sequence.0;
        lemma_u64_round_trip(sequence);
        if storage.image.events.contains_key(u64_key(sequence)) {
            assert(sequence <= storage.write.last_event_sequence);
        }
    }
}

/// No event of a new filesystem has a sequence that is still to be given.
pub proof fn lemma_new_filesystem_gives_sequences(
    storage: StorageView,
    plan: TriePlan,
    root: InodeView,
    created_at: time::UtcDateTime,
)
    requires
        storage.image == Image::nothing().after(initial_rows(plan, root, created_at)),
    ensures
        sequences_given(storage),
{
    lemma_put_one_row(Image::nothing().events, u64_key(0), initial_event(root, created_at));
    lemma_u64_round_trip(0);
}

} // verus!
