//! What regular files hold: reading gives back what was written, and nothing else changes it.

use vstd::prelude::*;

use crate::changes::{node_creation, InodeChange};
use crate::chunks::{
    chunk_accepted, chunk_ready, chunks_ready, data_puts, file_byte, lemma_reading_bytes,
    piece_puts, pieces_accepted, range_bytes, range_readable,
};
use crate::commit::{commit_of, payload_manifests, PayloadExtents};
use crate::contents::{
    appendable, bounded, cell, child_cell, chunk_byte, complete, holds_pieces,
    lemma_appending_writes, lemma_complete_extends, lemma_placed_data, lemma_range_restricts,
    lemma_reading_follows_cells, lemma_replace_writes, shows, stores,
};
use crate::database::{put_blobs, BatchView, Image, WriteState};
use crate::edit::{
    all_sound, append_plan, extents_plan, extents_window, manifest_puts, open_children,
    replaced_children, replaced_plan, sound, MANIFEST_LEVELS,
};
use crate::error::FuseError;
use crate::extents::{
    data_cuts, extent_cell, extents_slice, is_partition, lemma_partition_within, placed_data,
    ExtentView,
};
use crate::hash::{identifier, Blobs, CONTENT_CHUNK_HASH_BLAKE3};
use crate::inode::{
    CreateNodeKind, CreateNodeMetadata, InodeView, StoredNodeKind, StoredTime,
};
use crate::keys::{lemma_u64_key_injective, u64_key};
use crate::manifest::{
    collected, collected_children, empty_identifier, manifest_at, manifest_encoding,
    manifest_identifier, ChildView, Manifest, CONTENT_MANIFEST_CONCAT_MAX_CHILDREN,
    CONTENT_MANIFEST_MAX_DEPTH,
};
use crate::namespace::{put_inodes, remove_inodes, MutationView, Namespace};
use crate::storage::{
    content_sound, read_result, readable_length, PreparedView, StorageView,
};
use crate::writes::{
    manifest_after_write, overwritten_by_write, resize_change, write_change, ContentChange,
};

verus! {

/// Puts agree with a store and with each other: what is stored under a name is what was there.
pub open spec fn uncollided(map: Blobs, puts: Seq<(Seq<u8>, Seq<u8>)>) -> bool {
    &&& forall|i: int|
        0 <= i < puts.len() && map.contains_key((#[trigger] puts[i]).0) ==> map[puts[i].0]
            == puts[i].1
    &&& forall|i: int, j: int|
        0 <= i < puts.len() && 0 <= j < puts.len() && (#[trigger] puts[i]).0 == (
        #[trigger] puts[j]).0 ==> puts[i].1 == puts[j].1
}

/// Storing what agrees with a store only adds to it, and all of it is found again.
pub proof fn lemma_store_grows(map: Blobs, puts: Seq<(Seq<u8>, Seq<u8>)>)
    requires
        uncollided(map, puts),
    ensures
        map.submap_of(put_blobs(map, puts)),
        forall|i: int|
            0 <= i < puts.len() ==> put_blobs(map, puts).contains_key((#[trigger] puts[i]).0)
                && put_blobs(map, puts)[puts[i].0] == puts[i].1,
        forall|key: Seq<u8>| #[trigger]
            put_blobs(map, puts).contains_key(key) ==> map.contains_key(key) || exists|i: int|
                0 <= i < puts.len() && (#[trigger] puts[i]).0 == key,
    decreases puts.len(),
{
    if puts.len() > 0 {
        let front = puts.drop_last();
        assert forall|i: int| 0 <= i < front.len() && map.contains_key(
            (#[trigger] front[i]).0,
        ) implies map[front[i].0] == front[i].1 by {
            assert(puts[i] == front[i]);
        }
        assert forall|i: int, j: int|
            0 <= i < front.len() && 0 <= j < front.len() && (#[trigger] front[i]).0 == (
            #[trigger] front[j]).0 implies front[i].1 == front[j].1 by {
            assert(puts[i] == front[i] && puts[j] == front[j]);
        }
        lemma_store_grows(map, front);
        let before = put_blobs(map, front);
        let after = put_blobs(map, puts);
        let last = puts.last();
        assert(after == before.insert(last.0, last.1));
        assert forall|key: Seq<u8>| #[trigger] map.dom().contains(key) implies after.dom().contains(
            key,
        ) && after[key] == map[key] by {
            if key == last.0 {
                assert(puts[puts.len() - 1] == last);
            }
        }
        assert forall|i: int| 0 <= i < puts.len() implies after.contains_key((#[trigger] puts[i]).0)
            && after[puts[i].0] == puts[i].1 by {
            if i < front.len() {
                assert(front[i] == puts[i]);
            }
            if puts[i].0 == last.0 {
                assert(puts[puts.len() - 1] == last);
            }
        }
        assert forall|key: Seq<u8>| #[trigger] after.contains_key(key) implies map.contains_key(key)
            || exists|i: int| 0 <= i < puts.len() && (#[trigger] puts[i]).0 == key by {
            if key == last.0 {
                assert(puts[puts.len() - 1].0 == key);
            } else {
                assert(before.contains_key(key));
                if !map.contains_key(key) {
                    let i = choose|i: int| 0 <= i < front.len() && (#[trigger] front[i]).0 == key;
                    assert(puts[i].0 == key);
                }
            }
        }
    }
}

/// Every list of extents in a store lies in chunks that are there, valid and long enough.
pub open spec fn stocked(manifests: Blobs, chunks: Blobs) -> bool {
    forall|name: Seq<u8>|
        (#[trigger] manifest_at(manifests, name)) matches Some(Manifest::Extents(extents))
            ==> chunks_ready(chunks, extents)
}

pub proof fn lemma_slice_ready(
    chunks: Blobs,
    extents: Seq<ExtentView>,
    start: u64,
    end: u64,
    base: u64,
)
    requires
        chunks_ready(chunks, extents),
        extents_slice(extents, start, end, base) is Some,
    ensures
        chunks_ready(chunks, extents_slice(extents, start, end, base)->0),
    decreases extents.len(),
{
    if start < end && extents.len() > 0 {
        let front = extents.drop_last();
        assert(chunks_ready(chunks, front)) by {
            assert forall|i: int| 0 <= i < front.len() implies chunk_ready(
                chunks,
                #[trigger] front[i],
            ) by {
                assert(front[i] == extents[i]);
            }
        }
        lemma_slice_ready(chunks, front, start, end, base);
        assert(chunk_ready(chunks, extents[extents.len() - 1]));
    }
}

pub proof fn lemma_collected_ready(
    manifests: Blobs,
    chunks: Blobs,
    name: Seq<u8>,
    start: u64,
    end: u64,
    depth: int,
)
    requires
        stocked(manifests, chunks),
        collected(manifests, name, start, end, depth) is Some,
    ensures
        chunks_ready(chunks, collected(manifests, name, start, end, depth)->0),
    decreases CONTENT_MANIFEST_MAX_DEPTH + 1 - depth, 0nat,
{
    if name != empty_identifier() {
        match manifest_at(manifests, name) {
            None => {},
            Some(Manifest::Extents(extents)) => {
                lemma_slice_ready(chunks, extents, start, end, start);
            },
            Some(Manifest::Concat(children)) => {
                lemma_children_ready(manifests, chunks, children, start, end, depth + 1);
            },
        }
    }
}

proof fn lemma_children_ready(
    manifests: Blobs,
    chunks: Blobs,
    children: Seq<ChildView>,
    start: u64,
    end: u64,
    depth: int,
)
    requires
        stocked(manifests, chunks),
        collected_children(manifests, children, start, end, depth) is Some,
    ensures
        chunks_ready(chunks, collected_children(manifests, children, start, end, depth)->0),
    decreases CONTENT_MANIFEST_MAX_DEPTH + 1 - depth, children.len() + 1,
{
    if children.len() > 0 {
        let child = children.last();
        lemma_children_ready(manifests, chunks, children.drop_last(), start, end, depth);
        if !(child.end() <= start || child.logical_offset >= end) {
            lemma_collected_ready(
                manifests,
                chunks,
                child.identifier,
                if start > child.logical_offset { start } else { child.logical_offset },
                if (end as int) < child.end() { end } else { child.end() as u64 },
                depth,
            );
        }
    }
}

proof fn lemma_extent_cell_ready(chunks: Blobs, extents: Seq<ExtentView>, position: int)
    requires
        chunks_ready(chunks, extents),
        extent_cell(extents, position) is Some,
    ensures
        chunk_byte(chunks, extent_cell(extents, position)->0) is Some,
    decreases extents.len(),
{
    assert(chunk_ready(chunks, extents[extents.len() - 1]));
    if !extents.last().covers(position) {
        let front = extents.drop_last();
        assert forall|i: int| 0 <= i < front.len() implies chunk_ready(
            chunks,
            #[trigger] front[i],
        ) by {
            assert(front[i] == extents[i]);
        }
        lemma_extent_cell_ready(chunks, front, position);
    }
}

pub proof fn lemma_cell_ready(
    manifests: Blobs,
    chunks: Blobs,
    name: Seq<u8>,
    position: int,
    levels: nat,
)
    requires
        stocked(manifests, chunks),
        cell(manifests, name, position, levels) is Some,
    ensures
        chunk_byte(chunks, cell(manifests, name, position, levels)->0) is Some,
    decreases levels, 0nat,
{
    match manifest_at(manifests, name) {
        None => {},
        Some(Manifest::Extents(extents)) => {
            lemma_extent_cell_ready(chunks, extents, position);
        },
        Some(Manifest::Concat(children)) => {
            lemma_child_cell_ready(manifests, chunks, children, position, (levels - 1) as nat);
        },
    }
}

proof fn lemma_child_cell_ready(
    manifests: Blobs,
    chunks: Blobs,
    children: Seq<ChildView>,
    position: int,
    levels: nat,
)
    requires
        stocked(manifests, chunks),
        child_cell(manifests, children, position, levels) is Some,
    ensures
        chunk_byte(chunks, child_cell(manifests, children, position, levels)->0) is Some,
    decreases levels, children.len() + 1,
{
    if children.last().covers(position) {
        lemma_cell_ready(manifests, chunks, children.last().identifier, position, levels);
    } else {
        lemma_child_cell_ready(manifests, chunks, children.drop_last(), position, levels);
    }
}

/// The manifest of a regular file.
pub open spec fn manifest_of(inode: InodeView) -> Seq<u8> {
    inode.content_manifest_identifier->0
}

/// A regular file whose manifest is stored, describes no more than its size, can be appended to and is
/// at most some levels deep.
pub open spec fn sound_file(image: Image, inode: InodeView, levels: nat) -> bool {
    &&& inode.kind == StoredNodeKind::RegularFile
    &&& inode.content_manifest_identifier is Some
    &&& appendable(image.manifests, manifest_of(inode), inode.size as int, levels)
}

/// The byte of a regular file at a position.
pub open spec fn byte_at(image: Image, inode: InodeView, position: int, levels: nat) -> u8 {
    file_byte(image.manifests, image.chunks, manifest_of(inode), position, levels)
}

/// Reading a regular file gives its bytes from the offset on, as many as are asked for and there.
pub proof fn lemma_reading_gives_bytes(
    image: Image,
    namespace: Namespace,
    number: u64,
    inode: InodeView,
    offset: u64,
    size: u32,
    levels: nat,
)
    requires
        stocked(image.manifests, image.chunks),
        namespace.inode(number) == Some(inode),
        sound_file(image, inode, levels),
        levels <= CONTENT_MANIFEST_MAX_DEPTH + 1,
    ensures
        read_result(image, namespace, number, offset, size) == Ok::<Seq<u8>, FuseError>(
            Seq::new(
                if offset >= inode.size {
                    0
                } else {
                    readable_length(inode.size, offset, size) as nat
                },
                |k: int| byte_at(image, inode, offset + k, levels),
            ),
        ),
{
    if offset >= inode.size || size == 0 {
        assert(Seq::<u8>::empty() =~= Seq::new(
            0,
            |k: int| byte_at(image, inode, offset + k, levels),
        ));
    } else {
        let length = readable_length(inode.size, offset, size);
        let manifest = manifest_of(inode);
        let end = (offset + length) as u64;
        lemma_reading_follows_cells(image.manifests, manifest, offset, end, levels);
        lemma_collected_ready(image.manifests, image.chunks, manifest, offset, end, 0);
        assert(range_readable(image.manifests, image.chunks, manifest, offset, length));
        let expected = Seq::new(
            length as nat,
            |k: int| byte_at(image, inode, offset + k, levels),
        );
        let read = range_bytes(image.manifests, image.chunks, manifest, offset, length);
        assert forall|k: int| 0 <= k < length implies read[k] == #[trigger] expected[k] by {
            lemma_reading_bytes(
                image.manifests,
                image.chunks,
                manifest,
                offset,
                length,
                levels,
                k,
            );
        }
        assert(read =~= expected);
    }
}

proof fn lemma_appendable_extends(
    nodes: Blobs,
    larger: Blobs,
    name: Seq<u8>,
    end: int,
    further: int,
    levels: nat,
    more: nat,
)
    requires
        appendable(nodes, name, end, levels),
        nodes.submap_of(larger),
        end <= further,
        levels <= more,
    ensures
        appendable(larger, name, further, more),
    decreases levels,
{
    lemma_complete_extends(nodes, larger, name, levels, more);
    assert(bounded(larger, name, further, more)) by {
        assert forall|position: int| position >= further implies (#[trigger] cell(
            larger,
            name,
            position,
            more,
        )) is None by {
            assert(cell(nodes, name, position, levels) is None);
        }
    }
    if name != empty_identifier() {
        assert(manifest_at(larger, name) == manifest_at(nodes, name)) by {
            assert(nodes.dom().contains(name));
            assert(larger.dom().contains(name));
        }
        match manifest_at(nodes, name) {
            Some(Manifest::Concat(children)) => {
                if children.len() >= CONTENT_MANIFEST_CONCAT_MAX_CHILDREN && children.last().end()
                    == further {
                    lemma_appendable_extends(
                        nodes,
                        larger,
                        children.last().identifier,
                        end,
                        further,
                        (levels - 1) as nat,
                        (more - 1) as nat,
                    );
                }
            },
            _ => {},
        }
    }
}

/// A file stays what it is when the stores only grow.
pub proof fn lemma_file_kept(image: Image, later: Image, inode: InodeView, levels: nat, more: nat)
    requires
        stocked(image.manifests, image.chunks),
        sound_file(image, inode, levels),
        image.manifests.submap_of(later.manifests),
        image.chunks.submap_of(later.chunks),
        levels <= more,
    ensures
        sound_file(later, inode, more),
        forall|position: int| #[trigger]
            byte_at(later, inode, position, more) == byte_at(image, inode, position, levels),
{
    let manifest = manifest_of(inode);
    lemma_appendable_extends(
        image.manifests,
        later.manifests,
        manifest,
        inode.size as int,
        inode.size as int,
        levels,
        more,
    );
    lemma_complete_extends(image.manifests, later.manifests, manifest, levels, more);
    assert forall|position: int| #[trigger] byte_at(later, inode, position, more) == byte_at(
        image,
        inode,
        position,
        levels,
    ) by {
        let place = cell(image.manifests, manifest, position, levels);
        assert(cell(later.manifests, manifest, position, more) == place);
        if place is Some {
            lemma_cell_ready(image.manifests, image.chunks, manifest, position, levels);
            assert(image.chunks.dom().contains((place->0).0));
            assert(later.chunks.dom().contains((place->0).0));
            assert(later.chunks[(place->0).0] == image.chunks[(place->0).0]);
        }
    }
}

/// Manifests that join others and hold no extents themselves.
pub open spec fn only_joined(manifests: Seq<Manifest>) -> bool {
    forall|i: int| 0 <= i < manifests.len() ==> (#[trigger] manifests[i]) is Concat
}

proof fn lemma_append_joins(
    nodes: Blobs,
    name: Seq<u8>,
    start: u64,
    end: u64,
    appended: ChildView,
    levels: nat,
)
    requires
        append_plan(nodes, name, start, end, appended, levels) is Some,
    ensures
        only_joined(append_plan(nodes, name, start, end, appended, levels)->0.nodes),
    decreases levels,
{
    if name != empty_identifier() {
        match manifest_at(nodes, name) {
            Some(Manifest::Concat(children)) => {
                let last = children.last();
                if children.len() >= CONTENT_MANIFEST_CONCAT_MAX_CHILDREN && last.end() == end {
                    lemma_append_joins(
                        nodes,
                        last.identifier,
                        last.logical_offset,
                        last.end() as u64,
                        appended,
                        (levels - 1) as nat,
                    );
                }
            },
            _ => {},
        }
    }
}

/// The manifests of a plan are the written extents, where there are any, and joined ones.
proof fn lemma_written_nodes(
    manifests: Blobs,
    manifest: Seq<u8>,
    old_size: u64,
    start: u64,
    end: u64,
    data: Seq<u8>,
)
    requires
        manifest_after_write(manifests, manifest, old_size, start, end, data) is Some,
    ensures
        ({
            let nodes = manifest_after_write(
                manifests,
                manifest,
                old_size,
                start,
                end,
                data,
            )->0.nodes;
            let extents = placed_data(start, data);
            &&& forall|i: int|
                0 <= i < nodes.len() ==> (#[trigger] nodes[i]) is Concat || nodes[i]
                    == Manifest::Extents(extents)
            &&& extents.len() > 0 ==> nodes.len() > 0 && nodes[0] == Manifest::Extents(extents)
        }),
{
    let extents = placed_data(start, data);
    if start >= old_size && extents.len() > 0 && manifest != empty_identifier() {
        let window = extents_window(extents, extents_plan(extents).identifier)->0;
        lemma_append_joins(manifests, manifest, 0, old_size, window, MANIFEST_LEVELS as nat);
    }
}

proof fn lemma_pieces_stored(
    chunks: Blobs,
    bytes: Seq<u8>,
    cuts: Seq<(usize, usize)>,
    count: nat,
    i: int,
)
    requires
        0 <= i < count <= cuts.len(),
    ensures
        ({
            let piece = bytes.subrange(cuts[i].0 as int, cuts[i].0 + cuts[i].1);
            let name = identifier(CONTENT_CHUNK_HASH_BLAKE3, piece);
            chunks.contains_key(name) || exists|j: int|
                0 <= j < piece_puts(chunks, bytes, cuts, count).len() && #[trigger] piece_puts(
                    chunks,
                    bytes,
                    cuts,
                    count,
                )[j] == (name, piece)
        }),
    decreases count,
{
    let piece = bytes.subrange(cuts[i].0 as int, cuts[i].0 + cuts[i].1);
    let name = identifier(CONTENT_CHUNK_HASH_BLAKE3, piece);
    let front = piece_puts(chunks, bytes, cuts, (count - 1) as nat);
    let puts = piece_puts(chunks, bytes, cuts, count);
    if !chunks.contains_key(name) {
        if i == count - 1 {
            assert(puts[front.len() as int] == (name, piece));
        } else {
            lemma_pieces_stored(chunks, bytes, cuts, (count - 1) as nat, i);
            let j = choose|j: int|
                0 <= j < front.len() && #[trigger] front[j] == (name, piece);
            assert(puts[j] == front[j]);
        }
    }
}

/// Data whose pieces are stored is held by the store, and its extents are ready.
pub proof fn lemma_data_held(chunks: Blobs, larger: Blobs, data: Seq<u8>)
    requires
        pieces_accepted(chunks, data, data_cuts(data)),
        uncollided(chunks, data_puts(chunks, data)),
        larger == put_blobs(chunks, data_puts(chunks, data)),
    ensures
        chunks.submap_of(larger),
        holds_pieces(larger, data, data_cuts(data)),
{
    let cuts = data_cuts(data);
    let puts = data_puts(chunks, data);
    lemma_store_grows(chunks, puts);
    assert forall|i: int| 0 <= i < cuts.len() implies ({
        let piece = data.subrange((#[trigger] cuts[i]).0 as int, cuts[i].0 + cuts[i].1);
        let name = identifier(CONTENT_CHUNK_HASH_BLAKE3, piece);
        larger.contains_key(name) && larger[name] == piece
    }) by {
        let piece = data.subrange(cuts[i].0 as int, cuts[i].0 + cuts[i].1);
        let name = identifier(CONTENT_CHUNK_HASH_BLAKE3, piece);
        lemma_pieces_stored(chunks, data, cuts, cuts.len(), i);
        assert(chunk_accepted(chunks, name, piece));
        if chunks.contains_key(name) {
            assert(chunks.dom().contains(name));
            assert(larger.dom().contains(name));
        } else {
            let j = choose|j: int| 0 <= j < puts.len() && #[trigger] puts[j] == (name, piece);
            assert(larger.contains_key(puts[j].0));
        }
    }
}

proof fn lemma_placed_ready(chunks: Blobs, larger: Blobs, data: Seq<u8>, offset: u64)
    requires
        pieces_accepted(chunks, data, data_cuts(data)),
        holds_pieces(larger, data, data_cuts(data)),
        data.len() > 0,
        is_partition(data_cuts(data), data.len() as int),
        offset + data.len() <= u64::MAX,
    ensures
        chunks_ready(larger, placed_data(offset, data)),
{
    let cuts = data_cuts(data);
    let extents = placed_data(offset, data);
    assert forall|i: int| 0 <= i < extents.len() implies chunk_ready(larger, #[trigger] extents[i]) by {
        let piece = data.subrange(cuts[i].0 as int, cuts[i].0 + cuts[i].1);
        let name = identifier(CONTENT_CHUNK_HASH_BLAKE3, piece);
        lemma_partition_within(cuts, data.len() as int, i);
        assert(chunk_accepted(chunks, name, piece));
        assert(larger.contains_key(name) && larger[name] == piece);
        assert(name.skip(1) =~= crate::hash::blake3_hash(piece));
    }
}

/// The manifests stored beside a change of file contents agree with the store, and none has the name of
/// the empty manifest; its chunks agree as well.
pub open spec fn names_agree(image: Image, batch: BatchView) -> bool {
    &&& uncollided(image.manifests, batch.manifests)
    &&& uncollided(image.chunks, batch.chunks)
    &&& forall|i: int|
        0 <= i < batch.manifests.len() ==> (#[trigger] batch.manifests[i]).0 != empty_identifier()
}

proof fn lemma_manifests_stored(
    nodes: Blobs,
    puts: Seq<(Seq<u8>, Seq<u8>)>,
    manifests: Seq<Manifest>,
    at: int,
)
    requires
        uncollided(nodes, puts),
        all_sound(manifests),
        0 <= at,
        at + manifests.len() <= puts.len(),
        puts.subrange(at, at + manifests.len()) == manifest_puts(manifests),
        forall|i: int| 0 <= i < puts.len() ==> (#[trigger] puts[i]).0 != empty_identifier(),
    ensures
        stores(put_blobs(nodes, puts), manifests),
        forall|i: int|
            0 <= i < manifests.len() ==> manifest_at(
                put_blobs(nodes, puts),
                manifest_identifier(#[trigger] manifests[i]),
            ) == Some(manifests[i]),
{
    let larger = put_blobs(nodes, puts);
    lemma_store_grows(nodes, puts);
    assert forall|i: int| 0 <= i < manifests.len() implies ({
        let manifest = #[trigger] manifests[i];
        &&& sound(manifest)
        &&& manifest_identifier(manifest) != empty_identifier()
        &&& larger.contains_key(manifest_identifier(manifest))
        &&& larger[manifest_identifier(manifest)] == manifest_encoding(manifest)
        &&& manifest_at(larger, manifest_identifier(manifest)) == Some(manifest)
    }) by {
        let manifest = manifests[i];
        assert(puts.subrange(at, at + manifests.len())[i] == puts[at + i]);
        assert(manifest_puts(manifests)[i] == (
            manifest_identifier(manifest),
            manifest_encoding(manifest),
        ));
        assert(larger.contains_key(puts[at + i].0));
    }
}

/// A store stays stocked when manifests and chunks are added, as long as the added lists of extents
/// are ready.
proof fn lemma_stays_stocked(
    nodes: Blobs,
    puts: Seq<(Seq<u8>, Seq<u8>)>,
    manifests: Seq<Manifest>,
    chunks: Blobs,
    larger: Blobs,
)
    requires
        stocked(nodes, chunks),
        chunks.submap_of(larger),
        uncollided(nodes, puts),
        puts == manifest_puts(manifests),
        all_sound(manifests),
        forall|i: int|
            0 <= i < manifests.len() ==> ((#[trigger] manifests[i]) matches Manifest::Extents(extents)
                ==> chunks_ready(larger, extents)),
    ensures
        stocked(put_blobs(nodes, puts), larger),
{
    let after = put_blobs(nodes, puts);
    lemma_store_grows(nodes, puts);
    assert forall|name: Seq<u8>|
        (#[trigger] manifest_at(after, name)) matches Some(Manifest::Extents(extents))
            ==> chunks_ready(larger, extents) by {
        if manifest_at(after, name) is Some && manifest_at(after, name)->0 is Extents {
            let extents = manifest_at(after, name)->0->Extents_0;
            assert(after.contains_key(name));
            if nodes.contains_key(name) {
                assert(nodes.dom().contains(name));
                assert(after.dom().contains(name));
                assert(manifest_at(nodes, name) == manifest_at(after, name));
                lemma_ready_kept(chunks, larger, extents);
            } else {
                let i = choose|i: int| 0 <= i < puts.len() && (#[trigger] puts[i]).0 == name;
                assert(after[puts[i].0] == puts[i].1);
                assert(puts[i].1 == manifest_encoding(manifests[i]));
                assert(sound(manifests[i]));
                assert(manifests[i] == Manifest::Extents(extents));
            }
        }
    }
}

proof fn lemma_ready_kept(chunks: Blobs, larger: Blobs, extents: Seq<ExtentView>)
    requires
        chunks_ready(chunks, extents),
        chunks.submap_of(larger),
    ensures
        chunks_ready(larger, extents),
{
    assert forall|i: int| 0 <= i < extents.len() implies chunk_ready(larger, #[trigger] extents[i]) by {
        assert(chunk_ready(chunks, extents[i]));
        assert(chunks.dom().contains(extents[i].chunk_identifier));
        assert(larger.dom().contains(extents[i].chunk_identifier));
    }
}

/// Replacing nothing keeps what a file holds.
proof fn lemma_replace_nothing(
    nodes: Blobs,
    larger: Blobs,
    previous: Seq<u8>,
    size: u64,
    offset: u64,
    levels: nat,
)
    requires
        complete(nodes, previous, levels),
        bounded(nodes, previous, size as int, levels),
        nodes.submap_of(larger),
        offset < size,
        replaced_plan(previous, size, offset, offset, Seq::empty()) is Some,
        stores(
            larger,
            replaced_plan(previous, size, offset, offset, Seq::empty())->0.nodes,
        ),
    ensures
        ({
            let new = replaced_plan(previous, size, offset, offset, Seq::empty())->0.identifier;
            &&& appendable(larger, new, size as int, levels + 1)
            &&& forall|position: int|
                position >= 0 ==> (#[trigger] cell(larger, new, position, levels + 1)) == cell(
                    nodes,
                    previous,
                    position,
                    levels,
                )
        }),
{
    let before = ChildView { logical_offset: 0, length: offset, identifier: previous };
    let after = ChildView {
        logical_offset: offset,
        length: (size - offset) as u64,
        identifier: previous,
    };
    let children = if offset > 0 {
        seq![before, after]
    } else {
        seq![after]
    };
    assert(replaced_children(previous, size, offset, offset, Seq::empty()) =~= children);
    assert(open_children(children) == children) by {
        crate::contents::lemma_open_children_all(children);
    }
    lemma_complete_extends(nodes, larger, previous, levels, levels);
    let plan = replaced_plan(previous, size, offset, offset, Seq::empty())->0;
    assert(plan.nodes =~= seq![Manifest::Concat(children)]);
    crate::contents::lemma_joined(nodes, larger, children, levels);
    assert forall|position: int| position >= 0 implies (#[trigger] cell(
        larger,
        plan.identifier,
        position,
        levels + 1,
    )) == cell(nodes, previous, position, levels) by {
        assert(cell(larger, previous, position, levels) == cell(
            nodes,
            previous,
            position,
            levels,
        ));
        assert(children.last() == after);
        assert(children.drop_last() =~= if offset > 0 {
            seq![before]
        } else {
            Seq::<ChildView>::empty()
        });
        if offset > 0 {
            assert(seq![before].last() == before);
            assert(seq![before].drop_last() =~= Seq::<ChildView>::empty());
            assert(child_cell(larger, Seq::<ChildView>::empty(), position, levels) is None);
            assert(child_cell(larger, seq![before], position, levels) == if before.covers(
                position,
            ) {
                cell(larger, previous, position, levels)
            } else {
                None
            });
        }
        if position >= size {
            assert(cell(nodes, previous, position, levels) is None);
        }
    }
}

/// What a commit of a change of file contents stores in the two content stores.
pub proof fn lemma_content_rows(storage: StorageView, content: ContentChange, prepared: PreparedView)
    requires
        storage.prepare_content(content) == Ok::<PreparedView, FuseError>(prepared),
        content.rows.manifests == manifest_puts(content.plan.nodes),
    ensures
        prepared.batch.chunks == content.rows.chunks,
        prepared.batch.manifests == manifest_puts(
            content.plan.nodes + payload_manifests(content.change.event, content.payload),
        ),
        prepared.mutation == content.change.mutation,
        prepared.sequence == content.change.event.sequence,
{
    let event = content.change.event;
    let record = crate::commit::placed_event(storage.active, event);
    let commit = commit_of(
        storage.image,
        storage.active,
        storage.write.active_branch_identifier,
        event.sequence,
        event,
        content.payload,
        Some(content.plan.identifier),
        content.change.mutation,
    )->0;
    let payloads = crate::commit::payload_rows(event.sequence.0, record, content.payload)->0;
    crate::commit::lemma_payload_manifests(event.sequence.0, record, content.payload);
    assert(payload_manifests(record, content.payload) == payload_manifests(event, content.payload));
    assert(commit.rows.manifests =~= payloads.manifests);
    assert(payloads.chunks =~= Seq::<(Seq<u8>, Seq<u8>)>::empty());
    assert(commit.rows.chunks =~= Seq::<(Seq<u8>, Seq<u8>)>::empty());
    assert(prepared.batch.chunks =~= content.rows.chunks);
    assert(prepared.batch.manifests =~= manifest_puts(
        content.plan.nodes + payload_manifests(event, content.payload),
    ));
}

/// A state after one inode was stored has that inode and all others as they were.
pub proof fn lemma_inode_stored(namespace: Namespace, number: u64, inode: InodeView, other: u64)
    ensures
        ({
            let after = namespace.after(MutationView::nothing().with_inode(number, inode));
            &&& after.inode(number) == Some(inode)
            &&& other != number ==> after.inode(other) == namespace.inode(other)
            &&& after.entries == namespace.entries
            &&& after.attributes == namespace.attributes
        }),
{
    let mutation = MutationView::nothing().with_inode(number, inode);
    let after = namespace.after(mutation);
    assert(mutation.inode_puts =~= seq![(number, inode)]);
    assert(mutation.inode_puts.drop_last() =~= Seq::<(u64, InodeView)>::empty());
    assert(remove_inodes(namespace.inodes, mutation.inode_deletes) == namespace.inodes);
    assert(put_inodes(namespace.inodes, mutation.inode_puts.drop_last()) == namespace.inodes);
    assert(mutation.inode_puts.last() == (number, inode));
    assert(after.inodes == namespace.inodes.insert(u64_key(number), inode));
    if other != number && u64_key(other) == u64_key(number) {
        lemma_u64_key_injective(other, number);
    }
}

/// What storing a change of file contents does to the content stores: they only grow, the manifests of
/// the change are there, and the stores stay stocked.
proof fn lemma_content_stored(
    storage: StorageView,
    content: ContentChange,
    prepared: PreparedView,
    larger: Blobs,
)
    requires
        stocked(storage.image.manifests, storage.image.chunks),
        storage.prepare_content(content) == Ok::<PreparedView, FuseError>(prepared),
        content.rows.manifests == manifest_puts(content.plan.nodes),
        content_sound(content),
        names_agree(storage.image, prepared.batch),
        larger == put_blobs(storage.image.chunks, content.rows.chunks),
        forall|i: int|
            0 <= i < content.plan.nodes.len() ==> ((
            #[trigger] content.plan.nodes[i]) matches Manifest::Extents(extents) ==> chunks_ready(
                larger,
                extents,
            )),
        content.payload matches PayloadExtents::FileWrite(overwritten, written) ==> chunks_ready(
            larger,
            overwritten,
        ) && chunks_ready(larger, written),
    ensures
        ({
            let after = storage.after(prepared);
            &&& storage.image.manifests.submap_of(after.image.manifests)
            &&& storage.image.chunks.submap_of(after.image.chunks)
            &&& after.image.chunks == larger
            &&& stores(after.image.manifests, content.plan.nodes)
            &&& stores(
                after.image.manifests,
                payload_manifests(content.change.event, content.payload),
            )
            &&& stocked(after.image.manifests, after.image.chunks)
        }),
{
    lemma_content_rows(storage, content, prepared);
    let after = storage.after(prepared);
    let paid = payload_manifests(content.change.event, content.payload);
    let manifests = content.plan.nodes + paid;
    let puts = prepared.batch.manifests;
    lemma_store_grows(storage.image.manifests, puts);
    lemma_store_grows(storage.image.chunks, prepared.batch.chunks);
    assert(all_sound(manifests));
    assert(puts.subrange(0, content.plan.nodes.len() as int) =~= manifest_puts(
        content.plan.nodes,
    ));
    lemma_manifests_stored(storage.image.manifests, puts, content.plan.nodes, 0);
    let at = content.plan.nodes.len() as int;
    assert(puts.subrange(at, at + paid.len()) =~= manifest_puts(paid));
    lemma_manifests_stored(storage.image.manifests, puts, paid, at);
    assert forall|i: int| 0 <= i < manifests.len() implies ((
    #[trigger] manifests[i]) matches Manifest::Extents(extents) ==> chunks_ready(larger, extents)) by {
        if i < at {
            assert(manifests[i] == content.plan.nodes[i]);
        } else {
            assert(manifests[i] == paid[i - at]);
        }
    }
    lemma_stays_stocked(
        storage.image.manifests,
        puts,
        manifests,
        storage.image.chunks,
        larger,
    );
}

/// Writing is read back: after a write the file has the data where it was written and its old bytes
/// elsewhere, it is as long as before or up to the end of the data, and it can be written again.
pub proof fn lemma_write_is_read_back(
    storage: StorageView,
    number: u64,
    inode: InodeView,
    offset: u64,
    data: Seq<u8>,
    append: bool,
    clear_privileges: bool,
    now: StoredTime,
    created_at: time::UtcDateTime,
    prepared: PreparedView,
    levels: nat,
)
    requires
        stocked(storage.image.manifests, storage.image.chunks),
        storage.namespace().inode(number) == Some(inode),
        sound_file(storage.image, inode, levels),
        levels <= MANIFEST_LEVELS,
        crate::storage::write_commit(
            storage,
            number,
            offset,
            data,
            append,
            clear_privileges,
            now,
            created_at,
        ) == Ok::<PreparedView, FuseError>(prepared),
        content_sound(
            write_change(
                storage.image,
                storage.namespace(),
                storage.write,
                number,
                offset,
                data,
                append,
                clear_privileges,
                now,
                created_at,
            )->Ok_0,
        ),
        data.len() > 0 ==> is_partition(data_cuts(data), data.len() as int),
        names_agree(storage.image, prepared.batch),
    ensures
        ({
            let after = storage.after(prepared);
            let content = write_change(
                storage.image,
                storage.namespace(),
                storage.write,
                number,
                offset,
                data,
                append,
                clear_privileges,
                now,
                created_at,
            )->Ok_0;
            let written = after.namespace().inode(number);
            let start = if append {
                inode.size
            } else {
                offset
            };
            &&& storage.image.manifests.submap_of(after.image.manifests)
            &&& storage.image.chunks.submap_of(after.image.chunks)
            &&& stocked(after.image.manifests, after.image.chunks)
            &&& stores(
                after.image.manifests,
                payload_manifests(content.change.event, content.payload),
            )
            &&& stores(after.image.manifests, content.plan.nodes)
            &&& data.len() > 0 ==> shows(
                after.image.manifests,
                ChildView {
                    logical_offset: start,
                    length: data.len() as u64,
                    identifier: extents_plan(placed_data(start, data)).identifier,
                },
                placed_data(start, data),
            )
            &&& written is Some
            &&& sound_file(after.image, written->0, levels + 1)
            &&& written->0.size == if inode.size < start + data.len() {
                start + data.len()
            } else {
                inode.size as int
            }
            &&& forall|position: int|
                position >= 0 ==> (#[trigger] byte_at(
                    after.image,
                    written->0,
                    position,
                    levels + 1,
                )) == (if start <= position < start + data.len() {
                    data[position - start]
                } else {
                    byte_at(storage.image, inode, position, levels)
                })
        }),
{
    let content = write_change(
        storage.image,
        storage.namespace(),
        storage.write,
        number,
        offset,
        data,
        append,
        clear_privileges,
        now,
        created_at,
    )->Ok_0;
    let image = storage.image;
    let start = if append {
        inode.size
    } else {
        offset
    };
    let end = (start + data.len()) as u64;
    let manifest = manifest_of(inode);
    let extents = placed_data(start, data);
    let larger = put_blobs(image.chunks, content.rows.chunks);
    lemma_content_rows(storage, content, prepared);
    lemma_data_held(image.chunks, larger, data);
    lemma_written_nodes(image.manifests, manifest, inode.size, start, end, data);
    let overwritten = overwritten_by_write(image, manifest, inode.size, start, end)->0;
    lemma_ready_kept(image.chunks, larger, overwritten);
    if data.len() > 0 {
        lemma_placed_ready(image.chunks, larger, data, start);
        lemma_placed_ready(image.chunks, larger, data, 0);
        lemma_placed_data(larger, data, start, extents_plan(extents).identifier);
    } else {
        lemma_no_extents(data, start);
        lemma_no_extents(data, 0);
    }
    lemma_content_stored(storage, content, prepared, larger);
    let after = storage.after(prepared);
    let written = content.inode;
    lemma_inode_stored(storage.namespace(), number, written, number);
    let nodes = content.plan.nodes;
    if data.len() > 0 {
        let window = ChildView {
            logical_offset: start,
            length: data.len() as u64,
            identifier: extents_plan(extents).identifier,
        };
        assert(shows(after.image.manifests, window, extents)) by {
            assert(nodes[0] == Manifest::Extents(extents));
            assert(sound(nodes[0]));
        }
        if start >= inode.size {
            lemma_appending_writes(
                image.manifests,
                after.image.manifests,
                manifest,
                inode.size,
                extents,
                levels,
            );
        } else {
            lemma_replace_writes(
                image.manifests,
                after.image.manifests,
                manifest,
                inode.size,
                start,
                end,
                extents,
                levels,
            );
        }
    } else if start >= inode.size {
        lemma_appendable_extends(
            image.manifests,
            after.image.manifests,
            manifest,
            inode.size as int,
            end as int,
            levels,
            levels + 1,
        );
        lemma_complete_extends(
            image.manifests,
            after.image.manifests,
            manifest,
            levels,
            levels + 1,
        );
    } else {
        lemma_replace_nothing(
            image.manifests,
            after.image.manifests,
            manifest,
            inode.size,
            start,
            levels,
        );
    }
    assert forall|position: int| position >= 0 implies (#[trigger] byte_at(
        after.image,
        written,
        position,
        levels + 1,
    )) == (if start <= position < start + data.len() {
        data[position - start]
    } else {
        byte_at(image, inode, position, levels)
    }) by {
        let place = cell(after.image.manifests, manifest_of(written), position, levels + 1);
        if start <= position < start + data.len() {
            assert(place == extent_cell(extents, position));
            assert(chunk_byte(larger, extent_cell(extents, position)->0) == Some(
                data[position - start],
            ));
        } else {
            assert(place == cell(image.manifests, manifest, position, levels));
            if place is Some {
                lemma_cell_ready(image.manifests, image.chunks, manifest, position, levels);
                assert(image.chunks.dom().contains((place->0).0));
                assert(larger.dom().contains((place->0).0));
            }
        }
    }
}

proof fn lemma_no_extents(data: Seq<u8>, offset: u64)
    requires
        data.len() == 0,
    ensures
        placed_data(offset, data).len() == 0,
{
}

/// Changing the size of a file keeps its bytes up to the smaller size; the rest of a longer file reads
/// as zeros.
pub proof fn lemma_resize_keeps_bytes(
    storage: StorageView,
    number: u64,
    inode: InodeView,
    new_size: u64,
    created_at: time::UtcDateTime,
    answer: crate::storage::EntrySnapshot,
    prepared: PreparedView,
    levels: nat,
)
    requires
        stocked(storage.image.manifests, storage.image.chunks),
        sound_file(storage.image, inode, levels),
        crate::storage::resize_commit(storage, number, inode, new_size, created_at) == Ok::<
            (crate::storage::EntrySnapshot, Option<PreparedView>),
            FuseError,
        >((answer, Some(prepared))),
        content_sound(
            resize_change(
                storage.image,
                storage.namespace(),
                storage.write,
                number,
                inode,
                new_size,
                created_at,
            )->Ok_0->0,
        ),
        names_agree(storage.image, prepared.batch),
    ensures
        ({
            let after = storage.after(prepared);
            let resized = after.namespace().inode(number);
            let content = resize_change(
                storage.image,
                storage.namespace(),
                storage.write,
                number,
                inode,
                new_size,
                created_at,
            )->Ok_0->0;
            &&& storage.image.manifests.submap_of(after.image.manifests)
            &&& storage.image.chunks.submap_of(after.image.chunks)
            &&& stocked(after.image.manifests, after.image.chunks)
            &&& stores(
                after.image.manifests,
                payload_manifests(content.change.event, content.payload),
            )
            &&& resized is Some
            &&& sound_file(after.image, resized->0, levels + 1)
            &&& resized->0.size == new_size
            &&& forall|position: int|
                position >= 0 ==> (#[trigger] byte_at(
                    after.image,
                    resized->0,
                    position,
                    levels + 1,
                )) == (if position < new_size && position < inode.size {
                    byte_at(storage.image, inode, position, levels)
                } else {
                    0
                })
        }),
{
    let content = resize_change(
        storage.image,
        storage.namespace(),
        storage.write,
        number,
        inode,
        new_size,
        created_at,
    )->Ok_0->0;
    let image = storage.image;
    let manifest = manifest_of(inode);
    let larger = put_blobs(image.chunks, content.rows.chunks);
    assert(larger == image.chunks);
    lemma_content_stored(storage, content, prepared, larger);
    let after = storage.after(prepared);
    let resized = content.inode;
    lemma_inode_stored(storage.namespace(), number, resized, number);
    if new_size > inode.size {
        lemma_appendable_extends(
            image.manifests,
            after.image.manifests,
            manifest,
            inode.size as int,
            new_size as int,
            levels,
            levels + 1,
        );
        lemma_complete_extends(
            image.manifests,
            after.image.manifests,
            manifest,
            levels,
            levels + 1,
        );
    } else {
        lemma_range_restricts(
            image.manifests,
            after.image.manifests,
            manifest,
            0,
            new_size,
            levels,
        );
    }
    assert forall|position: int| position >= 0 implies (#[trigger] byte_at(
        after.image,
        resized,
        position,
        levels + 1,
    )) == (if position < new_size && position < inode.size {
        byte_at(image, inode, position, levels)
    } else {
        0
    }) by {
        if position >= inode.size {
            assert(cell(image.manifests, manifest, position, levels) is None);
        }
    }
}

/// A created regular file is sound, is empty and can be written to.
pub proof fn lemma_new_file_is_empty(
    image: Image,
    namespace: Namespace,
    write: WriteState,
    parent: u64,
    name: Seq<u8>,
    metadata: CreateNodeMetadata,
    now: StoredTime,
    created_at: time::UtcDateTime,
    created: InodeChange,
    position: int,
)
    requires
        node_creation(
            namespace,
            write,
            parent,
            name,
            CreateNodeKind::RegularFile,
            metadata,
            now,
            created_at,
        ) == Ok::<InodeChange, FuseError>(created),
    ensures
        sound_file(image, created.inode, 1),
        created.inode.size == 0,
        byte_at(image, created.inode, position, 1) == 0,
{
}

/// Past its end a regular file has nothing but zeros, so that the gap that a write further on leaves
/// reads as zeros.
pub proof fn lemma_nothing_past_end(image: Image, inode: InodeView, position: int, levels: nat)
    requires
        sound_file(image, inode, levels),
        position >= inode.size,
    ensures
        byte_at(image, inode, position, levels) == 0,
{
    assert(cell(image.manifests, manifest_of(inode), position, levels) is None);
}

} // verus!
