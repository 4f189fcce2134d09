//! What is read is genuine: bytes under an identifier are used only where the identifier is that of the
//! bytes, and events only where they lie where they are listed.

use vstd::prelude::*;

use crate::chunks::range_readable;
use crate::database::Image;
use crate::error::FuseError;
use crate::filesystem::{BranchIdentifier, FileIdentifier};
use crate::hash::{blake3_hash, identifier, identifies, Blobs};
use crate::history::{branch_event_at, branch_file_event_at, event_of, file_event_at};
use crate::inode::StoredNodeKind;
use crate::keys::{lemma_ordinal_round_trip, lemma_triple_round_trip, pair_key, triple_key};
use crate::manifest::{extents_in_range, manifest_at};
use crate::namespace::Namespace;
use crate::storage::{read_result, readable_length};
use crate::trie::node_at;

verus! {

/// An identifier is that of some bytes exactly when it is its prefix followed by their hash.
pub proof fn lemma_identifier_names_bytes(name: Seq<u8>, prefix: u8, bytes: Seq<u8>)
    ensures
        identifies(name, prefix, bytes) <==> name == seq![prefix] + blake3_hash(bytes),
        identifies(identifier(prefix, bytes), prefix, bytes),
        identifier(prefix, bytes).len() == 33,
{
    let expected = seq![prefix] + blake3_hash(bytes);
    assert(blake3_hash(bytes).len() == 32);
    assert(expected.skip(1) =~= blake3_hash(bytes));
    if identifies(name, prefix, bytes) {
        assert(name =~= seq![name[0]] + name.skip(1));
    }
}

/// A manifest or a node of a state that is read is what its identifier names: bytes that were changed so
/// that their hash is another are not read.
pub proof fn lemma_read_node_is_genuine(nodes: Blobs, name: Seq<u8>)
    ensures
        manifest_at(nodes, name) is Some ==> nodes.contains_key(name) && name == seq![2u8]
            + blake3_hash(nodes[name]),
        node_at(nodes, name) is Some ==> nodes.contains_key(name) && name == seq![3u8]
            + blake3_hash(nodes[name]),
        name.len() == 33 && name.skip(1) != blake3_hash(nodes[name]) ==> manifest_at(
            nodes,
            name,
        ) is None && node_at(nodes, name) is None,
{
    lemma_identifier_names_bytes(name, 2, nodes[name]);
    lemma_identifier_names_bytes(name, 3, nodes[name]);
}

/// A range of a file is read only where every chunk in it is there, is what its identifier names and is
/// long enough. Otherwise reading the file fails the integrity check.
pub proof fn lemma_read_range_is_genuine(
    image: Image,
    namespace: Namespace,
    number: u64,
    offset: u64,
    size: u32,
    i: int,
)
    requires
        namespace.inode(number) is Some,
        namespace.inode(number)->0.kind == StoredNodeKind::RegularFile,
        namespace.inode(number)->0.content_manifest_identifier is Some,
        offset < namespace.inode(number)->0.size,
        size > 0,
    ensures
        ({
            let inode = namespace.inode(number)->0;
            let length = readable_length(inode.size, offset, size);
            let extents = extents_in_range(
                image.manifests,
                inode.content_manifest_identifier->0,
                offset,
                (offset + length) as u64,
            );
            let extent = extents->0[i];
            let chunk = image.chunks[extent.chunk_identifier];
            let read = read_result(image, namespace, number, offset, size);
            &&& read is Ok ==> extents is Some
            &&& read is Ok && 0 <= i < extents->0.len() ==> {
                &&& image.chunks.contains_key(extent.chunk_identifier)
                &&& extent.chunk_identifier == seq![1u8] + blake3_hash(chunk)
                &&& extent.chunk_offset + extent.length <= chunk.len()
            }
            &&& read is Err ==> read == Err::<Seq<u8>, FuseError>(FuseError::Integrity)
        }),
{
    let inode = namespace.inode(number)->0;
    let manifest = inode.content_manifest_identifier->0;
    let length = readable_length(inode.size, offset, size);
    let extents = extents_in_range(
        image.manifests,
        manifest,
        offset,
        (offset + length) as u64,
    );
    let extent = extents->0[i];
    if range_readable(image.manifests, image.chunks, manifest, offset, length) && 0 <= i
        < extents->0.len() {
        assert(crate::chunks::chunk_ready(image.chunks, extent));
        lemma_identifier_names_bytes(
            extent.chunk_identifier,
            1,
            image.chunks[extent.chunk_identifier],
        );
    }
}

/// An event that is read has the sequence that it is asked for by. One that is listed at a position of a
/// branch lies there, and one that is listed under a file is about the file and is listed under it in
/// both indexes.
pub proof fn lemma_listed_event_is_genuine(
    image: Image,
    sequence: u64,
    branch: BranchIdentifier,
    file: FileIdentifier,
    ordinal: u64,
)
    ensures
        ({
            let asked = event_of(image, sequence);
            let listed = branch_event_at(image, branch, pair_key(branch.0, ordinal));
            let key = triple_key(branch.0, file.0, ordinal);
            let own = branch_file_event_at(image, branch, file, key);
            let both = file_event_at(image, branch, file, key);
            &&& asked is Ok && asked->Ok_0 is Some ==> asked->Ok_0->0.sequence.0 == sequence
            &&& listed is Some ==> {
                &&& listed->0.branch_identifier == Some(branch)
                &&& listed->0.branch_position is Some
                &&& listed->0.branch_position->0.branch_identifier == branch
                &&& listed->0.branch_position->0.ordinal == ordinal
                &&& event_of(image, listed->0.sequence.0)->Ok_0 == Some(listed->0)
            }
            &&& own is Some ==> {
                &&& own->0.file_identifier == Some(file)
                &&& own->0.branch_identifier == Some(branch)
                &&& own->0.branch_position is Some
                &&& own->0.branch_position->0.branch_identifier == branch
                &&& own->0.branch_position->0.ordinal == ordinal
                &&& event_of(image, own->0.sequence.0)->Ok_0 == Some(own->0)
            }
            &&& both is Some ==> both == own && image.file_events.contains_key(
                pair_key(file.0, both->0.sequence.0),
            )
        }),
{
    lemma_ordinal_round_trip(branch.0, ordinal);
    lemma_triple_round_trip(branch.0, file.0, ordinal);
}

} // verus!
