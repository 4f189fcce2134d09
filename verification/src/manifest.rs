//! Content manifests: where the bytes of a file lie. A manifest is a list of extents, or joins other
//! manifests, each seen through a window.

use vstd::prelude::*;

use crate::bytes::{append_bytes, bytes_equal, has_prefix, starts_with};
use crate::error::FilesystemError;
use crate::extents::{
    extent_views, extents_result, extents_slice, slice_extents, ExtentView, StoredExtent,
};
use crate::hash::{
    blobs, content_manifest_identifier_for_bytes, identifier, identifies, validate_content_manifest,
    validate_prefixed_blake3_identifier_shape, well_shaped, Blobs, CONTENT_MANIFEST_HASH_BLAKE3,
};
use crate::table::Table;

verus! {

/// Most children that one manifest joins.
pub const CONTENT_MANIFEST_CONCAT_MAX_CHILDREN: usize = 256;

/// Deepest level of a manifest that is read.
pub const CONTENT_MANIFEST_MAX_DEPTH: usize = 4096;

/// The bytes that mark a manifest which joins others.
pub open spec fn node_magic() -> Seq<u8> {
    seq![
        101, 118, 101, 110, 116, 102, 115, 46, 99, 111, 110, 116, 101, 110, 116, 45, 109, 97, 110,
        105, 102, 101, 115, 116, 46, 110, 111, 100, 101, 46, 118, 49, 0,
    ]
}

/// A manifest seen through a window.
#[derive(Debug, PartialEq, Eq)]
pub struct StoredContentManifestChild {
    /// Start of the window in the file.
    pub logical_offset: u64,
    /// Length of the window.
    pub length: u64,
    /// The manifest.
    pub identifier: Vec<u8>,
}

/// The value of a child.
pub ghost struct ChildView {
    pub logical_offset: u64,
    pub length: u64,
    pub identifier: Seq<u8>,
}

impl View for StoredContentManifestChild {
    type V = ChildView;

    open spec fn view(&self) -> ChildView {
        ChildView {
            logical_offset: self.logical_offset,
            length: self.length,
            identifier: self.identifier@,
        }
    }
}

impl ChildView {
    /// The end of the window.
    pub open spec fn end(self) -> int {
        self.logical_offset + self.length
    }

    /// The window holds a file position.
    pub open spec fn covers(self, position: int) -> bool {
        self.logical_offset <= position < self.end()
    }
}

/// The values of children.
pub open spec fn child_views(children: Seq<StoredContentManifestChild>) -> Seq<ChildView> {
    Seq::new(children.len(), |i: int| children[i]@)
}

/// A decoded manifest.
#[derive(Debug, PartialEq, Eq)]
pub enum DecodedContentManifest {
    /// A list of extents.
    Extents(Vec<StoredExtent>),
    /// Other manifests, joined.
    Concat(Vec<StoredContentManifestChild>),
}

/// The value of a manifest.
pub ghost enum Manifest {
    Extents(Seq<ExtentView>),
    Concat(Seq<ChildView>),
}

impl View for DecodedContentManifest {
    type V = Manifest;

    open spec fn view(&self) -> Manifest {
        match self {
            DecodedContentManifest::Extents(extents) => Manifest::Extents(extent_views(extents@)),
            DecodedContentManifest::Concat(children) => Manifest::Concat(child_views(children@)),
        }
    }
}

/// The variable-length encoding of a number: seven bits a byte, lowest first, the high bit set on
/// all but the last.
pub open spec fn varint(number: nat) -> Seq<u8>
    decreases number,
{
    if number < 128 {
        seq![number as u8]
    } else {
        seq![(128 + number % 128) as u8] + varint(number / 128)
    }
}

/// The stored form of a list of extents.
pub uninterp spec fn extents_encoding(extents: Seq<ExtentView>) -> Seq<u8>;

/// The list of extents that a stored form stands for.
pub uninterp spec fn extents_decoding(bytes: Seq<u8>) -> Option<Seq<ExtentView>>;

/// What the stored form of a list of extents starts with: their number, and of the first its file
/// offset, its length and the length of its chunk identifier.
pub open spec fn extents_head(extents: Seq<ExtentView>) -> Seq<u8> {
    if extents.len() == 0 {
        varint(0)
    } else {
        varint(extents.len()) + varint(extents[0].logical_offset as nat) + varint(
            extents[0].length as nat,
        ) + varint(extents[0].chunk_identifier.len())
    }
}

/// Every extent names its chunk by an identifier of the usual length.
pub open spec fn named_chunks(extents: Seq<ExtentView>) -> bool {
    forall|i: int|
        0 <= i < extents.len() ==> (#[trigger] extents[i]).chunk_identifier.len()
            == crate::hash::IDENTIFIER_LENGTH
}

/// The variant number of joined manifests.
pub const CONTENT_MANIFEST_NODE_CONCAT: u32 = 0;

/// The stored form of a variant number and joined manifests, after the mark.
pub uninterp spec fn concat_encoding(variant: u32, children: Seq<ChildView>) -> Seq<u8>;

/// The variant number and the joined manifests that a stored form after the mark stands for.
pub uninterp spec fn concat_decoding(bytes: Seq<u8>) -> Option<(u32, Seq<ChildView>)>;

/// Calls `postcard::to_allocvec` of the postcard crate on the extents as tuples of their fields.
/// Claimed: the bytes depend on the extents alone; `postcard::from_bytes` gives the extents back;
/// the bytes start with the number of extents, then the file offset, the length and the identifier
/// length of the first, each in variable length. Writing to a growing vector does not fail.
#[verifier::external_body]
fn encode_extents(extents: &[StoredExtent]) -> (bytes: Vec<u8>)
    ensures
        bytes@ == extents_encoding(extent_views(extents@)),
        extents_decoding(bytes@) == Some(extent_views(extents@)),
        has_prefix(bytes@, extents_head(extent_views(extents@))),
{
    let rows: Vec<(u64, u64, &[u8], u64)> = extents
        .iter()
        .map(|e| (e.logical_offset, e.length, e.chunk_identifier.as_slice(), e.chunk_offset))
        .collect();
    postcard::to_allocvec(&rows).expect("extents are written to memory")
}

/// Calls `postcard::from_bytes` of the postcard crate for a list of tuples of the fields of extents.
/// Claimed: the result depends on the bytes alone.
#[verifier::external_body]
fn decode_extents(bytes: &[u8]) -> (extents: Option<Vec<StoredExtent>>)
    ensures
        match extents {
            Some(extents) => extents_decoding(bytes@) == Some(extent_views(extents@)),
            None => extents_decoding(bytes@) is None,
        },
{
    let rows: Vec<(u64, u64, Vec<u8>, u64)> = postcard::from_bytes(bytes).ok()?;
    Some(
        rows.into_iter()
            .map(|(logical_offset, length, chunk_identifier, chunk_offset)| StoredExtent {
                logical_offset,
                length,
                chunk_identifier,
                chunk_offset,
            })
            .collect(),
    )
}

/// Calls `postcard::to_allocvec` of the postcard crate on the variant number and the children as
/// tuples of their fields. Claimed: the bytes depend on these alone; `postcard::from_bytes` gives the
/// variant number and the children back. Writing to a growing vector does not fail.
#[verifier::external_body]
fn encode_concat(variant: u32, children: &[StoredContentManifestChild]) -> (bytes: Vec<u8>)
    ensures
        bytes@ == concat_encoding(variant, child_views(children@)),
        concat_decoding(bytes@) == Some((variant, child_views(children@))),
{
    let rows: Vec<(u64, u64, &[u8])> = children
        .iter()
        .map(|child| (child.logical_offset, child.length, child.identifier.as_slice()))
        .collect();
    postcard::to_allocvec(&(variant, rows)).expect("children are written to memory")
}

/// Calls `postcard::from_bytes` of the postcard crate for a variant number and a list of tuples of
/// the fields of children. Claimed: the result depends on the bytes alone.
#[verifier::external_body]
fn decode_concat(bytes: &[u8]) -> (decoded: Option<(u32, Vec<StoredContentManifestChild>)>)
    ensures
        match decoded {
            Some(pair) => concat_decoding(bytes@) == Some((pair.0, child_views(pair.1@))),
            None => concat_decoding(bytes@) is None,
        },
{
    let (variant, rows): (u32, Vec<(u64, u64, Vec<u8>)>) = postcard::from_bytes(bytes).ok()?;
    let children = rows
        .into_iter()
        .map(|(logical_offset, length, identifier)| StoredContentManifestChild {
            logical_offset,
            length,
            identifier,
        })
        .collect();
    Some((variant, children))
}

/// Joined manifests are in order: between one and the greatest number of them, each named by a
/// manifest identifier, their windows not empty, in range and one after the other.
pub open spec fn valid_children(children: Seq<ChildView>) -> bool {
    &&& 0 < children.len() <= CONTENT_MANIFEST_CONCAT_MAX_CHILDREN
    &&& forall|i: int|
        0 <= i < children.len() ==> {
            let child = #[trigger] children[i];
            &&& well_shaped(child.identifier, CONTENT_MANIFEST_HASH_BLAKE3)
            &&& child.length > 0
            &&& child.end() <= u64::MAX
        }
    &&& forall|i: int, j: int|
        0 <= i < j < children.len() ==> (#[trigger] children[i]).end() <= (
        #[trigger] children[j]).logical_offset
}

/// Checks that joined manifests are in order.
pub fn validate_stored_content_manifest_node(children: &[StoredContentManifestChild]) -> (result:
    Result<(), FilesystemError>)
    ensures
        result == crate::hash::integrity_unless(valid_children(child_views(children@))),
{
    let ghost all = child_views(children@);
    if children.len() == 0 || children.len() > CONTENT_MANIFEST_CONCAT_MAX_CHILDREN {
        return Err(FilesystemError::Integrity);
    }
    let mut previous_end: u64 = 0;
    let mut i: usize = 0;
    while i < children.len()
        invariant
            i <= children.len(),
            all == child_views(children@),
            forall|k: int| 0 <= k < i ==> (#[trigger] all[k]).end() <= previous_end,
            i == 0 ==> previous_end == 0,
            i > 0 ==> all[i - 1].end() == previous_end,
            forall|k: int|
                0 <= k < i ==> {
                    let child = #[trigger] all[k];
                    &&& well_shaped(child.identifier, CONTENT_MANIFEST_HASH_BLAKE3)
                    &&& child.length > 0
                    &&& child.end() <= u64::MAX
                },
            forall|k: int, l: int|
                0 <= k < l < i ==> (#[trigger] all[k]).end() <= (#[trigger] all[l]).logical_offset,
        decreases children.len() - i,
    {
        let child = &children[i];
        proof {
            assert(all[i as int] == child@);
        }
        match validate_prefixed_blake3_identifier_shape(
            child.identifier.as_slice(),
            CONTENT_MANIFEST_HASH_BLAKE3,
        ) {
            Err(_) => return Err(FilesystemError::Integrity),
            Ok(_) => {},
        }
        if child.length == 0 || child.logical_offset < previous_end {
            proof {
                if i > 0 && child.length != 0 {
                    assert(all[i - 1].end() > all[i as int].logical_offset);
                }
            }
            return Err(FilesystemError::Integrity);
        }
        previous_end = match child.logical_offset.checked_add(child.length) {
            Some(sum) => sum,
            None => return Err(FilesystemError::Integrity),
        };
        i = i + 1;
    }
    Ok(())
}

/// The stored form of a manifest.
pub open spec fn manifest_encoding(manifest: Manifest) -> Seq<u8> {
    match manifest {
        Manifest::Extents(extents) => extents_encoding(extents),
        Manifest::Concat(children) => node_magic() + concat_encoding(
            CONTENT_MANIFEST_NODE_CONCAT,
            children,
        ),
    }
}

/// The identifier of a manifest.
pub open spec fn manifest_identifier(manifest: Manifest) -> Seq<u8> {
    identifier(CONTENT_MANIFEST_HASH_BLAKE3, manifest_encoding(manifest))
}

/// The identifier of the manifest without extents, which is never stored.
pub open spec fn empty_identifier() -> Seq<u8> {
    manifest_identifier(Manifest::Extents(Seq::empty()))
}

/// The manifest that a stored form stands for: joined manifests after the mark, if they are in
/// order, else a list of extents.
pub open spec fn manifest_decoding(bytes: Seq<u8>) -> Option<Manifest> {
    if has_prefix(bytes, node_magic()) {
        match concat_decoding(bytes.skip(node_magic().len() as int)) {
            Some((variant, children)) => if variant == CONTENT_MANIFEST_NODE_CONCAT && valid_children(
                children,
            ) {
                Some(Manifest::Concat(children))
            } else {
                None
            },
            None => None,
        }
    } else {
        match extents_decoding(bytes) {
            Some(extents) => Some(Manifest::Extents(extents)),
            None => None,
        }
    }
}

/// Returns the mark of a manifest that joins others.
fn magic_bytes() -> (magic: Vec<u8>)
    ensures
        magic@ == node_magic(),
{
    let magic: Vec<u8> = vec![
        101, 118, 101, 110, 116, 102, 115, 46, 99, 111, 110, 116, 101, 110, 116, 45, 109, 97, 110,
        105, 102, 101, 115, 116, 46, 110, 111, 100, 101, 46, 118, 49, 0,
    ];
    proof {
        assert(magic@ =~= node_magic());
    }
    magic
}

proof fn lemma_varint_first(number: nat)
    ensures
        varint(number).len() > 0,
        number < 128 ==> varint(number) == seq![number as u8],
        number >= 128 ==> varint(number)[0] >= 128,
{
}

/// No stored form of a list of extents with named chunks starts with the mark.
proof fn lemma_extents_unmarked(bytes: Seq<u8>, extents: Seq<ExtentView>)
    requires
        has_prefix(bytes, extents_head(extents)),
        named_chunks(extents),
    ensures
        !has_prefix(bytes, node_magic()),
{
    if has_prefix(bytes, node_magic()) {
        let head = extents_head(extents);
        let magic = node_magic();
        assert forall|i: int| 0 <= i < head.len() && i < magic.len() implies head[i] == magic[i] by {
            assert(bytes.take(head.len() as int)[i] == bytes[i]);
            assert(bytes.take(magic.len() as int)[i] == bytes[i]);
        }
        lemma_varint_first(extents.len());
        if extents.len() > 0 {
            let offset = extents[0].logical_offset as nat;
            let length = extents[0].length as nat;
            lemma_varint_first(offset);
            lemma_varint_first(length);
            lemma_varint_first(extents[0].chunk_identifier.len());
            assert(head[0] == varint(extents.len())[0]);
            assert(head[1] == varint(offset)[0]);
            assert(head[2] == varint(length)[0]);
            assert(head[3] == 33);
        }
    }
}

/// A manifest decodes back from its stored form.
pub open spec fn decodes_back(manifest: Manifest) -> bool {
    manifest_decoding(manifest_encoding(manifest)) == Some(manifest)
}

/// Encodes a list of extents.
pub fn encode_content_manifest(extents: &[StoredExtent]) -> (bytes: Vec<u8>)
    ensures
        bytes@ == manifest_encoding(Manifest::Extents(extent_views(extents@))),
        named_chunks(extent_views(extents@)) ==> decodes_back(
            Manifest::Extents(extent_views(extents@)),
        ),
{
    let bytes = encode_extents(extents);
    proof {
        if named_chunks(extent_views(extents@)) {
            lemma_extents_unmarked(bytes@, extent_views(extents@));
        }
    }
    bytes
}

/// Encodes joined manifests that are in order.
pub fn encode_content_manifest_node(children: &[StoredContentManifestChild]) -> (bytes: Result<
    Vec<u8>,
    FilesystemError,
>)
    ensures
        match bytes {
            Ok(bytes) => {
                let manifest = Manifest::Concat(child_views(children@));
                &&& valid_children(child_views(children@))
                &&& bytes@ == manifest_encoding(manifest)
                &&& decodes_back(manifest)
            },
            Err(error) => error == FilesystemError::Integrity && !valid_children(
                child_views(children@),
            ),
        },
{
    match validate_stored_content_manifest_node(children) {
        Err(error) => return Err(error),
        Ok(_) => {},
    }
    let mut bytes = magic_bytes();
    let tail = encode_concat(CONTENT_MANIFEST_NODE_CONCAT, children);
    append_bytes(&mut bytes, tail.as_slice());
    proof {
        let magic = node_magic();
        assert(bytes@.take(magic.len() as int) =~= magic);
        assert(bytes@.skip(magic.len() as int) =~= tail@);
    }
    Ok(bytes)
}

/// Decodes the stored form of a manifest.
pub fn decode_content_manifest_entry(value: &[u8]) -> (decoded: Result<
    DecodedContentManifest,
    FilesystemError,
>)
    ensures
        match decoded {
            Ok(manifest) => manifest_decoding(value@) == Some(manifest@),
            Err(error) => error == FilesystemError::Integrity && manifest_decoding(value@) is None,
        },
{
    let magic = magic_bytes();
    if starts_with(value, magic.as_slice()) {
        let rest = vstd::slice::slice_subrange(value, magic.len(), value.len());
        proof {
            assert(value@.subrange(magic@.len() as int, value@.len() as int) =~= value@.skip(
                magic@.len() as int,
            ));
        }
        match decode_concat(rest) {
            None => Err(FilesystemError::Integrity),
            Some(pair) => {
                let (variant, children) = pair;
                if variant != CONTENT_MANIFEST_NODE_CONCAT {
                    return Err(FilesystemError::Integrity);
                }
                match validate_stored_content_manifest_node(children.as_slice()) {
                    Err(error) => Err(error),
                    Ok(_) => Ok(DecodedContentManifest::Concat(children)),
                }
            },
        }
    } else {
        match decode_extents(value) {
            None => Err(FilesystemError::Integrity),
            Some(extents) => Ok(DecodedContentManifest::Extents(extents)),
        }
    }
}

/// Returns the identifier of the manifest without extents.
pub fn empty_content_manifest_identifier() -> (identifier: Vec<u8>)
    ensures
        identifier@ == empty_identifier(),
        well_shaped(identifier@, CONTENT_MANIFEST_HASH_BLAKE3),
{
    let none: Vec<StoredExtent> = Vec::new();
    proof {
        assert(extent_views(none@) =~= Seq::<ExtentView>::empty());
    }
    let bytes = encode_content_manifest(none.as_slice());
    content_manifest_identifier_for_bytes(bytes.as_slice())
}

/// The manifest stored under an identifier: present, of that identifier, and decodable.
pub open spec fn manifest_at(nodes: Blobs, identifier: Seq<u8>) -> Option<Manifest> {
    if well_shaped(identifier, CONTENT_MANIFEST_HASH_BLAKE3) && nodes.contains_key(identifier)
        && identifies(identifier, CONTENT_MANIFEST_HASH_BLAKE3, nodes[identifier]) {
        manifest_decoding(nodes[identifier])
    } else {
        None
    }
}

/// Joined manifests that are stored are in order.
pub proof fn lemma_manifest_in_order(nodes: Blobs, identifier: Seq<u8>)
    ensures
        manifest_at(nodes, identifier) matches Some(Manifest::Concat(children)) ==> valid_children(
            children,
        ),
{
}

/// Reads the manifest stored under an identifier.
pub fn read_manifest(nodes: &Table<Vec<u8>>, identifier: &[u8]) -> (manifest: Result<
    DecodedContentManifest,
    FilesystemError,
>)
    ensures
        match manifest {
            Ok(manifest) => manifest_at(blobs(nodes@), identifier@) == Some(manifest@),
            Err(error) => error == FilesystemError::Integrity && manifest_at(
                blobs(nodes@),
                identifier@,
            ) is None,
        },
{
    match validate_prefixed_blake3_identifier_shape(identifier, CONTENT_MANIFEST_HASH_BLAKE3) {
        Err(error) => return Err(error),
        Ok(_) => {},
    }
    match nodes.get(identifier) {
        None => Err(FilesystemError::Integrity),
        Some(value) => {
            match validate_content_manifest(identifier, value.as_slice()) {
                Err(error) => return Err(error),
                Ok(_) => {},
            }
            decode_content_manifest_entry(value.as_slice())
        },
    }
}

/// The extents of a range of the file that a manifest describes; `None` where the manifest cannot be
/// read.
pub open spec fn collected(
    nodes: Blobs,
    identifier: Seq<u8>,
    start: u64,
    end: u64,
    depth: int,
) -> Option<Seq<ExtentView>>
    decreases CONTENT_MANIFEST_MAX_DEPTH + 1 - depth, 0nat,
{
    if depth < 0 || depth > CONTENT_MANIFEST_MAX_DEPTH || !well_shaped(
        identifier,
        CONTENT_MANIFEST_HASH_BLAKE3,
    ) {
        None
    } else if identifier == empty_identifier() {
        Some(Seq::empty())
    } else {
        match manifest_at(nodes, identifier) {
            None => None,
            Some(Manifest::Extents(extents)) => extents_slice(extents, start, end, start),
            Some(Manifest::Concat(children)) => collected_children(
                nodes,
                children,
                start,
                end,
                depth + 1,
            ),
        }
    }
}

/// The extents of a range that joined manifests describe, each within its window.
pub open spec fn collected_children(
    nodes: Blobs,
    children: Seq<ChildView>,
    start: u64,
    end: u64,
    depth: int,
) -> Option<Seq<ExtentView>>
    decreases CONTENT_MANIFEST_MAX_DEPTH + 1 - depth, children.len() + 1,
{
    if depth < 0 || depth > CONTENT_MANIFEST_MAX_DEPTH + 1 {
        None
    } else if children.len() == 0 {
        Some(Seq::empty())
    } else {
        let child = children.last();
        match collected_children(nodes, children.drop_last(), start, end, depth) {
            None => None,
            Some(front) => if child.end() > u64::MAX {
                None
            } else if child.end() <= start || child.logical_offset >= end {
                Some(front)
            } else {
                match collected(
                    nodes,
                    child.identifier,
                    if start > child.logical_offset { start } else { child.logical_offset },
                    if (end as int) < child.end() { end } else { child.end() as u64 },
                    depth,
                ) {
                    None => None,
                    Some(part) => Some(front + part),
                }
            },
        }
    }
}

proof fn lemma_collect_fails(
    nodes: Blobs,
    children: Seq<ChildView>,
    i: int,
    start: u64,
    end: u64,
    depth: int,
)
    requires
        0 <= i <= children.len(),
        collected_children(nodes, children.take(i), start, end, depth) is None,
    ensures
        collected_children(nodes, children, start, end, depth) is None,
    decreases children.len() - i,
{
    if i == children.len() {
        assert(children.take(i) =~= children);
    } else {
        assert(children.take(i + 1).drop_last() =~= children.take(i));
        lemma_collect_fails(nodes, children, i + 1, start, end, depth);
    }
}

/// Collects the extents of a range of the file that a manifest describes, in front of which others
/// may already have been collected.
pub fn collect_content_manifest_extents_in_range(
    nodes: &Table<Vec<u8>>,
    identifier: &[u8],
    empty_manifest: &[u8],
    start: u64,
    end: u64,
    extents: &mut Vec<StoredExtent>,
    depth: usize,
) -> (result: Result<(), FilesystemError>)
    requires
        empty_manifest@ == empty_identifier(),
    ensures
        match result {
            Ok(_) => {
                let found = collected(blobs(nodes@), identifier@, start, end, depth as int);
                &&& found is Some
                &&& extent_views(final(extents)@) == extent_views(old(extents)@) + found->0
            },
            Err(error) => error == FilesystemError::Integrity && collected(
                blobs(nodes@),
                identifier@,
                start,
                end,
                depth as int,
            ) is None,
        },
    decreases CONTENT_MANIFEST_MAX_DEPTH + 1 - depth,
{
    if depth > CONTENT_MANIFEST_MAX_DEPTH {
        return Err(FilesystemError::Integrity);
    }
    match validate_prefixed_blake3_identifier_shape(identifier, CONTENT_MANIFEST_HASH_BLAKE3) {
        Err(error) => return Err(error),
        Ok(_) => {},
    }
    if bytes_equal(identifier, empty_manifest) {
        proof {
            assert(extent_views(extents@) =~= extent_views(extents@) + Seq::<ExtentView>::empty());
        }
        return Ok(());
    }
    match read_manifest(nodes, identifier) {
        Err(error) => Err(error),
        Ok(DecodedContentManifest::Extents(decoded)) => {
            match slice_extents(decoded.as_slice(), start, end, start) {
                Err(error) => Err(error),
                Ok(sliced) => {
                    append_extents(extents, sliced);
                    Ok(())
                },
            }
        },
        Ok(DecodedContentManifest::Concat(children)) => {
            let ghost all = child_views(children@);
            let ghost before = extent_views(extents@);
            let ghost store = blobs(nodes@);
            let mut i: usize = 0;
            proof {
                assert(all.take(0) =~= Seq::<ChildView>::empty());
                assert(before =~= before + Seq::<ExtentView>::empty());
            }
            while i < children.len()
                invariant
                    i <= children.len(),
                    all == child_views(children@),
                    store == blobs(nodes@),
                    depth <= CONTENT_MANIFEST_MAX_DEPTH,
                    empty_manifest@ == empty_identifier(),
                    collected(store, identifier@, start, end, depth as int) == collected_children(
                        store,
                        all,
                        start,
                        end,
                        depth + 1,
                    ),
                    collected_children(store, all.take(i as int), start, end, depth + 1) is Some,
                    extent_views(extents@) == before + collected_children(
                        store,
                        all.take(i as int),
                        start,
                        end,
                        depth + 1,
                    )->0,
                decreases children.len() - i,
            {
                let child = &children[i];
                let ghost front = collected_children(
                    store,
                    all.take(i as int),
                    start,
                    end,
                    depth + 1,
                )->0;
                proof {
                    assert(all.take(i + 1).drop_last() =~= all.take(i as int));
                    assert(all.take(i + 1).last() == child@);
                    if collected_children(store, all.take(i + 1), start, end, depth + 1) is None {
                        lemma_collect_fails(store, all, i + 1, start, end, depth + 1);
                    }
                }
                let child_end: u64 = match child.logical_offset.checked_add(child.length) {
                    Some(sum) => sum,
                    None => return Err(FilesystemError::Integrity),
                };
                if !(child_end <= start || child.logical_offset >= end) {
                    let child_start: u64 = if start > child.logical_offset {
                        start
                    } else {
                        child.logical_offset
                    };
                    let child_stop: u64 = if end < child_end {
                        end
                    } else {
                        child_end
                    };
                    let ghost already = extent_views(extents@);
                    match collect_content_manifest_extents_in_range(
                        nodes,
                        child.identifier.as_slice(),
                        empty_manifest,
                        child_start,
                        child_stop,
                        extents,
                        depth + 1,
                    ) {
                        Err(error) => return Err(error),
                        Ok(_) => {},
                    }
                    proof {
                        let part = collected(
                            store,
                            child@.identifier,
                            child_start,
                            child_stop,
                            depth + 1,
                        )->0;
                        assert(before + front + part =~= before + (front + part));
                    }
                }
                i = i + 1;
            }
            proof {
                assert(all.take(i as int) =~= all);
            }
            Ok(())
        },
    }
}

fn append_extents(extents: &mut Vec<StoredExtent>, tail: Vec<StoredExtent>)
    ensures
        final(extents)@ == old(extents)@ + tail@,
        extent_views(final(extents)@) == extent_views(old(extents)@) + extent_views(tail@),
{
    let ghost before = extents@;
    let mut tail = tail;
    let ghost added = tail@;
    extents.append(&mut tail);
    proof {
        assert(extents@ =~= before + added);
        assert(extent_views(extents@) =~= extent_views(before) + extent_views(added));
    }
}

/// Returns the extents of a range of the file that a manifest describes. The manifest without extents
/// and an empty range have none.
pub fn content_manifest_extents_in_range(
    nodes: &Table<Vec<u8>>,
    identifier: &[u8],
    start: u64,
    end: u64,
) -> (extents: Result<Vec<StoredExtent>, FilesystemError>)
    ensures
        extents_result(extents, extents_in_range(blobs(nodes@), identifier@, start, end)),
{
    match validate_prefixed_blake3_identifier_shape(identifier, CONTENT_MANIFEST_HASH_BLAKE3) {
        Err(error) => return Err(error),
        Ok(_) => {},
    }
    let empty_manifest = empty_content_manifest_identifier();
    let mut extents: Vec<StoredExtent> = Vec::new();
    proof {
        assert(extent_views(extents@) =~= Seq::<ExtentView>::empty());
    }
    if bytes_equal(identifier, empty_manifest.as_slice()) || start >= end {
        return Ok(extents);
    }
    match collect_content_manifest_extents_in_range(
        nodes,
        identifier,
        empty_manifest.as_slice(),
        start,
        end,
        &mut extents,
        0,
    ) {
        Err(error) => Err(error),
        Ok(_) => {
            proof {
                let found = collected(blobs(nodes@), identifier@, start, end, 0)->0;
                assert(Seq::<ExtentView>::empty() + found =~= found);
            }
            Ok(extents)
        },
    }
}

/// The extents of a range of the file that a manifest describes, from its top.
pub open spec fn extents_in_range(
    nodes: Blobs,
    identifier: Seq<u8>,
    start: u64,
    end: u64,
) -> Option<Seq<ExtentView>> {
    if !well_shaped(identifier, CONTENT_MANIFEST_HASH_BLAKE3) {
        None
    } else if start >= end {
        Some(Seq::empty())
    } else {
        collected(nodes, identifier, start, end, 0)
    }
}

} // verus!
