//! Stored namespaces: each of the three maps of a branch state is a trie of content-addressed nodes,
//! in which the path of a key is the hash of the key.

use vstd::prelude::*;

use crate::bytes::{
    append_bytes, bytes_before, bytes_equal, compare_bytes, copy_bytes,
    lemma_bytes_before_transitive, ByteOrder,
};
use crate::error::FilesystemError;
use crate::hash::{
    blake3_hash, blobs, hash_bytes, identifier, identifies, integrity_unless,
    namespace_identifier_for_bytes, put_views, validate_namespace,
    validate_prefixed_blake3_identifier_shape, well_shaped, Blobs, BytesPut, NAMESPACE_HASH_BLAKE3,
};
use crate::table::{lemma_listed_keys, listed_keys, lists_keys, Table};

verus! {

/// Most entries of a leaf, except at the end of the paths.
pub const NAMESPACE_MAP_LEAF_MAX_ENTRIES: usize = 32;

/// Number of steps of a path.
pub const NAMESPACE_PATH_STEPS: usize = 64;

/// More levels than any trie has.
pub const NAMESPACE_LEVELS: u64 = u64::MAX;

/// Which of the three maps.
#[derive(Clone, Copy, Debug, PartialEq, Eq, Structural)]
pub enum NamespaceMapKind {
    /// Inodes.
    Inodes,
    /// Directory entries.
    DirectoryEntries,
    /// Extended attributes.
    ExtendedAttributes,
}

impl NamespaceMapKind {
    /// The byte that tells the maps apart.
    pub open spec fn mark(self) -> u8 {
        match self {
            NamespaceMapKind::Inodes => 105,
            NamespaceMapKind::DirectoryEntries => 100,
            NamespaceMapKind::ExtendedAttributes => 120,
        }
    }

    /// Returns the byte that tells the maps apart.
    pub fn tag(self) -> (tag: u8)
        ensures
            tag == self.mark(),
    {
        match self {
            NamespaceMapKind::Inodes => 105,
            NamespaceMapKind::DirectoryEntries => 100,
            NamespaceMapKind::ExtendedAttributes => 120,
        }
    }
}

/// The roots of the three maps.
#[derive(Debug, PartialEq, Eq)]
pub struct StoredNamespaceRoot {
    /// Root of the inodes.
    pub inodes: Vec<u8>,
    /// Root of the directory entries.
    pub directory_entries: Vec<u8>,
    /// Root of the extended attributes.
    pub extended_attributes: Vec<u8>,
}

/// The value of the roots of the three maps.
pub ghost struct RootView {
    pub inodes: Seq<u8>,
    pub entries: Seq<u8>,
    pub attributes: Seq<u8>,
}

impl View for StoredNamespaceRoot {
    type V = RootView;

    open spec fn view(&self) -> RootView {
        RootView {
            inodes: self.inodes@,
            entries: self.directory_entries@,
            attributes: self.extended_attributes@,
        }
    }
}

impl Clone for StoredNamespaceRoot {
    fn clone(&self) -> (root: Self)
        ensures
            root@ == self@,
    {
        StoredNamespaceRoot {
            inodes: copy_bytes(self.inodes.as_slice()),
            directory_entries: copy_bytes(self.directory_entries.as_slice()),
            extended_attributes: copy_bytes(self.extended_attributes.as_slice()),
        }
    }
}

/// A child of a trie node.
#[derive(Debug, PartialEq, Eq)]
pub struct StoredNamespaceChild {
    /// The step of the path that leads to it.
    pub nibble: u8,
    /// The child.
    pub identifier: Vec<u8>,
}

/// An entry of a leaf.
#[derive(Debug, PartialEq, Eq)]
pub struct StoredNamespaceEntry {
    /// The key.
    pub key: Vec<u8>,
    /// The value.
    pub value: Vec<u8>,
}

/// A stored node.
#[derive(Debug, PartialEq, Eq)]
pub enum StoredNamespaceNode {
    /// The roots of the three maps.
    Root(StoredNamespaceRoot),
    /// A node with children.
    Branch(Vec<StoredNamespaceChild>),
    /// A node with entries.
    Leaf(Vec<StoredNamespaceEntry>),
}

/// The value of a child: the step and the identifier.
pub type ChildPair = (u8, Seq<u8>);

/// The value of an entry: the key and the value.
pub type EntryPair = (Seq<u8>, Seq<u8>);

/// The values of children.
pub open spec fn child_pairs(children: Seq<StoredNamespaceChild>) -> Seq<ChildPair> {
    Seq::new(children.len(), |i: int| (children[i].nibble, children[i].identifier@))
}

/// The values of entries.
pub open spec fn entry_pairs(entries: Seq<StoredNamespaceEntry>) -> Seq<EntryPair> {
    Seq::new(entries.len(), |i: int| (entries[i].key@, entries[i].value@))
}

/// The value of a node.
pub ghost enum Node {
    Root(RootView),
    Branch(Seq<ChildPair>),
    Leaf(Seq<EntryPair>),
}

impl View for StoredNamespaceNode {
    type V = Node;

    open spec fn view(&self) -> Node {
        match self {
            StoredNamespaceNode::Root(root) => Node::Root(root@),
            StoredNamespaceNode::Branch(children) => Node::Branch(child_pairs(children@)),
            StoredNamespaceNode::Leaf(entries) => Node::Leaf(entry_pairs(entries@)),
        }
    }
}

/// The variant numbers of stored nodes.
pub const NAMESPACE_NODE_ROOT: u32 = 0;

/// The variant number of a node with children.
pub const NAMESPACE_NODE_BRANCH: u32 = 1;

/// The variant number of a node with entries.
pub const NAMESPACE_NODE_LEAF: u32 = 2;

/// The variant number that a stored form starts with.
pub uninterp spec fn leading_number(bytes: Seq<u8>) -> Option<u32>;

/// The stored form of a number and roots.
pub uninterp spec fn root_encoding(variant: u32, root: RootView) -> Seq<u8>;

/// The number and roots that a stored form stands for.
pub uninterp spec fn root_decoding(bytes: Seq<u8>) -> Option<(u32, RootView)>;

/// The stored form of a number and children.
pub uninterp spec fn branch_encoding(variant: u32, children: Seq<ChildPair>) -> Seq<u8>;

/// The number and children that a stored form stands for.
pub uninterp spec fn branch_decoding(bytes: Seq<u8>) -> Option<(u32, Seq<ChildPair>)>;

/// The stored form of a number and entries.
pub uninterp spec fn leaf_encoding(variant: u32, entries: Seq<EntryPair>) -> Seq<u8>;

/// The number and entries that a stored form stands for.
pub uninterp spec fn leaf_decoding(bytes: Seq<u8>) -> Option<(u32, Seq<EntryPair>)>;

/// Calls `postcard::take_from_bytes` of the postcard crate for a number at the start of the bytes.
/// Claimed: the result depends on the bytes alone.
#[verifier::external_body]
fn take_number(bytes: &[u8]) -> (number: Option<u32>)
    ensures
        number == leading_number(bytes@),
{
    postcard::take_from_bytes::<u32>(bytes).ok().map(|pair| pair.0)
}

/// Calls `postcard::to_allocvec` of the postcard crate on a number and the three roots. Claimed: the
/// bytes depend on these alone; decoding gives them back, the number also on its own. Writing to a
/// growing vector does not fail.
#[verifier::external_body]
fn encode_root(variant: u32, root: &StoredNamespaceRoot) -> (bytes: Vec<u8>)
    ensures
        bytes@ == root_encoding(variant, root@),
        leading_number(bytes@) == Some(variant),
        root_decoding(bytes@) == Some((variant, root@)),
{
    let row = (variant, &root.inodes, &root.directory_entries, &root.extended_attributes);
    postcard::to_allocvec(&row).expect("roots are written to memory")
}

/// Calls `postcard::from_bytes` of the postcard crate for a number and three roots. Claimed: the
/// result depends on the bytes alone.
#[verifier::external_body]
fn decode_root(bytes: &[u8]) -> (decoded: Option<(u32, StoredNamespaceRoot)>)
    ensures
        match decoded {
            Some(pair) => root_decoding(bytes@) == Some((pair.0, pair.1@)),
            None => root_decoding(bytes@) is None,
        },
{
    let row: (u32, Vec<u8>, Vec<u8>, Vec<u8>) = postcard::from_bytes(bytes).ok()?;
    let (variant, inodes, directory_entries, extended_attributes) = row;
    Some((variant, StoredNamespaceRoot { inodes, directory_entries, extended_attributes }))
}

/// Calls `postcard::to_allocvec` of the postcard crate on a number and the children as pairs.
/// Claimed: the bytes depend on these alone; decoding gives them back, the number also on its own.
/// Writing to a growing vector does not fail.
#[verifier::external_body]
fn encode_branch(variant: u32, children: &[StoredNamespaceChild]) -> (bytes: Vec<u8>)
    ensures
        bytes@ == branch_encoding(variant, child_pairs(children@)),
        leading_number(bytes@) == Some(variant),
        branch_decoding(bytes@) == Some((variant, child_pairs(children@))),
{
    let rows: Vec<(u8, &[u8])> =
        children.iter().map(|child| (child.nibble, child.identifier.as_slice())).collect();
    postcard::to_allocvec(&(variant, rows)).expect("children are written to memory")
}

/// Calls `postcard::from_bytes` of the postcard crate for a number and pairs of a byte and bytes.
/// Claimed: the result depends on the bytes alone.
#[verifier::external_body]
fn decode_branch(bytes: &[u8]) -> (decoded: Option<(u32, Vec<StoredNamespaceChild>)>)
    ensures
        match decoded {
            Some(pair) => branch_decoding(bytes@) == Some((pair.0, child_pairs(pair.1@))),
            None => branch_decoding(bytes@) is None,
        },
{
    let (variant, rows): (u32, Vec<(u8, Vec<u8>)>) = postcard::from_bytes(bytes).ok()?;
    let children = rows
        .into_iter()
        .map(|(nibble, identifier)| StoredNamespaceChild { nibble, identifier })
        .collect();
    Some((variant, children))
}

/// Calls `postcard::to_allocvec` of the postcard crate on a number and the entries as pairs.
/// Claimed: the bytes depend on these alone; decoding gives them back, the number also on its own.
/// Writing to a growing vector does not fail.
#[verifier::external_body]
fn encode_leaf(variant: u32, entries: &[StoredNamespaceEntry]) -> (bytes: Vec<u8>)
    ensures
        bytes@ == leaf_encoding(variant, entry_pairs(entries@)),
        leading_number(bytes@) == Some(variant),
        leaf_decoding(bytes@) == Some((variant, entry_pairs(entries@))),
{
    let rows: Vec<(&[u8], &[u8])> =
        entries.iter().map(|entry| (entry.key.as_slice(), entry.value.as_slice())).collect();
    postcard::to_allocvec(&(variant, rows)).expect("entries are written to memory")
}

/// Calls `postcard::from_bytes` of the postcard crate for a number and pairs of byte strings.
/// Claimed: the result depends on the bytes alone.
#[verifier::external_body]
fn decode_leaf(bytes: &[u8]) -> (decoded: Option<(u32, Vec<StoredNamespaceEntry>)>)
    ensures
        match decoded {
            Some(pair) => leaf_decoding(bytes@) == Some((pair.0, entry_pairs(pair.1@))),
            None => leaf_decoding(bytes@) is None,
        },
{
    let (variant, rows): (u32, Vec<(Vec<u8>, Vec<u8>)>) = postcard::from_bytes(bytes).ok()?;
    let entries =
        rows.into_iter().map(|(key, value)| StoredNamespaceEntry { key, value }).collect();
    Some((variant, entries))
}

/// The stored form of a node.
pub open spec fn node_encoding(node: Node) -> Seq<u8> {
    match node {
        Node::Root(root) => root_encoding(NAMESPACE_NODE_ROOT, root),
        Node::Branch(children) => branch_encoding(NAMESPACE_NODE_BRANCH, children),
        Node::Leaf(entries) => leaf_encoding(NAMESPACE_NODE_LEAF, entries),
    }
}

/// The identifier of a node.
pub open spec fn node_identifier(node: Node) -> Seq<u8> {
    identifier(NAMESPACE_HASH_BLAKE3, node_encoding(node))
}

/// The node that a stored form stands for.
pub open spec fn node_decoding(bytes: Seq<u8>) -> Option<Node> {
    match leading_number(bytes) {
        None => None,
        Some(variant) => if variant == NAMESPACE_NODE_ROOT {
            match root_decoding(bytes) {
                Some((_, root)) => Some(Node::Root(root)),
                None => None,
            }
        } else if variant == NAMESPACE_NODE_BRANCH {
            match branch_decoding(bytes) {
                Some((_, children)) => Some(Node::Branch(children)),
                None => None,
            }
        } else if variant == NAMESPACE_NODE_LEAF {
            match leaf_decoding(bytes) {
                Some((_, entries)) => Some(Node::Leaf(entries)),
                None => None,
            }
        } else {
            None
        },
    }
}

/// A node decodes back from its stored form, which its identifier names.
pub open spec fn sound_node(node: Node) -> bool {
    &&& node_decoding(node_encoding(node)) == Some(node)
    &&& identifies(node_identifier(node), NAMESPACE_HASH_BLAKE3, node_encoding(node))
}

/// Encodes a node.
pub fn encode_namespace_node(node: &StoredNamespaceNode) -> (bytes: Vec<u8>)
    ensures
        bytes@ == node_encoding(node@),
        node_decoding(bytes@) == Some(node@),
{
    match node {
        StoredNamespaceNode::Root(root) => encode_root(NAMESPACE_NODE_ROOT, root),
        StoredNamespaceNode::Branch(children) => encode_branch(
            NAMESPACE_NODE_BRANCH,
            children.as_slice(),
        ),
        StoredNamespaceNode::Leaf(entries) => encode_leaf(NAMESPACE_NODE_LEAF, entries.as_slice()),
    }
}

/// Decodes a node.
pub fn decode_namespace_node(value: &[u8]) -> (node: Result<StoredNamespaceNode, FilesystemError>)
    ensures
        match node {
            Ok(node) => node_decoding(value@) == Some(node@),
            Err(error) => error == FilesystemError::Integrity && node_decoding(value@) is None,
        },
{
    match take_number(value) {
        None => Err(FilesystemError::Integrity),
        Some(variant) => if variant == NAMESPACE_NODE_ROOT {
            match decode_root(value) {
                Some(pair) => Ok(StoredNamespaceNode::Root(pair.1)),
                None => Err(FilesystemError::Integrity),
            }
        } else if variant == NAMESPACE_NODE_BRANCH {
            match decode_branch(value) {
                Some(pair) => Ok(StoredNamespaceNode::Branch(pair.1)),
                None => Err(FilesystemError::Integrity),
            }
        } else if variant == NAMESPACE_NODE_LEAF {
            match decode_leaf(value) {
                Some(pair) => Ok(StoredNamespaceNode::Leaf(pair.1)),
                None => Err(FilesystemError::Integrity),
            }
        } else {
            Err(FilesystemError::Integrity)
        },
    }
}

/// The node stored under an identifier: present, of that identifier, and decodable.
pub open spec fn node_at(nodes: Blobs, identifier: Seq<u8>) -> Option<Node> {
    if well_shaped(identifier, NAMESPACE_HASH_BLAKE3) && nodes.contains_key(identifier)
        && identifies(identifier, NAMESPACE_HASH_BLAKE3, nodes[identifier]) {
        node_decoding(nodes[identifier])
    } else {
        None
    }
}

/// Reads the node stored under an identifier.
pub fn namespace_node_in_database(nodes: &Table<Vec<u8>>, namespace_identifier: &[u8]) -> (node:
    Result<StoredNamespaceNode, FilesystemError>)
    ensures
        match node {
            Ok(node) => node_at(blobs(nodes@), namespace_identifier@) == Some(node@),
            Err(error) => error == FilesystemError::Integrity && node_at(
                blobs(nodes@),
                namespace_identifier@,
            ) is None,
        },
{
    match validate_prefixed_blake3_identifier_shape(namespace_identifier, NAMESPACE_HASH_BLAKE3) {
        Err(error) => return Err(error),
        Ok(_) => {},
    }
    match nodes.get(namespace_identifier) {
        None => Err(FilesystemError::Integrity),
        Some(value) => {
            match validate_namespace(namespace_identifier, value.as_slice()) {
                Err(error) => return Err(error),
                Ok(_) => {},
            }
            decode_namespace_node(value.as_slice())
        },
    }
}

/// The roots stored under an identifier.
pub open spec fn root_at(nodes: Blobs, identifier: Seq<u8>) -> Option<RootView> {
    match node_at(nodes, identifier) {
        Some(Node::Root(root)) => Some(root),
        _ => None,
    }
}

/// Reads the roots stored under an identifier.
pub fn namespace_root_in_database(nodes: &Table<Vec<u8>>, namespace_identifier: &[u8]) -> (root:
    Result<StoredNamespaceRoot, FilesystemError>)
    ensures
        match root {
            Ok(root) => root_at(blobs(nodes@), namespace_identifier@) == Some(root@),
            Err(error) => error == FilesystemError::Integrity && root_at(
                blobs(nodes@),
                namespace_identifier@,
            ) is None,
        },
{
    match namespace_node_in_database(nodes, namespace_identifier) {
        Err(error) => Err(error),
        Ok(StoredNamespaceNode::Root(root)) => Ok(root),
        Ok(_) => Err(FilesystemError::Integrity),
    }
}

/// What is stored for nodes.
pub open spec fn node_puts(nodes: Seq<Node>) -> Seq<(Seq<u8>, Seq<u8>)> {
    Seq::new(nodes.len(), |i: int| (node_identifier(nodes[i]), node_encoding(nodes[i])))
}

/// Every node decodes back from its stored form, which its identifier names.
pub open spec fn nodes_sound(nodes: Seq<Node>) -> bool {
    forall|i: int| 0 <= i < nodes.len() ==> sound_node(#[trigger] nodes[i])
}

/// Stores a node and returns its identifier.
pub fn put_namespace_node_in_database(batch: &mut Vec<BytesPut>, node: &StoredNamespaceNode) -> (
identifier: Vec<u8>)
    ensures
        identifier@ == node_identifier(node@),
        sound_node(node@),
        put_views(final(batch)@) == put_views(old(batch)@) + node_puts(seq![node@]),
{
    let bytes = encode_namespace_node(node);
    let identifier = namespace_identifier_for_bytes(bytes.as_slice());
    let ghost before = batch@;
    batch.push(BytesPut { key: copy_bytes(identifier.as_slice()), value: bytes });
    proof {
        assert(put_views(batch@) =~= put_views(before) + node_puts(seq![node@]));
    }
    identifier
}

/// The path of a key: the hash of the byte of its map and the key.
pub open spec fn entry_path(kind: NamespaceMapKind, key: Seq<u8>) -> Seq<u8> {
    blake3_hash(seq![kind.mark()] + key)
}

/// Returns the path of a key.
pub fn namespace_map_entry_path(kind: NamespaceMapKind, key: &[u8]) -> (path: Vec<u8>)
    ensures
        path@ == entry_path(kind, key@),
        path@.len() == 32,
{
    let mut bytes: Vec<u8> = Vec::with_capacity(1);
    bytes.push(kind.tag());
    append_bytes(&mut bytes, key);
    proof {
        assert(bytes@ =~= seq![kind.mark()] + key@);
    }
    hash_bytes(bytes.as_slice())
}

/// A step of a path: four bits of it, the high ones of a byte first.
pub open spec fn path_step(path: Seq<u8>, depth: int) -> Option<u8> {
    if 0 <= depth && depth / 2 < path.len() {
        if depth % 2 == 0 {
            Some(path[depth / 2] >> 4)
        } else {
            Some(path[depth / 2] & 0x0f)
        }
    } else {
        None
    }
}

/// Returns a step of a path.
pub fn namespace_path_nibble(path: &[u8], depth: usize) -> (nibble: Result<u8, FilesystemError>)
    ensures
        nibble == (match path_step(path@, depth as int) {
            Some(step) => Ok::<u8, FilesystemError>(step),
            None => Err::<u8, FilesystemError>(FilesystemError::Integrity),
        }),
        nibble is Ok ==> nibble->Ok_0 <= 15,
{
    if depth / 2 >= path.len() {
        return Err(FilesystemError::Integrity);
    }
    let byte: u8 = path[depth / 2];
    assert(byte >> 4 <= 15) by (bit_vector);
    assert(byte & 0x0f <= 15) by (bit_vector);
    if depth % 2 == 0 {
        Ok(byte >> 4)
    } else {
        Ok(byte & 0x0f)
    }
}

/// Entries are in strictly increasing key order.
pub open spec fn entries_sorted(entries: Seq<EntryPair>) -> bool {
    forall|i: int, j: int|
        0 <= i < j < entries.len() ==> bytes_before(
            (#[trigger] entries[i]).0,
            (#[trigger] entries[j]).0,
        )
}

/// Checks that entries are in strictly increasing key order.
pub fn validate_namespace_entries(entries: &[StoredNamespaceEntry]) -> (result: Result<
    (),
    FilesystemError,
>)
    ensures
        result == integrity_unless(entries_sorted(entry_pairs(entries@))),
{
    let ghost all = entry_pairs(entries@);
    if entries.len() == 0 {
        return Ok(());
    }
    let mut i: usize = 1;
    while i < entries.len()
        invariant
            1 <= i <= entries@.len(),
            all == entry_pairs(entries@),
            forall|k: int, l: int|
                0 <= k < l < i ==> bytes_before((#[trigger] all[k]).0, (#[trigger] all[l]).0),
        decreases entries@.len() - i,
    {
        let order = compare_bytes(entries[i - 1].key.as_slice(), entries[i].key.as_slice());
        if order != ByteOrder::Before {
            proof {
                assert(!bytes_before(all[i - 1].0, all[i as int].0));
            }
            return Err(FilesystemError::Integrity);
        }
        proof {
            assert forall|k: int, l: int| 0 <= k < l < i + 1 implies bytes_before(
                (#[trigger] all[k]).0,
                (#[trigger] all[l]).0,
            ) by {
                if l == i && k < i - 1 {
                    assert(bytes_before(all[k].0, all[i - 1].0));
                    lemma_bytes_before_transitive(all[k].0, all[i - 1].0, all[l].0);
                }
            }
        }
        i = i + 1;
    }
    Ok(())
}

/// Children have steps of four bits in strictly increasing order and identifiers of the right shape.
pub open spec fn children_valid(children: Seq<ChildPair>) -> bool {
    &&& forall|i: int|
        0 <= i < children.len() ==> (#[trigger] children[i]).0 <= 15 && well_shaped(
            children[i].1,
            NAMESPACE_HASH_BLAKE3,
        )
    &&& forall|i: int, j: int|
        0 <= i < j < children.len() ==> (#[trigger] children[i]).0 < (#[trigger] children[j]).0
}

/// Checks children.
pub fn validate_namespace_children(children: &[StoredNamespaceChild]) -> (result: Result<
    (),
    FilesystemError,
>)
    ensures
        result == integrity_unless(children_valid(child_pairs(children@))),
{
    let ghost all = child_pairs(children@);
    let mut i: usize = 0;
    while i < children.len()
        invariant
            i <= children@.len(),
            all == child_pairs(children@),
            forall|k: int|
                0 <= k < i ==> (#[trigger] all[k]).0 <= 15 && well_shaped(
                    all[k].1,
                    NAMESPACE_HASH_BLAKE3,
                ),
            forall|k: int, l: int| 0 <= k < l < i ==> (#[trigger] all[k]).0 < (#[trigger] all[l]).0,
        decreases children@.len() - i,
    {
        let child = &children[i];
        proof {
            assert(all[i as int] == (child.nibble, child.identifier@));
        }
        if child.nibble > 15 {
            return Err(FilesystemError::Integrity);
        }
        match validate_prefixed_blake3_identifier_shape(
            child.identifier.as_slice(),
            NAMESPACE_HASH_BLAKE3,
        ) {
            Err(error) => return Err(error),
            Ok(_) => {},
        }
        if i > 0 && children[i - 1].nibble >= child.nibble {
            proof {
                assert(all[i - 1].0 >= all[i as int].0);
            }
            return Err(FilesystemError::Integrity);
        }
        i = i + 1;
    }
    Ok(())
}

/// The identifier of a trie, and the nodes to store for it.
pub ghost struct TriePlan {
    pub identifier: Seq<u8>,
    pub nodes: Seq<Node>,
}

/// The plan for one node.
pub open spec fn single_plan(node: Node) -> TriePlan {
    TriePlan { identifier: node_identifier(node), nodes: seq![node] }
}

/// An entry takes a step at a depth.
pub open spec fn takes_step(kind: NamespaceMapKind, entry: EntryPair, depth: int, step: u8) -> bool {
    path_step(entry_path(kind, entry.0), depth) == Some(step)
}

/// The entries that take a step at a depth.
pub open spec fn group(
    kind: NamespaceMapKind,
    entries: Seq<EntryPair>,
    depth: int,
    step: u8,
) -> Seq<EntryPair>
    decreases entries.len(),
{
    if entries.len() == 0 {
        Seq::empty()
    } else {
        let front = group(kind, entries.drop_last(), depth, step);
        if takes_step(kind, entries.last(), depth, step) {
            front.push(entries.last())
        } else {
            front
        }
    }
}

/// The plan for entries below a depth: a leaf where they are few or the paths end, else a child for
/// each step that some of them take.
pub open spec fn entries_plan(
    kind: NamespaceMapKind,
    entries: Seq<EntryPair>,
    depth: int,
) -> Option<TriePlan>
    decreases NAMESPACE_PATH_STEPS - depth, 17nat,
{
    if !entries_sorted(entries) {
        None
    } else if entries.len() <= NAMESPACE_MAP_LEAF_MAX_ENTRIES || depth >= NAMESPACE_PATH_STEPS
        || depth < 0 {
        Some(single_plan(Node::Leaf(entries)))
    } else {
        match children_plan(kind, entries, depth, 16) {
            None => None,
            Some((children, nodes)) => Some(
                TriePlan {
                    identifier: node_identifier(Node::Branch(children)),
                    nodes: nodes.push(Node::Branch(children)),
                },
            ),
        }
    }
}

/// The children for the first steps, and the nodes to store for them.
pub open spec fn children_plan(
    kind: NamespaceMapKind,
    entries: Seq<EntryPair>,
    depth: int,
    steps: nat,
) -> Option<(Seq<ChildPair>, Seq<Node>)>
    decreases NAMESPACE_PATH_STEPS - depth, steps,
{
    if depth < 0 || depth >= NAMESPACE_PATH_STEPS || steps > 16 {
        None
    } else if steps == 0 {
        Some((Seq::empty(), Seq::empty()))
    } else {
        let step = (steps - 1) as u8;
        let taken = group(kind, entries, depth, step);
        match children_plan(kind, entries, depth, (steps - 1) as nat) {
            None => None,
            Some((children, nodes)) => if taken.len() == 0 {
                Some((children, nodes))
            } else {
                match entries_plan(kind, taken, depth + 1) {
                    None => None,
                    Some(plan) => Some(
                        (children.push((step, plan.identifier)), nodes + plan.nodes),
                    ),
                }
            },
        }
    }
}

/// A written identifier and the nodes stored for it agree with a plan; an integrity error stands for
/// its absence.
pub open spec fn follows_trie_plan(
    result: Result<Vec<u8>, FilesystemError>,
    before: Seq<BytesPut>,
    after: Seq<BytesPut>,
    plan: Option<TriePlan>,
) -> bool {
    match result {
        Ok(identifier) => {
            &&& plan is Some
            &&& identifier@ == plan->0.identifier
            &&& put_views(after) == put_views(before) + node_puts(plan->0.nodes)
            &&& nodes_sound(plan->0.nodes)
        },
        Err(error) => error == FilesystemError::Integrity && plan is None,
    }
}

proof fn lemma_puts_join(puts: Seq<(Seq<u8>, Seq<u8>)>, first: Seq<Node>, second: Seq<Node>)
    ensures
        puts + node_puts(first) + node_puts(second) == puts + node_puts(first + second),
        nodes_sound(first) && nodes_sound(second) ==> nodes_sound(first + second),
{
    assert(puts + node_puts(first) + node_puts(second) =~= puts + node_puts(first + second));
    if nodes_sound(first) && nodes_sound(second) {
        assert forall|i: int| 0 <= i < (first + second).len() implies sound_node(
            #[trigger] (first + second)[i],
        ) by {
            if i < first.len() {
                assert(sound_node(first[i]));
            } else {
                assert(sound_node(second[i - first.len()]));
            }
        }
    }
}

proof fn lemma_children_plan_fails(
    kind: NamespaceMapKind,
    entries: Seq<EntryPair>,
    depth: int,
    steps: nat,
)
    requires
        steps <= 16,
        children_plan(kind, entries, depth, steps) is None,
    ensures
        children_plan(kind, entries, depth, 16) is None,
    decreases 16 - steps,
{
    if steps < 16 {
        lemma_children_plan_fails(kind, entries, depth, steps + 1);
    }
}

fn copy_entry(entry: &StoredNamespaceEntry) -> (copy: StoredNamespaceEntry)
    ensures
        copy.key@ == entry.key@,
        copy.value@ == entry.value@,
{
    StoredNamespaceEntry {
        key: copy_bytes(entry.key.as_slice()),
        value: copy_bytes(entry.value.as_slice()),
    }
}

/// Returns the step that each entry takes at a depth.
fn steps_at(kind: NamespaceMapKind, entries: &[StoredNamespaceEntry], depth: usize) -> (steps: Vec<
    u8,
>)
    requires
        depth < NAMESPACE_PATH_STEPS,
    ensures
        steps@.len() == entries@.len(),
        forall|i: int|
            0 <= i < steps@.len() ==> path_step(
                entry_path(kind, (#[trigger] entries@[i]).key@),
                depth as int,
            ) == Some(steps@[i]),
{
    let mut steps: Vec<u8> = Vec::new();
    let mut i: usize = 0;
    while i < entries.len()
        invariant
            i <= entries@.len(),
            depth < NAMESPACE_PATH_STEPS,
            steps@.len() == i,
            forall|j: int|
                0 <= j < i ==> path_step(
                    entry_path(kind, (#[trigger] entries@[j]).key@),
                    depth as int,
                ) == Some(steps@[j]),
        decreases entries@.len() - i,
    {
        let path = namespace_map_entry_path(kind, entries[i].key.as_slice());
        match namespace_path_nibble(path.as_slice(), depth) {
            Ok(step) => {
                steps.push(step);
            },
            Err(_) => {
                assert(false);
                steps.push(0);
            },
        }
        i = i + 1;
    }
    steps
}

/// Copies the entries that take a step.
fn entries_taking(
    kind: NamespaceMapKind,
    entries: &[StoredNamespaceEntry],
    steps: &Vec<u8>,
    depth: usize,
    step: u8,
) -> (taken: Vec<StoredNamespaceEntry>)
    requires
        steps@.len() == entries@.len(),
        forall|i: int|
            0 <= i < steps@.len() ==> path_step(
                entry_path(kind, (#[trigger] entries@[i]).key@),
                depth as int,
            ) == Some(steps@[i]),
    ensures
        entry_pairs(taken@) == group(kind, entry_pairs(entries@), depth as int, step),
{
    let ghost all = entry_pairs(entries@);
    let mut taken: Vec<StoredNamespaceEntry> = Vec::new();
    let mut i: usize = 0;
    proof {
        assert(all.take(0) =~= Seq::<EntryPair>::empty());
        assert(entry_pairs(taken@) =~= Seq::<EntryPair>::empty());
    }
    while i < entries.len()
        invariant
            i <= entries@.len(),
            all == entry_pairs(entries@),
            steps@.len() == entries@.len(),
            forall|i: int|
                0 <= i < steps@.len() ==> path_step(
                    entry_path(kind, (#[trigger] entries@[i]).key@),
                    depth as int,
                ) == Some(steps@[i]),
            entry_pairs(taken@) == group(kind, all.take(i as int), depth as int, step),
        decreases entries@.len() - i,
    {
        proof {
            assert(all.take(i + 1).drop_last() =~= all.take(i as int));
            assert(all.take(i + 1).last() == (entries@[i as int].key@, entries@[i as int].value@));
        }
        if steps[i] == step {
            let ghost before = taken@;
            taken.push(copy_entry(&entries[i]));
            proof {
                assert(entry_pairs(taken@) =~= entry_pairs(before).push(
                    (entries@[i as int].key@, entries@[i as int].value@),
                ));
            }
        }
        i = i + 1;
    }
    proof {
        assert(all.take(i as int) =~= all);
    }
    taken
}

/// Stores entries below a depth and returns the identifier of their trie.
pub fn put_namespace_map_entries_at(
    batch: &mut Vec<BytesPut>,
    kind: NamespaceMapKind,
    entries: Vec<StoredNamespaceEntry>,
    depth: usize,
) -> (identifier: Result<Vec<u8>, FilesystemError>)
    ensures
        follows_trie_plan(
            identifier,
            old(batch)@,
            final(batch)@,
            entries_plan(kind, entry_pairs(entries@), depth as int),
        ),
    decreases NAMESPACE_PATH_STEPS - depth,
{
    match validate_namespace_entries(entries.as_slice()) {
        Err(error) => return Err(error),
        Ok(_) => {},
    }
    if entries.len() <= NAMESPACE_MAP_LEAF_MAX_ENTRIES || depth >= NAMESPACE_PATH_STEPS {
        return Ok(put_namespace_node_in_database(batch, &StoredNamespaceNode::Leaf(entries)));
    }
    let ghost all = entry_pairs(entries@);
    let ghost start = put_views(batch@);
    let steps = steps_at(kind, entries.as_slice(), depth);
    let mut children: Vec<StoredNamespaceChild> = Vec::new();
    let ghost mut nodes: Seq<Node> = Seq::empty();
    let mut step: u8 = 0;
    proof {
        assert(child_pairs(children@) =~= Seq::<ChildPair>::empty());
        assert(start =~= start + node_puts(Seq::empty()));
    }
    while step < 16
        invariant
            step <= 16,
            depth < NAMESPACE_PATH_STEPS,
            all == entry_pairs(entries@),
            entries@.len() > NAMESPACE_MAP_LEAF_MAX_ENTRIES,
            entries_sorted(all),
            steps@.len() == entries@.len(),
            forall|i: int|
                0 <= i < steps@.len() ==> path_step(
                    entry_path(kind, (#[trigger] entries@[i]).key@),
                    depth as int,
                ) == Some(steps@[i]),
            children_plan(kind, all, depth as int, step as nat) == Some(
                (child_pairs(children@), nodes),
            ),
            put_views(batch@) == start + node_puts(nodes),
            nodes_sound(nodes),
        decreases 16 - step,
    {
        let taken = entries_taking(kind, entries.as_slice(), &steps, depth, step);
        let ghost pairs = entry_pairs(taken@);
        proof {
            if children_plan(kind, all, depth as int, (step + 1) as nat) is None {
                lemma_children_plan_fails(kind, all, depth as int, (step + 1) as nat);
            }
        }
        if taken.len() > 0 {
            match put_namespace_map_entries_at(batch, kind, taken, depth + 1) {
                Err(error) => return Err(error),
                Ok(identifier) => {
                    let ghost before = children@;
                    let ghost plan = entries_plan(kind, pairs, depth + 1)->0;
                    children.push(StoredNamespaceChild { nibble: step, identifier });
                    proof {
                        assert(child_pairs(children@) =~= child_pairs(before).push(
                            (step, plan.identifier),
                        ));
                        lemma_puts_join(start, nodes, plan.nodes);
                        nodes = nodes + plan.nodes;
                    }
                },
            }
        }
        step = step + 1;
    }
    let ghost last = Node::Branch(child_pairs(children@));
    let identifier = put_namespace_node_in_database(batch, &StoredNamespaceNode::Branch(children));
    proof {
        lemma_puts_join(start, nodes, seq![last]);
        assert(nodes + seq![last] =~= nodes.push(last));
        assert(nodes_sound(seq![last]));
    }
    Ok(identifier)
}

/// Entries in key order with one more, in place of one with the same key.
pub open spec fn with_entry(entries: Seq<EntryPair>, key: Seq<u8>, value: Seq<u8>) -> Seq<EntryPair>
    decreases entries.len(),
{
    if entries.len() == 0 || bytes_before(entries.last().0, key) {
        entries.push((key, value))
    } else if entries.last().0 == key {
        entries.drop_last().push((key, value))
    } else {
        with_entry(entries.drop_last(), key, value).push(entries.last())
    }
}

/// Entries without the one with a key.
pub open spec fn without_entry(entries: Seq<EntryPair>, key: Seq<u8>) -> Seq<EntryPair>
    decreases entries.len(),
{
    if entries.len() == 0 {
        Seq::empty()
    } else if entries.last().0 == key {
        without_entry(entries.drop_last(), key)
    } else {
        without_entry(entries.drop_last(), key).push(entries.last())
    }
}

/// Children in step order with one more, in place of one with the same step.
pub open spec fn with_child(children: Seq<ChildPair>, step: u8, identifier: Seq<u8>) -> Seq<
    ChildPair,
>
    decreases children.len(),
{
    if children.len() == 0 || children.last().0 < step {
        children.push((step, identifier))
    } else if children.last().0 == step {
        children.drop_last().push((step, identifier))
    } else {
        with_child(children.drop_last(), step, identifier).push(children.last())
    }
}

/// Children without the one with a step.
pub open spec fn without_child(children: Seq<ChildPair>, step: u8) -> Seq<ChildPair>
    decreases children.len(),
{
    if children.len() == 0 {
        Seq::empty()
    } else if children.last().0 == step {
        without_child(children.drop_last(), step)
    } else {
        without_child(children.drop_last(), step).push(children.last())
    }
}

/// The child with a step.
pub open spec fn child_at(children: Seq<ChildPair>, step: u8) -> Option<Seq<u8>>
    decreases children.len(),
{
    if children.len() == 0 {
        None
    } else if children.last().0 == step {
        Some(children.last().1)
    } else {
        child_at(children.drop_last(), step)
    }
}

proof fn lemma_with_entry_at(entries: Seq<EntryPair>, key: Seq<u8>, value: Seq<u8>, at: int)
    requires
        entries_sorted(entries),
        0 <= at <= entries.len(),
        forall|i: int| 0 <= i < at ==> bytes_before((#[trigger] entries[i]).0, key),
        at < entries.len() ==> !bytes_before(entries[at].0, key),
    ensures
        with_entry(entries, key, value) == (if at < entries.len() && entries[at].0 == key {
            entries.update(at, (key, value))
        } else {
            entries.insert(at, (key, value))
        }),
    decreases entries.len(),
{
    if at == entries.len() {
        assert(entries.insert(at, (key, value)) =~= entries.push((key, value)));
    } else {
        let last = entries.len() - 1;
        let rest = entries.drop_last();
        assert(entries_sorted(rest)) by {
            assert forall|i: int, j: int| 0 <= i < j < rest.len() implies bytes_before(
                (#[trigger] rest[i]).0,
                (#[trigger] rest[j]).0,
            ) by {
                assert(rest[i] == entries[i] && rest[j] == entries[j]);
            }
        }
        if at == last {
            if entries[at].0 == key {
                assert(entries.update(at, (key, value)) =~= rest.push((key, value)));
            } else {
                lemma_with_entry_at(rest, key, value, at);
                assert(entries.insert(at, (key, value)) =~= rest.insert(at, (key, value)).push(
                    entries.last(),
                ));
            }
        } else {
            assert(bytes_before(entries[at].0, entries[last].0));
            crate::bytes::lemma_bytes_before_total(entries[at].0, key);
            if bytes_before(entries[last].0, key) {
                lemma_bytes_before_transitive(entries[at].0, entries[last].0, key);
            }
            if entries[last].0 == key {
                assert(bytes_before(entries[at].0, key));
            }
            assert(rest[at] == entries[at]);
            lemma_with_entry_at(rest, key, value, at);
            if entries[at].0 == key {
                assert(entries.update(at, (key, value)) =~= rest.update(at, (key, value)).push(
                    entries.last(),
                ));
            } else {
                assert(entries.insert(at, (key, value)) =~= rest.insert(at, (key, value)).push(
                    entries.last(),
                ));
            }
        }
    }
}

/// Puts an entry among entries in key order.
fn insert_entry(entries: &mut Vec<StoredNamespaceEntry>, entry: StoredNamespaceEntry)
    requires
        entries_sorted(entry_pairs(old(entries)@)),
    ensures
        entry_pairs(final(entries)@) == with_entry(
            entry_pairs(old(entries)@),
            entry.key@,
            entry.value@,
        ),
{
    let ghost all = entry_pairs(entries@);
    let ghost key = entry.key@;
    let ghost value = entry.value@;
    let mut at: usize = 0;
    while at < entries.len() && compare_bytes(entries[at].key.as_slice(), entry.key.as_slice())
        == ByteOrder::Before
        invariant
            at <= entries@.len(),
            all == entry_pairs(entries@),
            key == entry.key@,
            forall|i: int| 0 <= i < at ==> bytes_before((#[trigger] all[i]).0, key),
        decreases entries@.len() - at,
    {
        proof {
            assert(all[at as int].0 == entries@[at as int].key@);
        }
        at = at + 1;
    }
    proof {
        if at < entries@.len() {
            assert(all[at as int].0 == entries@[at as int].key@);
        }
        lemma_with_entry_at(all, key, value, at as int);
    }
    if at < entries.len() && bytes_equal(entries[at].key.as_slice(), entry.key.as_slice()) {
        entries.set(at, entry);
        proof {
            assert(entry_pairs(entries@) =~= all.update(at as int, (key, value)));
        }
    } else {
        entries.insert(at, entry);
        proof {
            assert(entry_pairs(entries@) =~= all.insert(at as int, (key, value)));
        }
    }
}

/// Copies entries without the one with a key.
fn remove_entry(entries: &[StoredNamespaceEntry], key: &[u8]) -> (rest: Vec<StoredNamespaceEntry>)
    ensures
        entry_pairs(rest@) == without_entry(entry_pairs(entries@), key@),
{
    let ghost all = entry_pairs(entries@);
    let mut rest: Vec<StoredNamespaceEntry> = Vec::new();
    let mut i: usize = 0;
    proof {
        assert(all.take(0) =~= Seq::<EntryPair>::empty());
        assert(entry_pairs(rest@) =~= Seq::<EntryPair>::empty());
    }
    while i < entries.len()
        invariant
            i <= entries@.len(),
            all == entry_pairs(entries@),
            entry_pairs(rest@) == without_entry(all.take(i as int), key@),
        decreases entries@.len() - i,
    {
        proof {
            assert(all.take(i + 1).drop_last() =~= all.take(i as int));
            assert(all.take(i + 1).last() == (entries@[i as int].key@, entries@[i as int].value@));
        }
        if !bytes_equal(entries[i].key.as_slice(), key) {
            let ghost before = rest@;
            rest.push(copy_entry(&entries[i]));
            proof {
                assert(entry_pairs(rest@) =~= entry_pairs(before).push(
                    (entries@[i as int].key@, entries@[i as int].value@),
                ));
            }
        }
        i = i + 1;
    }
    proof {
        assert(all.take(i as int) =~= all);
    }
    rest
}

proof fn lemma_with_child_at(children: Seq<ChildPair>, step: u8, identifier: Seq<u8>, at: int)
    requires
        children_valid(children),
        0 <= at <= children.len(),
        forall|i: int| 0 <= i < at ==> (#[trigger] children[i]).0 < step,
        at < children.len() ==> children[at].0 >= step,
    ensures
        with_child(children, step, identifier) == (if at < children.len() && children[at].0
            == step {
            children.update(at, (step, identifier))
        } else {
            children.insert(at, (step, identifier))
        }),
        child_at(children, step) == (if at < children.len() && children[at].0 == step {
            Some(children[at].1)
        } else {
            None
        }),
        without_child(children, step) == (if at < children.len() && children[at].0 == step {
            children.remove(at)
        } else {
            children
        }),
    decreases children.len(),
{
    if children.len() > 0 {
        let last = children.len() - 1;
        let rest = children.drop_last();
        assert(children_valid(rest)) by {
            assert forall|i: int| 0 <= i < rest.len() implies (#[trigger] rest[i]).0 <= 15
                && well_shaped(rest[i].1, NAMESPACE_HASH_BLAKE3) by {
                assert(rest[i] == children[i]);
            }
            assert forall|i: int, j: int| 0 <= i < j < rest.len() implies (#[trigger] rest[i]).0
                < (#[trigger] rest[j]).0 by {
                assert(rest[i] == children[i] && rest[j] == children[j]);
            }
        }
        if at < last {
            assert(children[at].0 < children[last].0);
            assert(rest[at] == children[at]);
        }
        let below = if at <= last { at } else { last };
        lemma_with_child_at(rest, step, identifier, below);
        assert(rest.push(children.last()) =~= children);
        if at > last {
            assert(children.insert(at, (step, identifier)) =~= children.push((step, identifier)));
        } else if at == last {
            if children[at].0 == step {
                assert(children.update(at, (step, identifier)) =~= rest.push((step, identifier)));
                assert(children.remove(at) =~= rest);
            } else {
                assert(children.insert(at, (step, identifier)) =~= rest.insert(
                    at,
                    (step, identifier),
                ).push(children.last()));
            }
        } else {
            if children[at].0 == step {
                assert(children.update(at, (step, identifier)) =~= rest.update(
                    at,
                    (step, identifier),
                ).push(children.last()));
                assert(children.remove(at) =~= rest.remove(at).push(children.last()));
            } else {
                assert(children.insert(at, (step, identifier)) =~= rest.insert(
                    at,
                    (step, identifier),
                ).push(children.last()));
            }
        }
    } else {
        assert(children.insert(at, (step, identifier)) =~= children.push((step, identifier)));
        assert(without_child(children, step) =~= children);
    }
}

/// Finds the place of a step among children in step order.
fn child_place(children: &Vec<StoredNamespaceChild>, step: u8) -> (at: usize)
    requires
        children_valid(child_pairs(children@)),
    ensures
        at <= children@.len(),
        forall|i: int| 0 <= i < at ==> (#[trigger] child_pairs(children@)[i]).0 < step,
        at < children@.len() ==> child_pairs(children@)[at as int].0 >= step,
{
    let ghost all = child_pairs(children@);
    let mut at: usize = 0;
    while at < children.len() && children[at].nibble < step
        invariant
            at <= children@.len(),
            all == child_pairs(children@),
            forall|i: int| 0 <= i < at ==> (#[trigger] all[i]).0 < step,
        decreases children@.len() - at,
    {
        proof {
            assert(all[at as int].0 == children@[at as int].nibble);
        }
        at = at + 1;
    }
    at
}

/// The plan for storing one entry in a trie below a depth.
pub open spec fn entry_put_plan(
    nodes: Blobs,
    kind: NamespaceMapKind,
    identifier: Seq<u8>,
    key: Seq<u8>,
    value: Seq<u8>,
    depth: int,
) -> Option<TriePlan>
    decreases NAMESPACE_PATH_STEPS + 1 - depth,
{
    if depth < 0 || depth > NAMESPACE_PATH_STEPS {
        None
    } else {
        match node_at(nodes, identifier) {
            Some(Node::Leaf(entries)) => if entries_sorted(entries) {
                entries_plan(kind, with_entry(entries, key, value), depth)
            } else {
                None
            },
            Some(Node::Branch(children)) => if !children_valid(children) {
                None
            } else {
                match path_step(entry_path(kind, key), depth) {
                    None => None,
                    Some(step) => {
                        let below = match child_at(children, step) {
                            Some(child) => entry_put_plan(nodes, kind, child, key, value, depth + 1),
                            None => entries_plan(kind, seq![(key, value)], depth + 1),
                        };
                        match below {
                            None => None,
                            Some(plan) => {
                                let node = Node::Branch(
                                    with_child(children, step, plan.identifier),
                                );
                                Some(
                                    TriePlan {
                                        identifier: node_identifier(node),
                                        nodes: plan.nodes.push(node),
                                    },
                                )
                            },
                        }
                    },
                }
            },
            _ => None,
        }
    }
}

/// Stores one entry in a trie below a depth and returns the identifier of the new trie.
pub fn put_namespace_map_entry_at(
    nodes: &Table<Vec<u8>>,
    batch: &mut Vec<BytesPut>,
    kind: NamespaceMapKind,
    node_identifier: &[u8],
    entry: StoredNamespaceEntry,
    path: &Vec<u8>,
    depth: usize,
) -> (identifier: Result<Vec<u8>, FilesystemError>)
    requires
        path@ == entry_path(kind, entry.key@),
        depth <= NAMESPACE_PATH_STEPS,
    ensures
        follows_trie_plan(
            identifier,
            old(batch)@,
            final(batch)@,
            entry_put_plan(
                blobs(nodes@),
                kind,
                node_identifier@,
                entry.key@,
                entry.value@,
                depth as int,
            ),
        ),
    decreases NAMESPACE_PATH_STEPS + 1 - depth,
{
    let ghost start = put_views(batch@);
    let ghost key = entry.key@;
    let ghost value = entry.value@;
    match namespace_node_in_database(nodes, node_identifier) {
        Err(error) => Err(error),
        Ok(StoredNamespaceNode::Root(_)) => Err(FilesystemError::Integrity),
        Ok(StoredNamespaceNode::Leaf(entries)) => {
            match validate_namespace_entries(entries.as_slice()) {
                Err(error) => return Err(error),
                Ok(_) => {},
            }
            let mut entries = entries;
            insert_entry(&mut entries, entry);
            put_namespace_map_entries_at(batch, kind, entries, depth)
        },
        Ok(StoredNamespaceNode::Branch(children)) => {
            match validate_namespace_children(children.as_slice()) {
                Err(error) => return Err(error),
                Ok(_) => {},
            }
            let nibble: u8 = match namespace_path_nibble(path.as_slice(), depth) {
                Err(error) => return Err(error),
                Ok(nibble) => nibble,
            };
            let mut children = children;
            let ghost all = child_pairs(children@);
            let at: usize = child_place(&children, nibble);
            let found = at < children.len() && children[at].nibble == nibble;
            proof {
                lemma_with_child_at(all, nibble, Seq::empty(), at as int);
            }
            let result = if found {
                put_namespace_map_entry_at(
                    nodes,
                    batch,
                    kind,
                    children[at].identifier.as_slice(),
                    entry,
                    path,
                    depth + 1,
                )
            } else {
                let mut single: Vec<StoredNamespaceEntry> = Vec::new();
                single.push(entry);
                proof {
                    assert(entry_pairs(single@) =~= seq![(key, value)]);
                }
                put_namespace_map_entries_at(batch, kind, single, depth + 1)
            };
            let child_identifier = match result {
                Err(error) => return Err(error),
                Ok(identifier) => identifier,
            };
            let ghost below = if found {
                entry_put_plan(blobs(nodes@), kind, all[at as int].1, key, value, depth + 1)
            } else {
                entries_plan(kind, seq![(key, value)], depth + 1)
            };
            let ghost name = child_identifier@;
            let child = StoredNamespaceChild { nibble, identifier: child_identifier };
            if found {
                children.set(at, child);
            } else {
                children.insert(at, child);
            }
            let ghost node = Node::Branch(child_pairs(children@));
            proof {
                lemma_with_child_at(all, nibble, name, at as int);
                if found {
                    assert(child_pairs(children@) =~= all.update(at as int, (nibble, name)));
                } else {
                    assert(child_pairs(children@) =~= all.insert(at as int, (nibble, name)));
                }
            }
            let identifier = put_namespace_node_in_database(
                batch,
                &StoredNamespaceNode::Branch(children),
            );
            proof {
                let plan = below->0;
                lemma_puts_join(start, plan.nodes, seq![node]);
                assert(plan.nodes + seq![node] =~= plan.nodes.push(node));
                assert(nodes_sound(seq![node]));
            }
            Ok(identifier)
        },
    }
}

/// The plan for deleting one entry of a trie below a depth, and whether the trie is then empty.
pub open spec fn entry_delete_plan(
    nodes: Blobs,
    kind: NamespaceMapKind,
    identifier: Seq<u8>,
    key: Seq<u8>,
    depth: int,
) -> Option<(TriePlan, bool)>
    decreases NAMESPACE_PATH_STEPS + 1 - depth,
{
    if depth < 0 || depth > NAMESPACE_PATH_STEPS {
        None
    } else {
        match node_at(nodes, identifier) {
            Some(Node::Leaf(entries)) => if entries_sorted(entries) {
                let rest = without_entry(entries, key);
                match entries_plan(kind, rest, depth) {
                    None => None,
                    Some(plan) => Some((plan, rest.len() == 0)),
                }
            } else {
                None
            },
            Some(Node::Branch(children)) => if !children_valid(children) {
                None
            } else {
                match path_step(entry_path(kind, key), depth) {
                    None => None,
                    Some(step) => match child_at(children, step) {
                        None => branch_plan(kind, children, Seq::empty(), depth),
                        Some(child) => match entry_delete_plan(nodes, kind, child, key, depth + 1) {
                            None => None,
                            Some((plan, true)) => branch_plan(
                                kind,
                                without_child(children, step),
                                plan.nodes,
                                depth,
                            ),
                            Some((plan, false)) => branch_plan(
                                kind,
                                with_child(children, step, plan.identifier),
                                plan.nodes,
                                depth,
                            ),
                        },
                    },
                }
            },
            _ => None,
        }
    }
}

/// The plan for the children that are left: without any, an empty leaf.
pub open spec fn branch_plan(
    kind: NamespaceMapKind,
    children: Seq<ChildPair>,
    nodes: Seq<Node>,
    depth: int,
) -> Option<(TriePlan, bool)> {
    if children.len() == 0 {
        match entries_plan(kind, Seq::empty(), depth) {
            None => None,
            Some(plan) => Some(
                (TriePlan { identifier: plan.identifier, nodes: nodes + plan.nodes }, true),
            ),
        }
    } else {
        let node = Node::Branch(children);
        Some((TriePlan { identifier: node_identifier(node), nodes: nodes.push(node) }, false))
    }
}

/// What deleting gives: the new identifier and whether the trie is empty, or an integrity error.
pub open spec fn follows_delete_plan(
    result: Result<(Vec<u8>, bool), FilesystemError>,
    before: Seq<BytesPut>,
    after: Seq<BytesPut>,
    plan: Option<(TriePlan, bool)>,
) -> bool {
    match result {
        Ok(pair) => {
            &&& plan is Some
            &&& pair.0@ == (plan->0).0.identifier
            &&& pair.1 == (plan->0).1
            &&& put_views(after) == put_views(before) + node_puts((plan->0).0.nodes)
            &&& nodes_sound((plan->0).0.nodes)
        },
        Err(error) => error == FilesystemError::Integrity && plan is None,
    }
}

/// Deletes one entry of a trie below a depth. Returns the identifier of the new trie and whether it
/// is empty.
pub fn delete_namespace_map_entry_at(
    nodes: &Table<Vec<u8>>,
    batch: &mut Vec<BytesPut>,
    kind: NamespaceMapKind,
    node_identifier: &[u8],
    key: &[u8],
    path: &Vec<u8>,
    depth: usize,
) -> (result: Result<(Vec<u8>, bool), FilesystemError>)
    requires
        path@ == entry_path(kind, key@),
        depth <= NAMESPACE_PATH_STEPS,
    ensures
        follows_delete_plan(
            result,
            old(batch)@,
            final(batch)@,
            entry_delete_plan(blobs(nodes@), kind, node_identifier@, key@, depth as int),
        ),
    decreases NAMESPACE_PATH_STEPS + 1 - depth,
{
    let ghost start = put_views(batch@);
    match namespace_node_in_database(nodes, node_identifier) {
        Err(error) => Err(error),
        Ok(StoredNamespaceNode::Root(_)) => Err(FilesystemError::Integrity),
        Ok(StoredNamespaceNode::Leaf(entries)) => {
            match validate_namespace_entries(entries.as_slice()) {
                Err(error) => return Err(error),
                Ok(_) => {},
            }
            let rest = remove_entry(entries.as_slice(), key);
            let is_empty = rest.len() == 0;
            match put_namespace_map_entries_at(batch, kind, rest, depth) {
                Err(error) => Err(error),
                Ok(identifier) => Ok((identifier, is_empty)),
            }
        },
        Ok(StoredNamespaceNode::Branch(children)) => {
            match validate_namespace_children(children.as_slice()) {
                Err(error) => return Err(error),
                Ok(_) => {},
            }
            let nibble: u8 = match namespace_path_nibble(path.as_slice(), depth) {
                Err(error) => return Err(error),
                Ok(nibble) => nibble,
            };
            let mut children = children;
            let ghost all = child_pairs(children@);
            let ghost mut stored: Seq<Node> = Seq::empty();
            let at: usize = child_place(&children, nibble);
            proof {
                lemma_with_child_at(all, nibble, Seq::empty(), at as int);
                assert(start =~= start + node_puts(stored));
            }
            if at < children.len() && children[at].nibble == nibble {
                match delete_namespace_map_entry_at(
                    nodes,
                    batch,
                    kind,
                    children[at].identifier.as_slice(),
                    key,
                    path,
                    depth + 1,
                ) {
                    Err(error) => return Err(error),
                    Ok(pair) => {
                        let (child_identifier, child_is_empty) = pair;
                        let ghost name = child_identifier@;
                        proof {
                            let below = entry_delete_plan(
                                blobs(nodes@),
                                kind,
                                all[at as int].1,
                                key@,
                                depth + 1,
                            );
                            stored = (below->0).0.nodes;
                            lemma_with_child_at(all, nibble, name, at as int);
                        }
                        if child_is_empty {
                            children.remove(at);
                            proof {
                                assert(child_pairs(children@) =~= all.remove(at as int));
                            }
                        } else {
                            let child = StoredNamespaceChild {
                                nibble,
                                identifier: child_identifier,
                            };
                            children.set(at, child);
                            proof {
                                assert(child_pairs(children@) =~= all.update(
                                    at as int,
                                    (nibble, name),
                                ));
                            }
                        }
                    },
                }
            }
            let ghost left = child_pairs(children@);
            assert(entry_delete_plan(blobs(nodes@), kind, node_identifier@, key@, depth as int)
                == branch_plan(kind, left, stored, depth as int));
            if children.len() == 0 {
                let none: Vec<StoredNamespaceEntry> = Vec::new();
                proof {
                    assert(entry_pairs(none@) =~= Seq::<EntryPair>::empty());
                }
                match put_namespace_map_entries_at(batch, kind, none, depth) {
                    Err(error) => Err(error),
                    Ok(identifier) => {
                        proof {
                            let plan = entries_plan(kind, Seq::empty(), depth as int)->0;
                            lemma_puts_join(start, stored, plan.nodes);
                        }
                        Ok((identifier, true))
                    },
                }
            } else {
                let identifier = put_namespace_node_in_database(
                    batch,
                    &StoredNamespaceNode::Branch(children),
                );
                proof {
                    let node = Node::Branch(left);
                    lemma_puts_join(start, stored, seq![node]);
                    assert(stored + seq![node] =~= stored.push(node));
                    assert(nodes_sound(seq![node]));
                }
                Ok((identifier, false))
            }
        },
    }
}

/// A change of one entry of a map.
#[derive(Debug, PartialEq, Eq)]
pub enum NamespaceMapMutation {
    /// Store a value under a key.
    Put {
        /// The key.
        key: Vec<u8>,
        /// The value.
        value: Vec<u8>,
    },
    /// Delete a key.
    Delete {
        /// The key.
        key: Vec<u8>,
    },
}

/// The value of a change.
pub ghost enum Change {
    Put(Seq<u8>, Seq<u8>),
    Delete(Seq<u8>),
}

impl View for NamespaceMapMutation {
    type V = Change;

    open spec fn view(&self) -> Change {
        match self {
            NamespaceMapMutation::Put { key, value } => Change::Put(key@, value@),
            NamespaceMapMutation::Delete { key } => Change::Delete(key@),
        }
    }
}

/// The values of changes.
pub open spec fn change_views(mutations: Seq<NamespaceMapMutation>) -> Seq<Change> {
    Seq::new(mutations.len(), |i: int| mutations[i]@)
}

/// A map after a change.
pub open spec fn change_one(map: Blobs, change: Change) -> Blobs {
    match change {
        Change::Put(key, value) => map.insert(key, value),
        Change::Delete(key) => map.remove(key),
    }
}

/// A map after changes, one after the other.
pub open spec fn change_all(map: Blobs, changes: Seq<Change>) -> Blobs
    decreases changes.len(),
{
    if changes.len() == 0 {
        map
    } else {
        change_one(change_all(map, changes.drop_last()), changes.last())
    }
}

/// The entries of a map in key order.
pub open spec fn listing(map: Blobs) -> Seq<EntryPair> {
    Seq::new(listed_keys(map).len(), |i: int| (listed_keys(map)[i], map[listed_keys(map)[i]]))
}

/// Returns the entries of a table in key order.
pub fn table_entries(table: &Table<Vec<u8>>) -> (entries: Vec<StoredNamespaceEntry>)
    ensures
        entry_pairs(entries@) == listing(blobs(table@)),
{
    let total: usize = table.len();
    let ghost keys = table.keys();
    proof {
        assert(lists_keys(keys, blobs(table@))) by {
            assert forall|key: Seq<u8>| #[trigger] blobs(table@).contains_key(key) implies
                keys.contains(key) by {
                assert(table@.contains_key(key));
            }
            assert forall|i: int| 0 <= i < keys.len() implies blobs(table@).contains_key(
                #[trigger] keys[i],
            ) by {
                assert(table@.contains_key(keys[i]));
            }
        }
        lemma_listed_keys(keys, blobs(table@));
    }
    let mut entries: Vec<StoredNamespaceEntry> = Vec::new();
    let mut i: usize = 0;
    while i < total
        invariant
            i <= total,
            total == keys.len(),
            keys == table.keys(),
            keys == listed_keys(blobs(table@)),
            lists_keys(keys, table@),
            entries@.len() == i,
            forall|j: int|
                0 <= j < i ==> (#[trigger] entries@[j]).key@ == keys[j] && entries@[j].value@
                    == blobs(table@)[keys[j]],
        decreases total - i,
    {
        entries.push(
            StoredNamespaceEntry {
                key: copy_bytes(table.key_at(i)),
                value: copy_bytes(table.value_at(i).as_slice()),
            },
        );
        i = i + 1;
    }
    proof {
        assert(entry_pairs(entries@) =~= listing(blobs(table@)));
    }
    entries
}

/// Applies changes to a table, one after the other.
fn apply_changes(table: &mut Table<Vec<u8>>, mutations: Vec<NamespaceMapMutation>)
    ensures
        blobs(final(table)@) == change_all(blobs(old(table)@), change_views(mutations@)),
{
    let ghost start = blobs(table@);
    let ghost all = change_views(mutations@);
    let mut i: usize = 0;
    proof {
        assert(all.take(0) =~= Seq::<Change>::empty());
    }
    while i < mutations.len()
        invariant
            i <= mutations@.len(),
            all == change_views(mutations@),
            blobs(table@) == change_all(start, all.take(i as int)),
        decreases mutations@.len() - i,
    {
        proof {
            assert(all.take(i + 1).drop_last() =~= all.take(i as int));
            assert(all.take(i + 1).last() == mutations@[i as int]@);
        }
        let ghost before = table@;
        match &mutations[i] {
            NamespaceMapMutation::Put { key, value } => {
                let copy = copy_bytes(value.as_slice());
                proof {
                    assert(blobs(before.insert(key@, copy)) =~= blobs(before).insert(
                        key@,
                        copy@,
                    ));
                }
                table.insert(copy_bytes(key.as_slice()), copy);
            },
            NamespaceMapMutation::Delete { key } => {
                proof {
                    assert(blobs(before.remove(key@)) =~= blobs(before).remove(key@));
                }
                table.remove(key.as_slice());
            },
        }
        i = i + 1;
    }
    proof {
        assert(all.take(i as int) =~= all);
    }
}

/// The entries of a trie, in the order of its leaves, looking at most some levels down; `None` where
/// it cannot be read.
pub open spec fn loaded(nodes: Blobs, identifier: Seq<u8>, levels: nat) -> Option<Seq<EntryPair>>
    decreases levels, 0nat,
{
    if levels == 0 {
        None
    } else {
        match node_at(nodes, identifier) {
            Some(Node::Leaf(entries)) => if entries_sorted(entries) {
                Some(entries)
            } else {
                None
            },
            Some(Node::Branch(children)) => if children_valid(children) {
                loaded_children(nodes, children, (levels - 1) as nat)
            } else {
                None
            },
            _ => None,
        }
    }
}

/// The entries of the children of a node.
pub open spec fn loaded_children(nodes: Blobs, children: Seq<ChildPair>, levels: nat) -> Option<
    Seq<EntryPair>,
>
    decreases levels, children.len() + 1,
{
    if children.len() == 0 {
        Some(Seq::empty())
    } else {
        match (
            loaded_children(nodes, children.drop_last(), levels),
            loaded(nodes, children.last().1, levels),
        ) {
            (Some(front), Some(back)) => Some(front + back),
            _ => None,
        }
    }
}

proof fn lemma_load_fails(nodes: Blobs, children: Seq<ChildPair>, count: int, levels: nat)
    requires
        0 <= count <= children.len(),
        loaded_children(nodes, children.take(count), levels) is None,
    ensures
        loaded_children(nodes, children, levels) is None,
    decreases children.len() - count,
{
    if count == children.len() {
        assert(children.take(count) =~= children);
    } else {
        assert(children.take(count + 1).drop_last() =~= children.take(count));
        lemma_load_fails(nodes, children, count + 1, levels);
    }
}

/// Collects the entries of a trie, in the order of its leaves, behind those already collected.
pub fn collect_namespace_map_entries(
    nodes: &Table<Vec<u8>>,
    node_identifier: &[u8],
    entries: &mut Vec<StoredNamespaceEntry>,
    levels: u64,
) -> (result: Result<(), FilesystemError>)
    ensures
        match result {
            Ok(_) => {
                let found = loaded(blobs(nodes@), node_identifier@, levels as nat);
                &&& found is Some
                &&& entry_pairs(final(entries)@) == entry_pairs(old(entries)@) + found->0
            },
            Err(error) => error == FilesystemError::Integrity && loaded(
                blobs(nodes@),
                node_identifier@,
                levels as nat,
            ) is None,
        },
    decreases levels,
{
    if levels == 0 {
        return Err(FilesystemError::Integrity);
    }
    match namespace_node_in_database(nodes, node_identifier) {
        Err(error) => Err(error),
        Ok(StoredNamespaceNode::Root(_)) => Err(FilesystemError::Integrity),
        Ok(StoredNamespaceNode::Leaf(leaf_entries)) => {
            match validate_namespace_entries(leaf_entries.as_slice()) {
                Err(error) => return Err(error),
                Ok(_) => {},
            }
            let mut leaf_entries = leaf_entries;
            let ghost before = entries@;
            let ghost added = leaf_entries@;
            entries.append(&mut leaf_entries);
            proof {
                assert(entry_pairs(entries@) =~= entry_pairs(before) + entry_pairs(added));
            }
            Ok(())
        },
        Ok(StoredNamespaceNode::Branch(children)) => {
            match validate_namespace_children(children.as_slice()) {
                Err(error) => return Err(error),
                Ok(_) => {},
            }
            let ghost all = child_pairs(children@);
            let ghost before = entry_pairs(entries@);
            let ghost store = blobs(nodes@);
            let ghost below = (levels - 1) as nat;
            let mut i: usize = 0;
            proof {
                assert(all.take(0) =~= Seq::<ChildPair>::empty());
                assert(before =~= before + Seq::<EntryPair>::empty());
            }
            while i < children.len()
                invariant
                    i <= children@.len(),
                    all == child_pairs(children@),
                    store == blobs(nodes@),
                    levels > 0,
                    below == levels - 1,
                    loaded(store, node_identifier@, levels as nat) == loaded_children(
                        store,
                        all,
                        below,
                    ),
                    loaded_children(store, all.take(i as int), below) is Some,
                    entry_pairs(entries@) == before + loaded_children(
                        store,
                        all.take(i as int),
                        below,
                    )->0,
                decreases children@.len() - i,
            {
                let child = &children[i];
                let ghost front = loaded_children(store, all.take(i as int), below)->0;
                proof {
                    assert(all.take(i + 1).drop_last() =~= all.take(i as int));
                    assert(all.take(i + 1).last() == (child.nibble, child.identifier@));
                    if loaded_children(store, all.take(i + 1), below) is None {
                        lemma_load_fails(store, all, i + 1, below);
                    }
                }
                match collect_namespace_map_entries(
                    nodes,
                    child.identifier.as_slice(),
                    entries,
                    levels - 1,
                ) {
                    Err(error) => return Err(error),
                    Ok(_) => {},
                }
                proof {
                    let part = loaded(store, child.identifier@, below)->0;
                    assert(before + front + part =~= before + (front + part));
                }
                i = i + 1;
            }
            proof {
                assert(all.take(i as int) =~= all);
            }
            Ok(())
        },
    }
}

/// The map of entries, if no key occurs twice.
pub open spec fn entry_map(entries: Seq<EntryPair>) -> Option<Blobs>
    decreases entries.len(),
{
    if entries.len() == 0 {
        Some(Map::empty())
    } else {
        match entry_map(entries.drop_last()) {
            None => None,
            Some(map) => if map.contains_key(entries.last().0) {
                None
            } else {
                Some(map.insert(entries.last().0, entries.last().1))
            },
        }
    }
}

proof fn lemma_entry_map_fails(entries: Seq<EntryPair>, count: int)
    requires
        0 <= count <= entries.len(),
        entry_map(entries.take(count)) is None,
    ensures
        entry_map(entries) is None,
    decreases entries.len() - count,
{
    if count == entries.len() {
        assert(entries.take(count) =~= entries);
    } else {
        assert(entries.take(count + 1).drop_last() =~= entries.take(count));
        lemma_entry_map_fails(entries, count + 1);
    }
}

/// The map that a trie holds; `None` where it cannot be read or a key occurs twice.
pub open spec fn trie_map(nodes: Blobs, root: Seq<u8>) -> Option<Blobs> {
    match loaded(nodes, root, NAMESPACE_LEVELS as nat) {
        None => None,
        Some(entries) => entry_map(entries),
    }
}

/// Reads the map that a trie holds.
pub fn namespace_map_entries_in_database(nodes: &Table<Vec<u8>>, root_identifier: &[u8]) -> (map:
    Result<Table<Vec<u8>>, FilesystemError>)
    ensures
        match map {
            Ok(map) => trie_map(blobs(nodes@), root_identifier@) == Some(blobs(map@)),
            Err(error) => error == FilesystemError::Integrity && trie_map(
                blobs(nodes@),
                root_identifier@,
            ) is None,
        },
{
    let mut entries: Vec<StoredNamespaceEntry> = Vec::new();
    proof {
        assert(entry_pairs(entries@) =~= Seq::<EntryPair>::empty());
    }
    match collect_namespace_map_entries(nodes, root_identifier, &mut entries, NAMESPACE_LEVELS) {
        Err(error) => return Err(error),
        Ok(_) => {},
    }
    let ghost all = entry_pairs(entries@);
    let mut map: Table<Vec<u8>> = Table::new();
    let mut i: usize = 0;
    proof {
        let found = loaded(blobs(nodes@), root_identifier@, NAMESPACE_LEVELS as nat)->0;
        assert(Seq::<EntryPair>::empty() + found =~= found);
        assert(all.take(0) =~= Seq::<EntryPair>::empty());
        assert(blobs(map@) =~= Map::<Seq<u8>, Seq<u8>>::empty());
    }
    while i < entries.len()
        invariant
            i <= entries@.len(),
            all == entry_pairs(entries@),
            trie_map(blobs(nodes@), root_identifier@) == entry_map(all),
            entry_map(all.take(i as int)) == Some(blobs(map@)),
        decreases entries@.len() - i,
    {
        let entry = &entries[i];
        proof {
            assert(all.take(i + 1).drop_last() =~= all.take(i as int));
            assert(all.take(i + 1).last() == (entry.key@, entry.value@));
            if entry_map(all.take(i + 1)) is None {
                lemma_entry_map_fails(all, i + 1);
            }
        }
        if map.contains_key(entry.key.as_slice()) {
            return Err(FilesystemError::Integrity);
        }
        let value = copy_bytes(entry.value.as_slice());
        proof {
            assert(blobs(map@.insert(entry.key@, value)) =~= blobs(map@).insert(
                entry.key@,
                value@,
            ));
        }
        map.insert(copy_bytes(entry.key.as_slice()), value);
        i = i + 1;
    }
    proof {
        assert(all.take(i as int) =~= all);
    }
    Ok(map)
}

/// The plan for changing the map that a trie holds: one change in place, more by storing the changed
/// map anew.
pub open spec fn changes_plan(
    nodes: Blobs,
    kind: NamespaceMapKind,
    root: Seq<u8>,
    changes: Seq<Change>,
) -> Option<TriePlan> {
    if changes.len() == 0 {
        Some(TriePlan { identifier: root, nodes: Seq::empty() })
    } else if changes.len() == 1 {
        match changes[0] {
            Change::Put(key, value) => entry_put_plan(nodes, kind, root, key, value, 0),
            Change::Delete(key) => match entry_delete_plan(nodes, kind, root, key, 0) {
                Some((plan, _)) => Some(plan),
                None => None,
            },
        }
    } else {
        match trie_map(nodes, root) {
            None => None,
            Some(map) => entries_plan(kind, listing(change_all(map, changes)), 0),
        }
    }
}

/// Changes the map that a trie holds and returns the identifier of the new trie.
pub fn put_namespace_map_mutations(
    nodes: &Table<Vec<u8>>,
    batch: &mut Vec<BytesPut>,
    kind: NamespaceMapKind,
    root_identifier: &[u8],
    mutations: Vec<NamespaceMapMutation>,
) -> (identifier: Result<Vec<u8>, FilesystemError>)
    ensures
        follows_trie_plan(
            identifier,
            old(batch)@,
            final(batch)@,
            changes_plan(blobs(nodes@), kind, root_identifier@, change_views(mutations@)),
        ),
{
    if mutations.len() > 1 {
        match namespace_map_entries_in_database(nodes, root_identifier) {
            Err(error) => return Err(error),
            Ok(map) => {
                let mut map = map;
                apply_changes(&mut map, mutations);
                let entries = table_entries(&map);
                return put_namespace_map_entries_at(batch, kind, entries, 0);
            },
        }
    }
    if mutations.len() == 0 {
        proof {
            assert(put_views(batch@) =~= put_views(batch@) + node_puts(Seq::empty()));
        }
        return Ok(copy_bytes(root_identifier));
    }
    assert(change_views(mutations@)[0] == mutations@[0]@);
    match &mutations[0] {
        NamespaceMapMutation::Put { key, value } => {
            let path = namespace_map_entry_path(kind, key.as_slice());
            let entry = StoredNamespaceEntry {
                key: copy_bytes(key.as_slice()),
                value: copy_bytes(value.as_slice()),
            };
            put_namespace_map_entry_at(nodes, batch, kind, root_identifier, entry, &path, 0)
        },
        NamespaceMapMutation::Delete { key } => {
            let path = namespace_map_entry_path(kind, key.as_slice());
            match delete_namespace_map_entry_at(
                nodes,
                batch,
                kind,
                root_identifier,
                key.as_slice(),
                &path,
                0,
            ) {
                Err(error) => Err(error),
                Ok(pair) => Ok(pair.0),
            }
        },
    }
}

/// The plan for changing a map that is known: a small one, or one with more than one change, is
/// stored anew.
pub open spec fn active_plan(
    nodes: Blobs,
    kind: NamespaceMapKind,
    root: Seq<u8>,
    active: Blobs,
    changes: Seq<Change>,
) -> Option<TriePlan> {
    if changes.len() == 0 {
        Some(TriePlan { identifier: root, nodes: Seq::empty() })
    } else if listed_keys(active).len() <= NAMESPACE_MAP_LEAF_MAX_ENTRIES || changes.len() > 1 {
        entries_plan(kind, listing(change_all(active, changes)), 0)
    } else {
        changes_plan(nodes, kind, root, changes)
    }
}

/// Changes a map that is known and returns the identifier of the new trie.
pub fn put_namespace_map_mutations_with_active_entries(
    nodes: &Table<Vec<u8>>,
    batch: &mut Vec<BytesPut>,
    kind: NamespaceMapKind,
    root_identifier: &[u8],
    active_entries: Table<Vec<u8>>,
    mutations: Vec<NamespaceMapMutation>,
) -> (identifier: Result<Vec<u8>, FilesystemError>)
    ensures
        follows_trie_plan(
            identifier,
            old(batch)@,
            final(batch)@,
            active_plan(
                blobs(nodes@),
                kind,
                root_identifier@,
                blobs(active_entries@),
                change_views(mutations@),
            ),
        ),
{
    if mutations.len() == 0 {
        proof {
            assert(put_views(batch@) =~= put_views(batch@) + node_puts(Seq::empty()));
        }
        return Ok(copy_bytes(root_identifier));
    }
    let ghost active = blobs(active_entries@);
    let count: usize = active_entries.len();
    proof {
        let keys = active_entries.keys();
        assert(lists_keys(keys, active)) by {
            assert forall|key: Seq<u8>| #[trigger] active.contains_key(key) implies keys.contains(
                key,
            ) by {
                assert(active_entries@.contains_key(key));
            }
            assert forall|i: int| 0 <= i < keys.len() implies active.contains_key(
                #[trigger] keys[i],
            ) by {
                assert(active_entries@.contains_key(keys[i]));
            }
        }
        lemma_listed_keys(keys, active);
    }
    if count <= NAMESPACE_MAP_LEAF_MAX_ENTRIES || mutations.len() > 1 {
        let mut map = active_entries;
        apply_changes(&mut map, mutations);
        let entries = table_entries(&map);
        return put_namespace_map_entries_at(batch, kind, entries, 0);
    }
    put_namespace_map_mutations(nodes, batch, kind, root_identifier, mutations)
}

} // verus!
