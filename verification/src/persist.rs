//! Branch states in their stored form: encoding inodes and directory entries, storing a state or a
//! change of it, and loading it back.

use vstd::prelude::*;

use crate::bytes::{copy_bytes, copy_optional_bytes, optional_view};
use crate::error::FilesystemError;
use crate::hash::{blobs, put_views, Blobs, BytesPut};
use crate::history::lemma_same_keys;
use crate::inode::{
    InodeView, StoredDirectoryEntry, StoredInode, StoredNodeKind, StoredTime,
};
use crate::keys::{
    decode_namespace_inode_key, decode_namespace_pair_key, encode_namespace_inode_key,
    encode_namespace_pair_key, named_key, u64_key,
};
use crate::manifest::varint;
use crate::namespace::{
    inode_views, MaterializedBranchState, MutationView, Namespace, StoredMutation,
};
use crate::table::{listed_keys, lists_keys, Table};
use crate::trie::{
    active_plan, change_views, changes_plan, collect_namespace_map_entries, entries_plan,
    entry_pairs, listing, loaded, namespace_root_in_database, node_identifier, node_puts,
    nodes_sound, put_namespace_map_entries_at, put_namespace_map_mutations,
    put_namespace_map_mutations_with_active_entries, put_namespace_node_in_database, root_at,
    sound_node, table_entries, Change, EntryPair, NamespaceMapKind, NamespaceMapMutation, Node,
    RootView, StoredNamespaceEntry, StoredNamespaceNode, StoredNamespaceRoot, TriePlan,
    NAMESPACE_LEVELS,
};

verus! {

/// An inode as a row of plain values.
#[derive(Debug, PartialEq, Eq)]
pub struct InodeRow {
    /// Number of the kind of file.
    pub kind: u32,
    /// Size in bytes.
    pub size: u64,
    /// Number of links.
    pub nlink: u32,
    /// Owner.
    pub uid: u32,
    /// Group.
    pub gid: u32,
    /// Permission bits.
    pub mode: u16,
    /// Device number.
    pub rdev: u32,
    /// Time of last access.
    pub atime: (i64, u32),
    /// Time of last content change.
    pub mtime: (i64, u32),
    /// Time of last change.
    pub ctime: (i64, u32),
    /// The directory that holds the file.
    pub parent: u64,
    /// Name in that directory.
    pub name: Vec<u8>,
    /// Target of a symbolic link.
    pub symlink_target: Option<Vec<u8>>,
    /// Manifest of the contents of a regular file.
    pub content_manifest_identifier: Option<Vec<u8>>,
}

/// The value of a row.
pub ghost struct InodeRowView {
    pub kind: u32,
    pub size: u64,
    pub nlink: u32,
    pub uid: u32,
    pub gid: u32,
    pub mode: u16,
    pub rdev: u32,
    pub atime: (i64, u32),
    pub mtime: (i64, u32),
    pub ctime: (i64, u32),
    pub parent: u64,
    pub name: Seq<u8>,
    pub symlink_target: Option<Seq<u8>>,
    pub content_manifest_identifier: Option<Seq<u8>>,
}

impl View for InodeRow {
    type V = InodeRowView;

    open spec fn view(&self) -> InodeRowView {
        InodeRowView {
            kind: self.kind,
            size: self.size,
            nlink: self.nlink,
            uid: self.uid,
            gid: self.gid,
            mode: self.mode,
            rdev: self.rdev,
            atime: self.atime,
            mtime: self.mtime,
            ctime: self.ctime,
            parent: self.parent,
            name: self.name@,
            symlink_target: optional_view(self.symlink_target),
            content_manifest_identifier: optional_view(self.content_manifest_identifier),
        }
    }
}

/// The stored form of an inode row.
pub uninterp spec fn inode_row_encoding(row: InodeRowView) -> Seq<u8>;

/// The inode row that a stored form stands for.
pub uninterp spec fn inode_row_decoding(bytes: Seq<u8>) -> Option<InodeRowView>;

/// The stored form of an inode number and the number of a kind of file: one after the other, each of
/// variable length.
pub open spec fn entry_row_encoding(inode: u64, kind: u32) -> Seq<u8> {
    varint(inode as nat) + varint(kind as nat)
}

/// The inode number and the number of a kind of file that a stored form stands for.
pub uninterp spec fn entry_row_decoding(bytes: Seq<u8>) -> Option<(u64, u32)>;

/// Calls `postcard::to_allocvec` of the postcard crate on the fields of a row. Claimed: the bytes
/// depend on the fields alone, and `postcard::from_bytes` gives them back. Writing to a growing
/// vector does not fail.
#[verifier::external_body]
fn encode_inode_row(row: &InodeRow) -> (bytes: Vec<u8>)
    ensures
        bytes@ == inode_row_encoding(row@),
        inode_row_decoding(bytes@) == Some(row@),
{
    let fields = (
        row.kind, row.size, row.nlink, row.uid, row.gid, row.mode, row.rdev, row.atime, row.mtime,
        row.ctime, row.parent, &row.name, &row.symlink_target, &row.content_manifest_identifier,
    );
    postcard::to_allocvec(&fields).expect("an inode is written to memory")
}

/// Calls `postcard::from_bytes` of the postcard crate for the fields of a row. Claimed: the result
/// depends on the bytes alone.
#[verifier::external_body]
fn decode_inode_row(bytes: &[u8]) -> (row: Option<InodeRow>)
    ensures
        match row {
            Some(row) => inode_row_decoding(bytes@) == Some(row@),
            None => inode_row_decoding(bytes@) is None,
        },
{
    let (
        (kind, size, nlink, uid, gid, mode, rdev, atime, mtime, ctime),
        (parent, name, symlink_target, content_manifest_identifier),
    ) = postcard::from_bytes(bytes).ok()?;
    Some(InodeRow {
        kind, size, nlink, uid, gid, mode, rdev, atime, mtime, ctime,
        parent, name, symlink_target, content_manifest_identifier,
    })
}

/// Calls `postcard::to_allocvec` of the postcard crate on two numbers. Claimed: the bytes are the
/// variable-length encodings of the two, one after the other, and `postcard::from_bytes` gives the
/// numbers back. Writing to a growing vector does not fail.
#[verifier::external_body]
fn encode_entry_row(inode: u64, kind: u32) -> (bytes: Vec<u8>)
    ensures
        bytes@ == entry_row_encoding(inode, kind),
        entry_row_decoding(bytes@) == Some((inode, kind)),
{
    postcard::to_allocvec(&(inode, kind)).expect("an entry is written to memory")
}

/// Calls `postcard::from_bytes` of the postcard crate for two numbers. Claimed: the result depends on
/// the bytes alone.
#[verifier::external_body]
fn decode_entry_row(bytes: &[u8]) -> (row: Option<(u64, u32)>)
    ensures
        row == entry_row_decoding(bytes@),
{
    postcard::from_bytes(bytes).ok()
}

/// The number of a kind of file.
pub open spec fn kind_number(kind: StoredNodeKind) -> u32 {
    match kind {
        StoredNodeKind::NamedPipe => 0,
        StoredNodeKind::CharacterDevice => 1,
        StoredNodeKind::BlockDevice => 2,
        StoredNodeKind::Directory => 3,
        StoredNodeKind::RegularFile => 4,
        StoredNodeKind::Symlink => 5,
        StoredNodeKind::Socket => 6,
    }
}

/// The kind of file with a number.
pub open spec fn kind_of_number(number: u32) -> Option<StoredNodeKind> {
    if number == 0 {
        Some(StoredNodeKind::NamedPipe)
    } else if number == 1 {
        Some(StoredNodeKind::CharacterDevice)
    } else if number == 2 {
        Some(StoredNodeKind::BlockDevice)
    } else if number == 3 {
        Some(StoredNodeKind::Directory)
    } else if number == 4 {
        Some(StoredNodeKind::RegularFile)
    } else if number == 5 {
        Some(StoredNodeKind::Symlink)
    } else if number == 6 {
        Some(StoredNodeKind::Socket)
    } else {
        None
    }
}

fn number_of_kind(kind: StoredNodeKind) -> (number: u32)
    ensures
        number == kind_number(kind),
{
    match kind {
        StoredNodeKind::NamedPipe => 0,
        StoredNodeKind::CharacterDevice => 1,
        StoredNodeKind::BlockDevice => 2,
        StoredNodeKind::Directory => 3,
        StoredNodeKind::RegularFile => 4,
        StoredNodeKind::Symlink => 5,
        StoredNodeKind::Socket => 6,
    }
}

fn kind_from_number(number: u32) -> (kind: Option<StoredNodeKind>)
    ensures
        kind == kind_of_number(number),
{
    if number == 0 {
        Some(StoredNodeKind::NamedPipe)
    } else if number == 1 {
        Some(StoredNodeKind::CharacterDevice)
    } else if number == 2 {
        Some(StoredNodeKind::BlockDevice)
    } else if number == 3 {
        Some(StoredNodeKind::Directory)
    } else if number == 4 {
        Some(StoredNodeKind::RegularFile)
    } else if number == 5 {
        Some(StoredNodeKind::Symlink)
    } else if number == 6 {
        Some(StoredNodeKind::Socket)
    } else {
        None
    }
}

/// The seconds and nanoseconds of a time.
pub open spec fn time_pair(time: StoredTime) -> (i64, u32) {
    (time.seconds, time.nanoseconds)
}

/// The time with some seconds and nanoseconds.
pub open spec fn time_of_pair(pair: (i64, u32)) -> StoredTime {
    StoredTime { seconds: pair.0, nanoseconds: pair.1 }
}

/// The row of an inode.
pub open spec fn inode_row(inode: InodeView) -> InodeRowView {
    InodeRowView {
        kind: kind_number(inode.kind),
        size: inode.size,
        nlink: inode.nlink,
        uid: inode.uid,
        gid: inode.gid,
        mode: inode.mode,
        rdev: inode.rdev,
        atime: time_pair(inode.atime),
        mtime: time_pair(inode.mtime),
        ctime: time_pair(inode.ctime),
        parent: inode.parent,
        name: inode.name,
        symlink_target: inode.symlink_target,
        content_manifest_identifier: inode.content_manifest_identifier,
    }
}

/// The inode of a row, if its kind of file has a number in range.
pub open spec fn inode_of_row(row: InodeRowView) -> Option<InodeView> {
    match kind_of_number(row.kind) {
        None => None,
        Some(kind) => Some(
            InodeView {
                kind,
                size: row.size,
                nlink: row.nlink,
                uid: row.uid,
                gid: row.gid,
                mode: row.mode,
                rdev: row.rdev,
                atime: time_of_pair(row.atime),
                mtime: time_of_pair(row.mtime),
                ctime: time_of_pair(row.ctime),
                parent: row.parent,
                name: row.name,
                symlink_target: row.symlink_target,
                content_manifest_identifier: row.content_manifest_identifier,
            },
        ),
    }
}

/// The stored form of an inode.
pub open spec fn inode_encoding(inode: InodeView) -> Seq<u8> {
    inode_row_encoding(inode_row(inode))
}

/// The inode that a stored form stands for.
pub open spec fn inode_decoding(bytes: Seq<u8>) -> Option<InodeView> {
    match inode_row_decoding(bytes) {
        None => None,
        Some(row) => inode_of_row(row),
    }
}

/// Encodes an inode.
pub fn encode_namespace_inode_value(inode: &StoredInode) -> (bytes: Vec<u8>)
    ensures
        bytes@ == inode_encoding(inode@),
        inode_decoding(bytes@) == Some(inode@),
{
    let row = InodeRow {
        kind: number_of_kind(inode.kind),
        size: inode.size,
        nlink: inode.nlink,
        uid: inode.uid,
        gid: inode.gid,
        mode: inode.mode,
        rdev: inode.rdev,
        atime: (inode.atime.seconds, inode.atime.nanoseconds),
        mtime: (inode.mtime.seconds, inode.mtime.nanoseconds),
        ctime: (inode.ctime.seconds, inode.ctime.nanoseconds),
        parent: inode.parent,
        name: copy_bytes(inode.name.as_slice()),
        symlink_target: copy_optional_bytes(&inode.symlink_target),
        content_manifest_identifier: copy_optional_bytes(&inode.content_manifest_identifier),
    };
    encode_inode_row(&row)
}

/// Decodes an inode.
pub fn decode_namespace_inode_value(value: &[u8]) -> (inode: Result<StoredInode, FilesystemError>)
    ensures
        match inode {
            Ok(inode) => inode_decoding(value@) == Some(inode@),
            Err(error) => error == FilesystemError::Integrity && inode_decoding(value@) is None,
        },
{
    match decode_inode_row(value) {
        None => Err(FilesystemError::Integrity),
        Some(row) => match kind_from_number(row.kind) {
            None => Err(FilesystemError::Integrity),
            Some(kind) => Ok(
                StoredInode {
                    kind,
                    size: row.size,
                    nlink: row.nlink,
                    uid: row.uid,
                    gid: row.gid,
                    mode: row.mode,
                    rdev: row.rdev,
                    atime: StoredTime { seconds: row.atime.0, nanoseconds: row.atime.1 },
                    mtime: StoredTime { seconds: row.mtime.0, nanoseconds: row.mtime.1 },
                    ctime: StoredTime { seconds: row.ctime.0, nanoseconds: row.ctime.1 },
                    parent: row.parent,
                    name: row.name,
                    symlink_target: row.symlink_target,
                    content_manifest_identifier: row.content_manifest_identifier,
                },
            ),
        },
    }
}

/// The stored form of a directory entry.
pub open spec fn entry_encoding(entry: StoredDirectoryEntry) -> Seq<u8> {
    entry_row_encoding(entry.inode, kind_number(entry.kind))
}

/// The directory entry that a stored form stands for.
pub open spec fn entry_decoding(bytes: Seq<u8>) -> Option<StoredDirectoryEntry> {
    match entry_row_decoding(bytes) {
        None => None,
        Some((inode, number)) => match kind_of_number(number) {
            None => None,
            Some(kind) => Some(StoredDirectoryEntry { inode, kind }),
        },
    }
}

/// Encodes a directory entry.
pub fn encode_namespace_directory_entry_value(entry: &StoredDirectoryEntry) -> (bytes: Vec<u8>)
    ensures
        bytes@ == entry_encoding(*entry),
        entry_decoding(bytes@) == Some(*entry),
{
    encode_entry_row(entry.inode, number_of_kind(entry.kind))
}

/// Decodes a directory entry.
pub fn decode_namespace_directory_entry_value(value: &[u8]) -> (entry: Result<
    StoredDirectoryEntry,
    FilesystemError,
>)
    ensures
        match entry {
            Ok(entry) => entry_decoding(value@) == Some(entry),
            Err(error) => error == FilesystemError::Integrity && entry_decoding(value@) is None,
        },
{
    match decode_entry_row(value) {
        None => Err(FilesystemError::Integrity),
        Some(row) => match kind_from_number(row.1) {
            None => Err(FilesystemError::Integrity),
            Some(kind) => Ok(StoredDirectoryEntry { inode: row.0, kind }),
        },
    }
}

/// The stored forms of inodes.
pub open spec fn encoded_inodes(inodes: Map<Seq<u8>, InodeView>) -> Blobs {
    inodes.map_values(|inode: InodeView| inode_encoding(inode))
}

/// The stored forms of directory entries.
pub open spec fn encoded_entries(entries: Map<Seq<u8>, StoredDirectoryEntry>) -> Blobs {
    entries.map_values(|entry: StoredDirectoryEntry| entry_encoding(entry))
}

/// Every inode decodes back from its stored form.
pub open spec fn inodes_decode(inodes: Map<Seq<u8>, InodeView>) -> bool {
    forall|key: Seq<u8>| #[trigger]
        inodes.contains_key(key) ==> inode_decoding(inode_encoding(inodes[key])) == Some(
            inodes[key],
        )
}

/// Every directory entry decodes back from its stored form.
pub open spec fn entries_decode(entries: Map<Seq<u8>, StoredDirectoryEntry>) -> bool {
    forall|key: Seq<u8>| #[trigger]
        entries.contains_key(key) ==> entry_decoding(entry_encoding(entries[key])) == Some(
            entries[key],
        )
}

/// Encodes all inodes of a state.
pub fn namespace_inode_entries(inodes: &Table<StoredInode>) -> (entries: Table<Vec<u8>>)
    ensures
        blobs(entries@) == encoded_inodes(inode_views(inodes@)),
        inodes_decode(inode_views(inodes@)),
{
    let total: usize = inodes.len();
    let ghost keys = inodes.keys();
    let mut entries: Table<Vec<u8>> = Table::new();
    let mut i: usize = 0;
    while i < total
        invariant
            i <= total,
            total == keys.len(),
            keys == inodes.keys(),
            lists_keys(keys, inodes@),
            forall|key: Seq<u8>|
                entries@.contains_key(key) <==> exists|j: int| 0 <= j < i && keys[j] == key,
            forall|j: int|
                0 <= j < i ==> entries@[#[trigger] keys[j]]@ == inode_encoding(inodes@[keys[j]]@)
                    && inode_decoding(inode_encoding(inodes@[keys[j]]@)) == Some(
                    inodes@[keys[j]]@,
                ),
        decreases total - i,
    {
        let key = copy_bytes(inodes.key_at(i));
        let value = encode_namespace_inode_value(inodes.value_at(i));
        let ghost before = entries@;
        proof {
            crate::table::lemma_sorted_no_duplicates(keys);
        }
        entries.insert(key, value);
        proof {
            assert forall|k: Seq<u8>|
                entries@.contains_key(k) <==> exists|j: int| 0 <= j < i + 1 && keys[j] == k by {
                if k == keys[i as int] {
                    assert(entries@.contains_key(k));
                }
                if before.contains_key(k) {
                    let j = choose|j: int| 0 <= j < i && keys[j] == k;
                    assert(0 <= j < i + 1 && keys[j] == k);
                }
            }
        }
        i = i + 1;
    }
    proof {
        let views = inode_views(inodes@);
        assert forall|key: Seq<u8>| entries@.contains_key(key) <==> views.contains_key(key) by {
            if inodes@.contains_key(key) {
                assert(keys.contains(key));
            }
            if entries@.contains_key(key) {
                let j = choose|j: int| 0 <= j < i && keys[j] == key;
                assert(inodes@.contains_key(keys[j]));
            }
        }
        assert forall|key: Seq<u8>| entries@.contains_key(key) implies entries@[key]@
            == inode_encoding(views[key]) by {
            let j = choose|j: int| 0 <= j < i && keys[j] == key;
            assert(entries@[keys[j]]@ == inode_encoding(inodes@[keys[j]]@));
        }
        assert(blobs(entries@) =~= encoded_inodes(views));
        assert forall|key: Seq<u8>| #[trigger] views.contains_key(key) implies inode_decoding(
            inode_encoding(views[key]),
        ) == Some(views[key]) by {
            assert(inodes@.contains_key(key));
            assert(keys.contains(key));
            let j = choose|j: int| 0 <= j < keys.len() && keys[j] == key;
            assert(entries@[keys[j]]@ == inode_encoding(inodes@[keys[j]]@));
        }
    }
    entries
}

/// Encodes all directory entries of a state.
pub fn namespace_directory_entry_entries(entries: &Table<StoredDirectoryEntry>) -> (encoded: Table<
    Vec<u8>,
>)
    ensures
        blobs(encoded@) == encoded_entries(entries@),
        entries_decode(entries@),
{
    let total: usize = entries.len();
    let ghost keys = entries.keys();
    let mut encoded: Table<Vec<u8>> = Table::new();
    let mut i: usize = 0;
    while i < total
        invariant
            i <= total,
            total == keys.len(),
            keys == entries.keys(),
            lists_keys(keys, entries@),
            forall|key: Seq<u8>|
                encoded@.contains_key(key) <==> exists|j: int| 0 <= j < i && keys[j] == key,
            forall|j: int|
                0 <= j < i ==> encoded@[#[trigger] keys[j]]@ == entry_encoding(entries@[keys[j]])
                    && entry_decoding(entry_encoding(entries@[keys[j]])) == Some(entries@[keys[j]]),
        decreases total - i,
    {
        let key = copy_bytes(entries.key_at(i));
        let value = encode_namespace_directory_entry_value(entries.value_at(i));
        let ghost before = encoded@;
        proof {
            crate::table::lemma_sorted_no_duplicates(keys);
        }
        encoded.insert(key, value);
        proof {
            assert forall|k: Seq<u8>|
                encoded@.contains_key(k) <==> exists|j: int| 0 <= j < i + 1 && keys[j] == k by {
                if k == keys[i as int] {
                    assert(encoded@.contains_key(k));
                }
                if before.contains_key(k) {
                    let j = choose|j: int| 0 <= j < i && keys[j] == k;
                    assert(0 <= j < i + 1 && keys[j] == k);
                }
            }
        }
        i = i + 1;
    }
    proof {
        assert forall|key: Seq<u8>| encoded@.contains_key(key) <==> entries@.contains_key(key) by {
            if entries@.contains_key(key) {
                assert(keys.contains(key));
            }
            if encoded@.contains_key(key) {
                let j = choose|j: int| 0 <= j < i && keys[j] == key;
                assert(entries@.contains_key(keys[j]));
            }
        }
        assert forall|key: Seq<u8>| encoded@.contains_key(key) implies encoded@[key]@
            == entry_encoding(entries@[key]) by {
            let j = choose|j: int| 0 <= j < i && keys[j] == key;
            assert(encoded@[keys[j]]@ == entry_encoding(entries@[keys[j]]));
        }
        assert(blobs(encoded@) =~= encoded_entries(entries@));
        assert forall|key: Seq<u8>| #[trigger] entries@.contains_key(key) implies entry_decoding(
            entry_encoding(entries@[key]),
        ) == Some(entries@[key]) by {
            assert(keys.contains(key));
            let j = choose|j: int| 0 <= j < keys.len() && keys[j] == key;
            assert(encoded@[keys[j]]@ == entry_encoding(entries@[keys[j]]));
        }
    }
    encoded
}

/// Copies all extended attributes of a state.
pub fn namespace_extended_attribute_entries(attributes: &Table<Vec<u8>>) -> (copy: Table<Vec<u8>>)
    ensures
        blobs(copy@) == blobs(attributes@),
{
    let total: usize = attributes.len();
    let ghost keys = attributes.keys();
    let mut copy: Table<Vec<u8>> = Table::new();
    let mut i: usize = 0;
    while i < total
        invariant
            i <= total,
            total == keys.len(),
            keys == attributes.keys(),
            lists_keys(keys, attributes@),
            forall|key: Seq<u8>|
                copy@.contains_key(key) <==> exists|j: int| 0 <= j < i && keys[j] == key,
            forall|j: int| 0 <= j < i ==> copy@[#[trigger] keys[j]]@ == attributes@[keys[j]]@,
        decreases total - i,
    {
        let key = copy_bytes(attributes.key_at(i));
        let value = copy_bytes(attributes.value_at(i).as_slice());
        let ghost before = copy@;
        proof {
            crate::table::lemma_sorted_no_duplicates(keys);
        }
        copy.insert(key, value);
        proof {
            assert forall|k: Seq<u8>|
                copy@.contains_key(k) <==> exists|j: int| 0 <= j < i + 1 && keys[j] == k by {
                if k == keys[i as int] {
                    assert(copy@.contains_key(k));
                }
                if before.contains_key(k) {
                    let j = choose|j: int| 0 <= j < i && keys[j] == k;
                    assert(0 <= j < i + 1 && keys[j] == k);
                }
            }
        }
        i = i + 1;
    }
    proof {
        assert forall|key: Seq<u8>| copy@.contains_key(key) <==> attributes@.contains_key(key) by {
            if attributes@.contains_key(key) {
                assert(keys.contains(key));
            }
            if copy@.contains_key(key) {
                let j = choose|j: int| 0 <= j < i && keys[j] == key;
                assert(attributes@.contains_key(keys[j]));
            }
        }
        assert forall|key: Seq<u8>| copy@.contains_key(key) implies copy@[key]@
            == attributes@[key]@ by {
            let j = choose|j: int| 0 <= j < i && keys[j] == key;
            assert(copy@[keys[j]]@ == attributes@[keys[j]]@);
        }
        assert(blobs(copy@) =~= blobs(attributes@));
    }
    copy
}

/// The inodes and directory entries of a state decode back from their stored forms, and its maps can
/// be listed.
pub open spec fn encodable(namespace: Namespace) -> bool {
    &&& inodes_decode(namespace.inodes)
    &&& entries_decode(namespace.entries)
    &&& lists_keys(listed_keys(namespace.inodes), namespace.inodes)
    &&& lists_keys(listed_keys(namespace.entries), namespace.entries)
    &&& lists_keys(listed_keys(namespace.attributes), namespace.attributes)
}

/// The inodes and directory entries that a mutation stores decode back from their stored forms.
pub open spec fn puts_encodable(mutation: MutationView) -> bool {
    &&& forall|i: int|
        0 <= i < mutation.inode_puts.len() ==> inode_decoding(
            inode_encoding((#[trigger] mutation.inode_puts[i]).1),
        ) == Some(mutation.inode_puts[i].1)
    &&& forall|i: int|
        0 <= i < mutation.entry_puts.len() ==> entry_decoding(
            entry_encoding((#[trigger] mutation.entry_puts[i]).2),
        ) == Some(mutation.entry_puts[i].2)
}

/// The maps of a state can be listed.
fn list_state(state: &MaterializedBranchState)
    ensures
        lists_keys(listed_keys(state@.inodes), state@.inodes),
        lists_keys(listed_keys(state@.entries), state@.entries),
        lists_keys(listed_keys(state@.attributes), state@.attributes),
{
    let _inodes: usize = state.inodes.len();
    let _entries: usize = state.directory_entries.len();
    let _attributes: usize = state.extended_attributes.len();
    proof {
        lemma_same_keys(state.inodes@, state@.inodes, state.inodes.keys());
        lemma_same_keys(
            state.directory_entries@,
            state@.entries,
            state.directory_entries.keys(),
        );
        lemma_same_keys(
            state.extended_attributes@,
            state@.attributes,
            state.extended_attributes.keys(),
        );
    }
}

/// The changes of the stored inodes: deletions first.
pub open spec fn inode_changes(mutation: MutationView) -> Seq<Change> {
    Seq::new(
        mutation.inode_deletes.len(),
        |i: int| Change::Delete(u64_key(mutation.inode_deletes[i])),
    ) + Seq::new(
        mutation.inode_puts.len(),
        |i: int|
            Change::Put(
                u64_key(mutation.inode_puts[i].0),
                inode_encoding(mutation.inode_puts[i].1),
            ),
    )
}

/// The changes of the stored directory entries: deletions first.
pub open spec fn entry_changes(mutation: MutationView) -> Seq<Change> {
    Seq::new(
        mutation.entry_deletes.len(),
        |i: int|
            Change::Delete(named_key(mutation.entry_deletes[i].0, mutation.entry_deletes[i].1)),
    ) + Seq::new(
        mutation.entry_puts.len(),
        |i: int|
            Change::Put(
                named_key(mutation.entry_puts[i].0, mutation.entry_puts[i].1),
                entry_encoding(mutation.entry_puts[i].2),
            ),
    )
}

/// The changes of the stored extended attributes: deletions first.
pub open spec fn attribute_changes(mutation: MutationView) -> Seq<Change> {
    Seq::new(
        mutation.attribute_deletes.len(),
        |i: int|
            Change::Delete(
                named_key(mutation.attribute_deletes[i].0, mutation.attribute_deletes[i].1),
            ),
    ) + Seq::new(
        mutation.attribute_puts.len(),
        |i: int|
            Change::Put(
                named_key(mutation.attribute_puts[i].0, mutation.attribute_puts[i].1),
                mutation.attribute_puts[i].2,
            ),
    )
}

/// Lists the changes of the stored inodes.
pub fn namespace_inode_mutations(mutation: &StoredMutation) -> (mutations: Vec<NamespaceMapMutation>)
    ensures
        change_views(mutations@) == inode_changes(mutation@),
        forall|i: int|
            0 <= i < mutation@.inode_puts.len() ==> inode_decoding(
                inode_encoding((#[trigger] mutation@.inode_puts[i]).1),
            ) == Some(mutation@.inode_puts[i].1),
{
    let ghost expected = inode_changes(mutation@);
    let mut mutations: Vec<NamespaceMapMutation> = Vec::new();
    let mut i: usize = 0;
    while i < mutation.inode_deletes.len()
        invariant
            i <= mutation.inode_deletes@.len(),
            expected == inode_changes(mutation@),
            mutations@.len() == i,
            forall|j: int| 0 <= j < i ==> (#[trigger] mutations@[j])@ == expected[j],
        decreases mutation.inode_deletes@.len() - i,
    {
        mutations.push(
            NamespaceMapMutation::Delete {
                key: encode_namespace_inode_key(mutation.inode_deletes[i]),
            },
        );
        i = i + 1;
    }
    let first: usize = i;
    i = 0;
    while i < mutation.inode_puts.len()
        invariant
            i <= mutation.inode_puts@.len(),
            expected == inode_changes(mutation@),
            first == mutation.inode_deletes@.len(),
            mutations@.len() == first + i,
            forall|j: int| 0 <= j < first + i ==> (#[trigger] mutations@[j])@ == expected[j],
            forall|j: int|
                0 <= j < i ==> inode_decoding(
                    inode_encoding((#[trigger] mutation@.inode_puts[j]).1),
                ) == Some(mutation@.inode_puts[j].1),
        decreases mutation.inode_puts@.len() - i,
    {
        let put = &mutation.inode_puts[i];
        mutations.push(
            NamespaceMapMutation::Put {
                key: encode_namespace_inode_key(put.inode_number),
                value: encode_namespace_inode_value(&put.inode),
            },
        );
        i = i + 1;
    }
    proof {
        assert(change_views(mutations@) =~= expected);
    }
    mutations
}

/// Lists the changes of the stored directory entries.
pub fn namespace_directory_entry_mutations(mutation: &StoredMutation) -> (mutations: Vec<
    NamespaceMapMutation,
>)
    ensures
        change_views(mutations@) == entry_changes(mutation@),
        forall|i: int|
            0 <= i < mutation@.entry_puts.len() ==> entry_decoding(
                entry_encoding((#[trigger] mutation@.entry_puts[i]).2),
            ) == Some(mutation@.entry_puts[i].2),
{
    let ghost expected = entry_changes(mutation@);
    let mut mutations: Vec<NamespaceMapMutation> = Vec::new();
    let mut i: usize = 0;
    while i < mutation.directory_entry_deletes.len()
        invariant
            i <= mutation.directory_entry_deletes@.len(),
            expected == entry_changes(mutation@),
            mutations@.len() == i,
            forall|j: int| 0 <= j < i ==> (#[trigger] mutations@[j])@ == expected[j],
        decreases mutation.directory_entry_deletes@.len() - i,
    {
        let delete = &mutation.directory_entry_deletes[i];
        mutations.push(
            NamespaceMapMutation::Delete {
                key: encode_namespace_pair_key(delete.parent, delete.name.as_slice()),
            },
        );
        i = i + 1;
    }
    let first: usize = i;
    i = 0;
    while i < mutation.directory_entry_puts.len()
        invariant
            i <= mutation.directory_entry_puts@.len(),
            expected == entry_changes(mutation@),
            first == mutation.directory_entry_deletes@.len(),
            mutations@.len() == first + i,
            forall|j: int| 0 <= j < first + i ==> (#[trigger] mutations@[j])@ == expected[j],
            forall|j: int|
                0 <= j < i ==> entry_decoding(
                    entry_encoding((#[trigger] mutation@.entry_puts[j]).2),
                ) == Some(mutation@.entry_puts[j].2),
        decreases mutation.directory_entry_puts@.len() - i,
    {
        let put = &mutation.directory_entry_puts[i];
        mutations.push(
            NamespaceMapMutation::Put {
                key: encode_namespace_pair_key(put.parent, put.name.as_slice()),
                value: encode_namespace_directory_entry_value(&put.entry),
            },
        );
        i = i + 1;
    }
    proof {
        assert(change_views(mutations@) =~= expected);
    }
    mutations
}

/// Lists the changes of the stored extended attributes.
pub fn namespace_extended_attribute_mutations(mutation: &StoredMutation) -> (mutations: Vec<
    NamespaceMapMutation,
>)
    ensures
        change_views(mutations@) == attribute_changes(mutation@),
{
    let ghost expected = attribute_changes(mutation@);
    let mut mutations: Vec<NamespaceMapMutation> = Vec::new();
    let mut i: usize = 0;
    while i < mutation.extended_attribute_deletes.len()
        invariant
            i <= mutation.extended_attribute_deletes@.len(),
            expected == attribute_changes(mutation@),
            mutations@.len() == i,
            forall|j: int| 0 <= j < i ==> (#[trigger] mutations@[j])@ == expected[j],
        decreases mutation.extended_attribute_deletes@.len() - i,
    {
        let delete = &mutation.extended_attribute_deletes[i];
        mutations.push(
            NamespaceMapMutation::Delete {
                key: encode_namespace_pair_key(delete.inode_number, delete.name.as_slice()),
            },
        );
        i = i + 1;
    }
    let first: usize = i;
    i = 0;
    while i < mutation.extended_attribute_puts.len()
        invariant
            i <= mutation.extended_attribute_puts@.len(),
            expected == attribute_changes(mutation@),
            first == mutation.extended_attribute_deletes@.len(),
            mutations@.len() == first + i,
            forall|j: int| 0 <= j < first + i ==> (#[trigger] mutations@[j])@ == expected[j],
        decreases mutation.extended_attribute_puts@.len() - i,
    {
        let put = &mutation.extended_attribute_puts[i];
        mutations.push(
            NamespaceMapMutation::Put {
                key: encode_namespace_pair_key(put.inode_number, put.name.as_slice()),
                value: copy_bytes(put.value.as_slice()),
            },
        );
        i = i + 1;
    }
    proof {
        assert(change_views(mutations@) =~= expected);
    }
    mutations
}

/// The plan for a state whose three maps have plans, and their roots.
pub open spec fn roots_plan(
    inodes: Option<TriePlan>,
    entries: Option<TriePlan>,
    attributes: Option<TriePlan>,
) -> Option<(TriePlan, RootView)> {
    if inodes is Some && entries is Some && attributes is Some {
        let root = RootView {
            inodes: inodes->0.identifier,
            entries: entries->0.identifier,
            attributes: attributes->0.identifier,
        };
        Some(
            (
                TriePlan {
                    identifier: node_identifier(Node::Root(root)),
                    nodes: inodes->0.nodes + entries->0.nodes + attributes->0.nodes + seq![
                        Node::Root(root),
                    ],
                },
                root,
            ),
        )
    } else {
        None
    }
}

/// The plan for storing a state.
pub open spec fn state_plan(namespace: Namespace) -> Option<(TriePlan, RootView)> {
    roots_plan(
        entries_plan(NamespaceMapKind::Inodes, listing(encoded_inodes(namespace.inodes)), 0),
        entries_plan(
            NamespaceMapKind::DirectoryEntries,
            listing(encoded_entries(namespace.entries)),
            0,
        ),
        entries_plan(NamespaceMapKind::ExtendedAttributes, listing(namespace.attributes), 0),
    )
}

/// The plan for storing a change of a stored state.
pub open spec fn mutation_plan(nodes: Blobs, identifier: Seq<u8>, mutation: MutationView) -> Option<
    (TriePlan, RootView),
> {
    match root_at(nodes, identifier) {
        None => None,
        Some(root) => roots_plan(
            changes_plan(nodes, NamespaceMapKind::Inodes, root.inodes, inode_changes(mutation)),
            changes_plan(
                nodes,
                NamespaceMapKind::DirectoryEntries,
                root.entries,
                entry_changes(mutation),
            ),
            changes_plan(
                nodes,
                NamespaceMapKind::ExtendedAttributes,
                root.attributes,
                attribute_changes(mutation),
            ),
        ),
    }
}

/// The plan for storing a change of a state that is known.
pub open spec fn active_mutation_plan(
    nodes: Blobs,
    root: RootView,
    namespace: Namespace,
    mutation: MutationView,
) -> Option<(TriePlan, RootView)> {
    roots_plan(
        active_plan(
            nodes,
            NamespaceMapKind::Inodes,
            root.inodes,
            encoded_inodes(namespace.inodes),
            inode_changes(mutation),
        ),
        active_plan(
            nodes,
            NamespaceMapKind::DirectoryEntries,
            root.entries,
            encoded_entries(namespace.entries),
            entry_changes(mutation),
        ),
        active_plan(
            nodes,
            NamespaceMapKind::ExtendedAttributes,
            root.attributes,
            namespace.attributes,
            attribute_changes(mutation),
        ),
    )
}

/// What storing a state gives: its identifier and roots, or an integrity error.
pub open spec fn follows_roots_plan(
    result: Result<(Vec<u8>, StoredNamespaceRoot), FilesystemError>,
    before: Seq<BytesPut>,
    after: Seq<BytesPut>,
    plan: Option<(TriePlan, RootView)>,
) -> bool {
    match result {
        Ok(pair) => {
            &&& plan is Some
            &&& pair.0@ == (plan->0).0.identifier
            &&& pair.1@ == (plan->0).1
            &&& put_views(after) == put_views(before) + node_puts((plan->0).0.nodes)
            &&& nodes_sound((plan->0).0.nodes)
        },
        Err(error) => error == FilesystemError::Integrity && plan is None,
    }
}

proof fn lemma_roots_stored(
    start: Seq<(Seq<u8>, Seq<u8>)>,
    a: Seq<Node>,
    b: Seq<Node>,
    c: Seq<Node>,
    root: Node,
)
    requires
        nodes_sound(a),
        nodes_sound(b),
        nodes_sound(c),
        sound_node(root),
    ensures
        start + node_puts(a) + node_puts(b) + node_puts(c) + node_puts(seq![root]) == start
            + node_puts(a + b + c + seq![root]),
        nodes_sound(a + b + c + seq![root]),
{
    let all = a + b + c + seq![root];
    assert(start + node_puts(a) + node_puts(b) + node_puts(c) + node_puts(seq![root]) =~= start
        + node_puts(all));
    assert forall|i: int| 0 <= i < all.len() implies sound_node(#[trigger] all[i]) by {
        if i < a.len() {
            assert(all[i] == a[i]);
        } else if i < a.len() + b.len() {
            assert(all[i] == b[i - a.len()]);
        } else if i < a.len() + b.len() + c.len() {
            assert(all[i] == c[i - a.len() - b.len()]);
        } else {
            assert(all[i] == root);
        }
    }
}

/// Stores a state and returns its identifier and roots.
pub fn put_namespace_state_in_database(
    batch: &mut Vec<BytesPut>,
    state: &MaterializedBranchState,
) -> (result: Result<(Vec<u8>, StoredNamespaceRoot), FilesystemError>)
    ensures
        follows_roots_plan(result, old(batch)@, final(batch)@, state_plan(state@)),
        result is Ok ==> encodable(state@),
{
    let ghost start = put_views(batch@);
    list_state(state);
    let inodes = match put_namespace_map_entries_at(
        batch,
        NamespaceMapKind::Inodes,
        table_entries(&namespace_inode_entries(&state.inodes)),
        0,
    ) {
        Err(error) => return Err(error),
        Ok(identifier) => identifier,
    };
    let directory_entries = match put_namespace_map_entries_at(
        batch,
        NamespaceMapKind::DirectoryEntries,
        table_entries(&namespace_directory_entry_entries(&state.directory_entries)),
        0,
    ) {
        Err(error) => return Err(error),
        Ok(identifier) => identifier,
    };
    let extended_attributes = match put_namespace_map_entries_at(
        batch,
        NamespaceMapKind::ExtendedAttributes,
        table_entries(&state.extended_attributes),
        0,
    ) {
        Err(error) => return Err(error),
        Ok(identifier) => identifier,
    };
    let root = StoredNamespaceRoot { inodes, directory_entries, extended_attributes };
    let node = StoredNamespaceNode::Root(root.clone());
    let identifier = put_namespace_node_in_database(batch, &node);
    proof {
        let a = entries_plan(
            NamespaceMapKind::Inodes,
            listing(encoded_inodes(state@.inodes)),
            0,
        )->0.nodes;
        let b = entries_plan(
            NamespaceMapKind::DirectoryEntries,
            listing(encoded_entries(state@.entries)),
            0,
        )->0.nodes;
        let c = entries_plan(
            NamespaceMapKind::ExtendedAttributes,
            listing(state@.attributes),
            0,
        )->0.nodes;
        lemma_roots_stored(start, a, b, c, node@);
    }
    Ok((identifier, root))
}

/// Stores a change of a stored state and returns the new identifier and roots.
pub fn put_namespace_mutation_in_database(
    nodes: &Table<Vec<u8>>,
    batch: &mut Vec<BytesPut>,
    namespace_identifier: &[u8],
    mutation: &StoredMutation,
) -> (result: Result<(Vec<u8>, StoredNamespaceRoot), FilesystemError>)
    ensures
        follows_roots_plan(
            result,
            old(batch)@,
            final(batch)@,
            mutation_plan(blobs(nodes@), namespace_identifier@, mutation@),
        ),
{
    let ghost start = put_views(batch@);
    let current = match namespace_root_in_database(nodes, namespace_identifier) {
        Err(error) => return Err(error),
        Ok(root) => root,
    };
    let ghost store = blobs(nodes@);
    let inodes = match put_namespace_map_mutations(
        nodes,
        batch,
        NamespaceMapKind::Inodes,
        current.inodes.as_slice(),
        namespace_inode_mutations(mutation),
    ) {
        Err(error) => return Err(error),
        Ok(identifier) => identifier,
    };
    let directory_entries = match put_namespace_map_mutations(
        nodes,
        batch,
        NamespaceMapKind::DirectoryEntries,
        current.directory_entries.as_slice(),
        namespace_directory_entry_mutations(mutation),
    ) {
        Err(error) => return Err(error),
        Ok(identifier) => identifier,
    };
    let extended_attributes = match put_namespace_map_mutations(
        nodes,
        batch,
        NamespaceMapKind::ExtendedAttributes,
        current.extended_attributes.as_slice(),
        namespace_extended_attribute_mutations(mutation),
    ) {
        Err(error) => return Err(error),
        Ok(identifier) => identifier,
    };
    let root = StoredNamespaceRoot { inodes, directory_entries, extended_attributes };
    let node = StoredNamespaceNode::Root(root.clone());
    let identifier = put_namespace_node_in_database(batch, &node);
    proof {
        let a = changes_plan(
            store,
            NamespaceMapKind::Inodes,
            current@.inodes,
            inode_changes(mutation@),
        )->0.nodes;
        let b = changes_plan(
            store,
            NamespaceMapKind::DirectoryEntries,
            current@.entries,
            entry_changes(mutation@),
        )->0.nodes;
        let c = changes_plan(
            store,
            NamespaceMapKind::ExtendedAttributes,
            current@.attributes,
            attribute_changes(mutation@),
        )->0.nodes;
        lemma_roots_stored(start, a, b, c, node@);
    }
    Ok((identifier, root))
}

/// Stores a change of a state that is known and returns the new identifier and roots.
pub fn put_namespace_mutation_from_active_in_database(
    nodes: &Table<Vec<u8>>,
    batch: &mut Vec<BytesPut>,
    active_root: &StoredNamespaceRoot,
    active_state: &MaterializedBranchState,
    mutation: &StoredMutation,
) -> (result: Result<(Vec<u8>, StoredNamespaceRoot), FilesystemError>)
    ensures
        follows_roots_plan(
            result,
            old(batch)@,
            final(batch)@,
            active_mutation_plan(blobs(nodes@), active_root@, active_state@, mutation@),
        ),
        result is Ok ==> encodable(active_state@) && puts_encodable(mutation@),
{
    let ghost start = put_views(batch@);
    list_state(active_state);
    let ghost store = blobs(nodes@);
    let inodes = match put_namespace_map_mutations_with_active_entries(
        nodes,
        batch,
        NamespaceMapKind::Inodes,
        active_root.inodes.as_slice(),
        namespace_inode_entries(&active_state.inodes),
        namespace_inode_mutations(mutation),
    ) {
        Err(error) => return Err(error),
        Ok(identifier) => identifier,
    };
    let directory_entries = match put_namespace_map_mutations_with_active_entries(
        nodes,
        batch,
        NamespaceMapKind::DirectoryEntries,
        active_root.directory_entries.as_slice(),
        namespace_directory_entry_entries(&active_state.directory_entries),
        namespace_directory_entry_mutations(mutation),
    ) {
        Err(error) => return Err(error),
        Ok(identifier) => identifier,
    };
    let extended_attributes = match put_namespace_map_mutations_with_active_entries(
        nodes,
        batch,
        NamespaceMapKind::ExtendedAttributes,
        active_root.extended_attributes.as_slice(),
        namespace_extended_attribute_entries(&active_state.extended_attributes),
        namespace_extended_attribute_mutations(mutation),
    ) {
        Err(error) => return Err(error),
        Ok(identifier) => identifier,
    };
    let root = StoredNamespaceRoot { inodes, directory_entries, extended_attributes };
    let node = StoredNamespaceNode::Root(root.clone());
    let identifier = put_namespace_node_in_database(batch, &node);
    proof {
        let a = active_plan(
            store,
            NamespaceMapKind::Inodes,
            active_root@.inodes,
            encoded_inodes(active_state@.inodes),
            inode_changes(mutation@),
        )->0.nodes;
        let b = active_plan(
            store,
            NamespaceMapKind::DirectoryEntries,
            active_root@.entries,
            encoded_entries(active_state@.entries),
            entry_changes(mutation@),
        )->0.nodes;
        let c = active_plan(
            store,
            NamespaceMapKind::ExtendedAttributes,
            active_root@.attributes,
            active_state@.attributes,
            attribute_changes(mutation@),
        )->0.nodes;
        lemma_roots_stored(start, a, b, c, node@);
    }
    Ok((identifier, root))
}

/// The inodes of stored entries, a later one in place of an earlier one; `None` where a key or a value
/// cannot be decoded.
pub open spec fn decoded_inodes(entries: Seq<EntryPair>) -> Option<Map<Seq<u8>, InodeView>>
    decreases entries.len(),
{
    if entries.len() == 0 {
        Some(Map::empty())
    } else {
        let (key, value) = entries.last();
        match (decoded_inodes(entries.drop_last()), inode_decoding(value)) {
            (Some(map), Some(inode)) => if key.len() == 8 {
                Some(map.insert(key, inode))
            } else {
                None
            },
            _ => None,
        }
    }
}

/// The directory entries of stored entries, a later one in place of an earlier one; `None` where a key
/// or a value cannot be decoded.
pub open spec fn decoded_entries(entries: Seq<EntryPair>) -> Option<
    Map<Seq<u8>, StoredDirectoryEntry>,
>
    decreases entries.len(),
{
    if entries.len() == 0 {
        Some(Map::empty())
    } else {
        let (key, value) = entries.last();
        match (decoded_entries(entries.drop_last()), entry_decoding(value)) {
            (Some(map), Some(entry)) => if key.len() >= 8 {
                Some(map.insert(key, entry))
            } else {
                None
            },
            _ => None,
        }
    }
}

/// The extended attributes of stored entries, a later one in place of an earlier one; `None` where a
/// key cannot be decoded.
pub open spec fn decoded_attributes(entries: Seq<EntryPair>) -> Option<Blobs>
    decreases entries.len(),
{
    if entries.len() == 0 {
        Some(Map::empty())
    } else {
        let (key, value) = entries.last();
        match decoded_attributes(entries.drop_last()) {
            Some(map) => if key.len() >= 8 {
                Some(map.insert(key, value))
            } else {
                None
            },
            None => None,
        }
    }
}

/// The state stored under an identifier; `None` where it cannot be read.
pub open spec fn stored_state(nodes: Blobs, identifier: Seq<u8>) -> Option<Namespace> {
    match root_at(nodes, identifier) {
        None => None,
        Some(root) => {
            let inodes = loaded(nodes, root.inodes, NAMESPACE_LEVELS as nat);
            let entries = loaded(nodes, root.entries, NAMESPACE_LEVELS as nat);
            let attributes = loaded(nodes, root.attributes, NAMESPACE_LEVELS as nat);
            if inodes is Some && entries is Some && attributes is Some {
                match (
                    decoded_inodes(inodes->0),
                    decoded_entries(entries->0),
                    decoded_attributes(attributes->0),
                ) {
                    (Some(inodes), Some(entries), Some(attributes)) => Some(
                        Namespace { inodes, entries, attributes },
                    ),
                    _ => None,
                }
            } else {
                None
            }
        },
    }
}

/// Collects the entries of a trie from its root.
fn load_entries(nodes: &Table<Vec<u8>>, root_identifier: &[u8]) -> (entries: Result<
    Vec<StoredNamespaceEntry>,
    FilesystemError,
>)
    ensures
        match entries {
            Ok(entries) => loaded(blobs(nodes@), root_identifier@, NAMESPACE_LEVELS as nat) == Some(
                entry_pairs(entries@),
            ),
            Err(error) => error == FilesystemError::Integrity && loaded(
                blobs(nodes@),
                root_identifier@,
                NAMESPACE_LEVELS as nat,
            ) is None,
        },
{
    let mut entries: Vec<StoredNamespaceEntry> = Vec::new();
    proof {
        assert(entry_pairs(entries@) =~= Seq::<EntryPair>::empty());
    }
    match collect_namespace_map_entries(nodes, root_identifier, &mut entries, NAMESPACE_LEVELS) {
        Err(error) => Err(error),
        Ok(_) => {
            proof {
                let found = loaded(blobs(nodes@), root_identifier@, NAMESPACE_LEVELS as nat)->0;
                assert(Seq::<EntryPair>::empty() + found =~= found);
            }
            Ok(entries)
        },
    }
}

proof fn lemma_decoding_fails(entries: Seq<EntryPair>, count: int)
    requires
        0 <= count <= entries.len(),
    ensures
        decoded_inodes(entries.take(count)) is None ==> decoded_inodes(entries) is None,
        decoded_entries(entries.take(count)) is None ==> decoded_entries(entries) is None,
        decoded_attributes(entries.take(count)) is None ==> decoded_attributes(entries) is None,
    decreases entries.len() - count,
{
    if count == entries.len() {
        assert(entries.take(count) =~= entries);
    } else {
        assert(entries.take(count + 1).drop_last() =~= entries.take(count));
        lemma_decoding_fails(entries, count + 1);
    }
}

/// Decodes inodes.
fn load_inodes(entries: &Vec<StoredNamespaceEntry>) -> (inodes: Result<
    Table<StoredInode>,
    FilesystemError,
>)
    ensures
        match inodes {
            Ok(inodes) => decoded_inodes(entry_pairs(entries@)) == Some(inode_views(inodes@)),
            Err(error) => error == FilesystemError::Integrity && decoded_inodes(
                entry_pairs(entries@),
            ) is None,
        },
{
    let ghost all = entry_pairs(entries@);
    let mut inodes: Table<StoredInode> = Table::new();
    let mut i: usize = 0;
    proof {
        assert(all.take(0) =~= Seq::<EntryPair>::empty());
        assert(inode_views(inodes@) =~= Map::<Seq<u8>, InodeView>::empty());
    }
    while i < entries.len()
        invariant
            i <= entries@.len(),
            all == entry_pairs(entries@),
            decoded_inodes(all.take(i as int)) == Some(inode_views(inodes@)),
        decreases entries@.len() - i,
    {
        let entry = &entries[i];
        proof {
            assert(all.take(i + 1).drop_last() =~= all.take(i as int));
            assert(all.take(i + 1).last() == (entry.key@, entry.value@));
            lemma_decoding_fails(all, i + 1);
        }
        match decode_namespace_inode_key(entry.key.as_slice()) {
            Err(error) => return Err(error),
            Ok(_) => {},
        }
        match decode_namespace_inode_value(entry.value.as_slice()) {
            Err(error) => return Err(error),
            Ok(inode) => {
                proof {
                    assert(inode_views(inodes@.insert(entry.key@, inode)) =~= inode_views(
                        inodes@,
                    ).insert(entry.key@, inode@));
                }
                inodes.insert(copy_bytes(entry.key.as_slice()), inode);
            },
        }
        i = i + 1;
    }
    proof {
        assert(all.take(i as int) =~= all);
    }
    Ok(inodes)
}

/// Decodes directory entries.
fn load_directory_entries(entries: &Vec<StoredNamespaceEntry>) -> (decoded: Result<
    Table<StoredDirectoryEntry>,
    FilesystemError,
>)
    ensures
        match decoded {
            Ok(decoded) => decoded_entries(entry_pairs(entries@)) == Some(decoded@),
            Err(error) => error == FilesystemError::Integrity && decoded_entries(
                entry_pairs(entries@),
            ) is None,
        },
{
    let ghost all = entry_pairs(entries@);
    let mut decoded: Table<StoredDirectoryEntry> = Table::new();
    let mut i: usize = 0;
    proof {
        assert(all.take(0) =~= Seq::<EntryPair>::empty());
    }
    while i < entries.len()
        invariant
            i <= entries@.len(),
            all == entry_pairs(entries@),
            decoded_entries(all.take(i as int)) == Some(decoded@),
        decreases entries@.len() - i,
    {
        let entry = &entries[i];
        proof {
            assert(all.take(i + 1).drop_last() =~= all.take(i as int));
            assert(all.take(i + 1).last() == (entry.key@, entry.value@));
            lemma_decoding_fails(all, i + 1);
        }
        match decode_namespace_pair_key(entry.key.as_slice()) {
            Err(error) => return Err(error),
            Ok(_) => {},
        }
        match decode_namespace_directory_entry_value(entry.value.as_slice()) {
            Err(error) => return Err(error),
            Ok(found) => {
                decoded.insert(copy_bytes(entry.key.as_slice()), found);
            },
        }
        i = i + 1;
    }
    proof {
        assert(all.take(i as int) =~= all);
    }
    Ok(decoded)
}

/// Decodes extended attributes.
fn load_attributes(entries: &Vec<StoredNamespaceEntry>) -> (decoded: Result<
    Table<Vec<u8>>,
    FilesystemError,
>)
    ensures
        match decoded {
            Ok(decoded) => decoded_attributes(entry_pairs(entries@)) == Some(blobs(decoded@)),
            Err(error) => error == FilesystemError::Integrity && decoded_attributes(
                entry_pairs(entries@),
            ) is None,
        },
{
    let ghost all = entry_pairs(entries@);
    let mut decoded: Table<Vec<u8>> = Table::new();
    let mut i: usize = 0;
    proof {
        assert(all.take(0) =~= Seq::<EntryPair>::empty());
        assert(blobs(decoded@) =~= Map::<Seq<u8>, Seq<u8>>::empty());
    }
    while i < entries.len()
        invariant
            i <= entries@.len(),
            all == entry_pairs(entries@),
            decoded_attributes(all.take(i as int)) == Some(blobs(decoded@)),
        decreases entries@.len() - i,
    {
        let entry = &entries[i];
        proof {
            assert(all.take(i + 1).drop_last() =~= all.take(i as int));
            assert(all.take(i + 1).last() == (entry.key@, entry.value@));
            lemma_decoding_fails(all, i + 1);
        }
        match decode_namespace_pair_key(entry.key.as_slice()) {
            Err(error) => return Err(error),
            Ok(_) => {},
        }
        let value = copy_bytes(entry.value.as_slice());
        proof {
            assert(blobs(decoded@.insert(entry.key@, value)) =~= blobs(decoded@).insert(
                entry.key@,
                value@,
            ));
        }
        decoded.insert(copy_bytes(entry.key.as_slice()), value);
        i = i + 1;
    }
    proof {
        assert(all.take(i as int) =~= all);
    }
    Ok(decoded)
}

/// Loads the state stored under an identifier.
pub fn namespace_state_for_identifier_in_database(
    nodes: &Table<Vec<u8>>,
    namespace_identifier: &[u8],
) -> (state: Result<MaterializedBranchState, FilesystemError>)
    ensures
        match state {
            Ok(state) => stored_state(blobs(nodes@), namespace_identifier@) == Some(state@),
            Err(error) => error == FilesystemError::Integrity && stored_state(
                blobs(nodes@),
                namespace_identifier@,
            ) is None,
        },
{
    let root = match namespace_root_in_database(nodes, namespace_identifier) {
        Err(error) => return Err(error),
        Ok(root) => root,
    };
    let inode_entries = match load_entries(nodes, root.inodes.as_slice()) {
        Err(error) => return Err(error),
        Ok(entries) => entries,
    };
    let inodes = match load_inodes(&inode_entries) {
        Err(error) => return Err(error),
        Ok(inodes) => inodes,
    };
    let directory_entries = match load_entries(nodes, root.directory_entries.as_slice()) {
        Err(error) => return Err(error),
        Ok(entries) => entries,
    };
    let decoded = match load_directory_entries(&directory_entries) {
        Err(error) => return Err(error),
        Ok(decoded) => decoded,
    };
    let attribute_entries = match load_entries(nodes, root.extended_attributes.as_slice()) {
        Err(error) => return Err(error),
        Ok(entries) => entries,
    };
    let attributes = match load_attributes(&attribute_entries) {
        Err(error) => return Err(error),
        Ok(attributes) => attributes,
    };
    Ok(
        MaterializedBranchState {
            inodes,
            directory_entries: decoded,
            extended_attributes: attributes,
        },
    )
}

} // verus!
