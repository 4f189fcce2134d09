//! Who may do what: which bit of a mode decides on an access, who may change attributes, and whose a
//! new node is.

use vstd::prelude::*;

use crate::changes::without_privileges;
use crate::inode::{
    change_permitted, may_access, new_ownership, permission_bits, special_kind, CreateNodeMetadata,
    InodeView, SetattrMetadata, StoredNodeKind, SETGID_MODE_BIT, SETUID_MODE_BIT,
};

verus! {

proof fn lemma_masks()
    ensures
        4i32 & 4 != 0,
        4i32 & 2 == 0,
        4i32 & 1 == 0,
        2i32 & 4 == 0,
        2i32 & 2 != 0,
        2i32 & 1 == 0,
        1i32 & 4 == 0,
        1i32 & 2 == 0,
        1i32 & 1 != 0,
{
    assert(4i32 & 4 != 0 && 4i32 & 2 == 0 && 4i32 & 1 == 0 && 2i32 & 4 == 0 && 2i32 & 2 != 0 && 2i32
        & 1 == 0 && 1i32 & 4 == 0 && 1i32 & 2 == 0 && 1i32 & 1 != 0) by (bit_vector);
}

/// Root, and whoever asks for nothing, may always access.
pub proof fn lemma_root_may_access(inode: InodeView, uid: u32, gid: u32, mask: i32)
    requires
        uid == 0 || mask == 0,
    ensures
        may_access(inode, uid, gid, mask),
{
}

/// To the owner of a file the first three bits of its mode apply: reading is allowed exactly when the
/// bit of four hundred is set, writing when that of two hundred is, executing when that of one hundred
/// is, and several at once when each is.
pub proof fn lemma_owner_access(inode: InodeView, uid: u32, gid: u32, mask: i32)
    requires
        uid != 0,
        uid == inode.uid,
    ensures
        may_access(inode, uid, gid, 4) <==> inode.mode & 0o400 != 0,
        may_access(inode, uid, gid, 2) <==> inode.mode & 0o200 != 0,
        may_access(inode, uid, gid, 1) <==> inode.mode & 0o100 != 0,
        mask != 0 ==> (may_access(inode, uid, gid, mask) <==> (mask & 4 != 0 ==> inode.mode & 0o400
            != 0) && (mask & 2 != 0 ==> inode.mode & 0o200 != 0) && (mask & 1 != 0 ==> inode.mode
            & 0o100 != 0)),
{
    let mode = inode.mode;
    lemma_masks();
    assert(((((mode >> 6u16) & 7) as i32) & 4 != 0 <==> mode & 0o400 != 0) && ((((mode >> 6u16)
        & 7) as i32) & 2 != 0 <==> mode & 0o200 != 0) && ((((mode >> 6u16) & 7) as i32) & 1 != 0
        <==> mode & 0o100 != 0)) by (bit_vector);
}

/// To others of the group of a file the next three bits of its mode apply: reading is allowed exactly
/// when the bit of forty is set, writing when that of twenty is, executing when that of ten is, and
/// several at once when each is.
pub proof fn lemma_group_access(inode: InodeView, uid: u32, gid: u32, mask: i32)
    requires
        uid != 0,
        uid != inode.uid,
        gid == inode.gid,
    ensures
        may_access(inode, uid, gid, 4) <==> inode.mode & 0o040 != 0,
        may_access(inode, uid, gid, 2) <==> inode.mode & 0o020 != 0,
        may_access(inode, uid, gid, 1) <==> inode.mode & 0o010 != 0,
        mask != 0 ==> (may_access(inode, uid, gid, mask) <==> (mask & 4 != 0 ==> inode.mode & 0o040
            != 0) && (mask & 2 != 0 ==> inode.mode & 0o020 != 0) && (mask & 1 != 0 ==> inode.mode
            & 0o010 != 0)),
{
    let mode = inode.mode;
    lemma_masks();
    assert(((((mode >> 3u16) & 7) as i32) & 4 != 0 <==> mode & 0o040 != 0) && ((((mode >> 3u16)
        & 7) as i32) & 2 != 0 <==> mode & 0o020 != 0) && ((((mode >> 3u16) & 7) as i32) & 1 != 0
        <==> mode & 0o010 != 0)) by (bit_vector);
}

/// To everybody else the last three bits of the mode of a file apply: reading is allowed exactly when
/// the bit of four is set, writing when that of two is, executing when that of one is, and several at
/// once when each is.
pub proof fn lemma_other_access(inode: InodeView, uid: u32, gid: u32, mask: i32)
    requires
        uid != 0,
        uid != inode.uid,
        gid != inode.gid,
    ensures
        may_access(inode, uid, gid, 4) <==> inode.mode & 0o004 != 0,
        may_access(inode, uid, gid, 2) <==> inode.mode & 0o002 != 0,
        may_access(inode, uid, gid, 1) <==> inode.mode & 0o001 != 0,
        mask != 0 ==> (may_access(inode, uid, gid, mask) <==> (mask & 4 != 0 ==> inode.mode & 0o004
            != 0) && (mask & 2 != 0 ==> inode.mode & 0o002 != 0) && (mask & 1 != 0 ==> inode.mode
            & 0o001 != 0)),
{
    let mode = inode.mode;
    lemma_masks();
    assert(((((mode >> 0u16) & 7) as i32) & 4 != 0 <==> mode & 0o004 != 0) && ((((mode >> 0u16)
        & 7) as i32) & 2 != 0 <==> mode & 0o002 != 0) && ((((mode >> 0u16) & 7) as i32) & 1 != 0
        <==> mode & 0o001 != 0)) by (bit_vector);
}

/// The permissions of a mode are its lowest twelve bits without those that a mask takes away.
pub proof fn lemma_permission_bits(mode: u32, umask: u32, bit: u32)
    requires
        bit < 16,
    ensures
        (permission_bits(mode, umask) as u32) & (1u32 << bit) != 0 <==> bit < 12 && mode & (1u32
            << bit) != 0 && umask & (1u32 << bit) == 0,
{
    assert((((((mode & !umask) & 0o7777) as u16) as u32) & (1u32 << bit) != 0) <==> (bit < 12
        && mode & (1u32 << bit) != 0 && umask & (1u32 << bit) == 0)) by (bit_vector)
        requires
            bit < 16,
    ;
}

/// Taking the privileges from a mode clears the bits of four thousand and of two thousand and no other.
pub proof fn lemma_privileges_cleared(mode: u16, bit: u16)
    requires
        bit < 16,
    ensures
        without_privileges(mode) & (1u16 << bit) != 0 <==> mode & (1u16 << bit) != 0 && bit != 11
            && bit != 10,
{
    assert(SETUID_MODE_BIT == 0o4000 && SETGID_MODE_BIT == 0o2000);
    assert((mode & !(0o4000u16 | 0o2000u16)) & (1u16 << bit) != 0 <==> mode & (1u16 << bit) != 0
        && bit != 11 && bit != 10) by (bit_vector)
        requires
            bit < 16,
    ;
}

/// Only root gives a file to another owner. Only root and the owner change its mode, and they only
/// change its group, the owner to no group but the own. Everything else is permitted.
pub proof fn lemma_who_may_change(inode: InodeView, metadata: SetattrMetadata)
    ensures
        metadata.request_uid == 0 ==> change_permitted(inode, metadata),
        change_permitted(inode, metadata) && metadata.uid is Some && metadata.request_uid != 0
            ==> metadata.uid->0 == inode.uid,
        change_permitted(inode, metadata) && metadata.gid is Some && metadata.request_uid != 0
            ==> metadata.gid->0 == inode.gid || (metadata.request_uid == inode.uid
            && metadata.gid->0 == metadata.request_gid),
        change_permitted(inode, metadata) && metadata.mode is Some && metadata.request_uid != 0
            && metadata.request_uid != inode.uid ==> permission_bits(metadata.mode->0, 0)
            == inode.mode,
        metadata.uid is None && metadata.gid is None && metadata.mode is None ==> change_permitted(
            inode,
            metadata,
        ),
        metadata.request_uid == inode.uid && metadata.uid is None && metadata.gid is None
            ==> change_permitted(inode, metadata),
        metadata.request_uid == inode.uid && metadata.uid is None && metadata.gid is Some
            && metadata.gid->0 == metadata.request_gid ==> change_permitted(inode, metadata),
{
}

/// A new node belongs to whoever asks for it. Its group is that of the request, or, in a directory with
/// the bit of two thousand, that of the directory; a new directory there gets that bit too. Otherwise
/// its mode is what is asked for without the mask.
pub proof fn lemma_whose_new_node(
    parent: InodeView,
    kind: StoredNodeKind,
    metadata: CreateNodeMetadata,
    bit: u16,
)
    requires
        bit < 16,
    ensures
        ({
            let (uid, gid, mode) = new_ownership(parent, kind, metadata);
            let shared = parent.mode & 0o2000 != 0;
            let asked = bit < 12 && metadata.mode & (1u32 << (bit as u32)) != 0 && metadata.umask
                & (1u32 << (bit as u32)) == 0;
            &&& uid == metadata.uid
            &&& shared ==> gid == parent.gid
            &&& !shared ==> gid == metadata.gid
            &&& mode & (1u16 << bit) != 0 <==> asked || (bit == 10 && shared && kind
                == StoredNodeKind::Directory)
        }),
{
    let bits = permission_bits(metadata.mode, metadata.umask);
    let (uid, gid, mode) = new_ownership(parent, kind, metadata);
    lemma_permission_bits(metadata.mode, metadata.umask, bit as u32);
    assert(SETGID_MODE_BIT == 0o2000);
    assert((bits as u32) & (1u32 << (bit as u32)) != 0 <==> bits & (1u16 << bit) != 0)
        by (bit_vector)
        requires
            bit < 16,
    ;
    assert((bits | 0o2000u16) & (1u16 << bit) != 0 <==> bits & (1u16 << bit) != 0 || bit == 10)
        by (bit_vector)
        requires
            bit < 16,
    ;
}

/// The format of a mode tells the kind of the node that is made: a regular file, a named pipe, a
/// character device, a block device or a socket, and nothing else.
pub proof fn lemma_format_tells_kind(mode: u32)
    ensures
        special_kind(mode) == Some(StoredNodeKind::RegularFile) <==> mode & 0o170000 == 0o100000,
        special_kind(mode) == Some(StoredNodeKind::NamedPipe) <==> mode & 0o170000 == 0o010000,
        special_kind(mode) == Some(StoredNodeKind::CharacterDevice) <==> mode & 0o170000
            == 0o020000,
        special_kind(mode) == Some(StoredNodeKind::BlockDevice) <==> mode & 0o170000 == 0o060000,
        special_kind(mode) == Some(StoredNodeKind::Socket) <==> mode & 0o170000 == 0o140000,
        special_kind(mode) != Some(StoredNodeKind::Directory),
        special_kind(mode) != Some(StoredNodeKind::Symlink),
{
}

} // verus!
