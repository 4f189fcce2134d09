//! Inodes: what is known of a file, and the rules on names, modes, owners and times.

use vstd::prelude::*;

use crate::bytes::{
    bytes_equal, contains_byte, copy_bytes, copy_optional_bytes, has_prefix, optional_view,
    starts_with,
};
use crate::error::{Errno, FuseError};
use crate::filesystem::FileIdentifier;

verus! {

/// Number of the root directory.
pub const INODE_ROOT: u64 = 1;

/// First inode number that is given out.
pub const INODE_FIRST_ALLOCATED: u64 = 2;

/// Number of inodes that there can be.
pub const INODE_LOGICAL_CAPACITY: u64 = 18446744073709551614;

/// The mode bits that are kept.
pub const INODE_MODE_PERMISSION_MASK: u32 = 0o7777;

/// Mode of the root directory.
pub const INODE_MODE_ROOT: u16 = 0o755;

/// The set-user-ID bit.
pub const SETUID_MODE_BIT: u16 = 0o4000;

/// The set-group-ID bit.
pub const SETGID_MODE_BIT: u16 = 0o2000;

/// The bits of a mode that give the kind of file.
pub const S_IFMT: u32 = 0o170000;

/// Mode of a named pipe.
pub const S_IFIFO: u32 = 0o010000;

/// Mode of a character device.
pub const S_IFCHR: u32 = 0o020000;

/// Mode of a block device.
pub const S_IFBLK: u32 = 0o060000;

/// Mode of a regular file.
pub const S_IFREG: u32 = 0o100000;

/// Mode of a socket.
pub const S_IFSOCK: u32 = 0o140000;

/// Asks for read access.
pub const R_OK: i32 = 4;

/// Asks for write access.
pub const W_OK: i32 = 2;

/// Asks for execute access.
pub const X_OK: i32 = 1;

/// Block size that is reported.
pub const FUSE_STATFS_BLOCK_SIZE: u32 = 4096;

/// Longest name.
pub const FUSE_MAX_NAME_LENGTH: usize = 255;

/// Longest extended attribute name.
pub const XATTR_NAME_MAX_BYTES: usize = 255;

/// Longest extended attribute value.
pub const XATTR_VALUE_MAX_BYTES: usize = 65536;

/// Longest list of extended attribute names.
pub const XATTR_LIST_MAX_BYTES: usize = 65536;

/// Kind of a file.
#[derive(Clone, Copy, Debug, PartialEq, Eq, Structural)]
pub enum StoredNodeKind {
    /// Named pipe.
    NamedPipe,
    /// Character device.
    CharacterDevice,
    /// Block device.
    BlockDevice,
    /// Directory.
    Directory,
    /// Regular file.
    RegularFile,
    /// Symbolic link.
    Symlink,
    /// Socket.
    Socket,
}

/// A point in time: seconds since 1970, and nanoseconds.
#[derive(Clone, Copy, Debug, PartialEq, Eq, Structural)]
pub struct StoredTime {
    /// Seconds since 1970, negative before.
    pub seconds: i64,
    /// Nanoseconds.
    pub nanoseconds: u32,
}

/// The seconds that are stored for a distance from the start of 1970: as many as fit, negative
/// before.
pub open spec fn signed_seconds(before: bool, seconds: u64) -> int {
    let bounded = if seconds <= i64::MAX { seconds as int } else { i64::MAX as int };
    if before {
        -bounded
    } else {
        bounded
    }
}

/// The distance in seconds from the start of 1970.
pub open spec fn seconds_away(seconds: i64) -> int {
    if seconds < 0 {
        -seconds
    } else {
        seconds as int
    }
}

impl StoredTime {
    /// Stores the distance of a point in time from the start of 1970, before or after it.
    pub fn from_epoch_distance(before: bool, seconds: u64, nanoseconds: u32) -> (time: Self)
        ensures
            time.nanoseconds == nanoseconds,
            time.seconds == signed_seconds(before, seconds),
    {
        let bounded: i64 = if seconds <= i64::MAX as u64 {
            seconds as i64
        } else {
            i64::MAX
        };
        if before {
            StoredTime { seconds: -bounded, nanoseconds }
        } else {
            StoredTime { seconds: bounded, nanoseconds }
        }
    }

    /// Returns the distance of a stored time from the start of 1970: whether it lies before, the
    /// seconds and the nanoseconds.
    pub fn epoch_distance(self) -> (distance: (bool, u64, u32))
        ensures
            distance.0 == (self.seconds < 0),
            distance.1 == seconds_away(self.seconds),
            distance.2 == self.nanoseconds,
    {
        if self.seconds >= 0 {
            (false, self.seconds as u64, self.nanoseconds)
        } else if self.seconds == i64::MIN {
            (true, 9223372036854775808, self.nanoseconds)
        } else {
            (true, (-self.seconds) as u64, self.nanoseconds)
        }
    }
}

/// What is known of a file.
#[derive(Debug, PartialEq, Eq)]
pub struct StoredInode {
    /// Kind of file.
    pub kind: StoredNodeKind,
    /// Size in bytes.
    pub size: u64,
    /// Number of links.
    pub nlink: u32,
    /// Owner.
    pub uid: u32,
    /// Group.
    pub gid: u32,
    /// Permission bits.
    pub mode: u16,
    /// Device number.
    pub rdev: u32,
    /// Time of last access.
    pub atime: StoredTime,
    /// Time of last content change.
    pub mtime: StoredTime,
    /// Time of last change.
    pub ctime: StoredTime,
    /// The directory that holds the file.
    pub parent: u64,
    /// Name in that directory.
    pub name: Vec<u8>,
    /// Target of a symbolic link.
    pub symlink_target: Option<Vec<u8>>,
    /// Manifest of the contents of a regular file.
    pub content_manifest_identifier: Option<Vec<u8>>,
}

/// The value of an inode.
pub ghost struct InodeView {
    pub kind: StoredNodeKind,
    pub size: u64,
    pub nlink: u32,
    pub uid: u32,
    pub gid: u32,
    pub mode: u16,
    pub rdev: u32,
    pub atime: StoredTime,
    pub mtime: StoredTime,
    pub ctime: StoredTime,
    pub parent: u64,
    pub name: Seq<u8>,
    pub symlink_target: Option<Seq<u8>>,
    pub content_manifest_identifier: Option<Seq<u8>>,
}

impl View for StoredInode {
    type V = InodeView;

    open spec fn view(&self) -> InodeView {
        InodeView {
            kind: self.kind,
            size: self.size,
            nlink: self.nlink,
            uid: self.uid,
            gid: self.gid,
            mode: self.mode,
            rdev: self.rdev,
            atime: self.atime,
            mtime: self.mtime,
            ctime: self.ctime,
            parent: self.parent,
            name: self.name@,
            symlink_target: optional_view(self.symlink_target),
            content_manifest_identifier: optional_view(self.content_manifest_identifier),
        }
    }
}

impl Clone for StoredInode {
    fn clone(&self) -> (inode: Self)
        ensures
            inode@ == self@,
    {
        StoredInode {
            kind: self.kind,
            size: self.size,
            nlink: self.nlink,
            uid: self.uid,
            gid: self.gid,
            mode: self.mode,
            rdev: self.rdev,
            atime: self.atime,
            mtime: self.mtime,
            ctime: self.ctime,
            parent: self.parent,
            name: copy_bytes(self.name.as_slice()),
            symlink_target: copy_optional_bytes(&self.symlink_target),
            content_manifest_identifier: copy_optional_bytes(&self.content_manifest_identifier),
        }
    }
}

impl InodeView {
    /// The inode after a change of a directory's entries.
    pub open spec fn touched(self, timestamp: StoredTime) -> InodeView {
        InodeView { mtime: timestamp, ctime: timestamp, ..self }
    }

    /// The directory after an entry was removed from it: one link fewer for a removed directory.
    pub open spec fn after_removal(self, removed: InodeView, timestamp: StoredTime) -> InodeView {
        InodeView {
            nlink: if removed.kind == StoredNodeKind::Directory && self.nlink > 0 {
                (self.nlink - 1) as u32
            } else {
                self.nlink
            },
            ..self
        }.touched(timestamp)
    }
}

/// What a directory entry points to.
#[derive(Clone, Copy, Debug, PartialEq, Eq, Structural)]
pub struct StoredDirectoryEntry {
    /// The inode.
    pub inode: u64,
    /// Kind of file.
    pub kind: StoredNodeKind,
}

/// Sets the times of a directory whose entries changed.
pub fn touch_loaded_directory(inode: &mut StoredInode, timestamp: StoredTime)
    ensures
        final(inode)@ == old(inode)@.touched(timestamp),
{
    inode.mtime = timestamp;
    inode.ctime = timestamp;
}

/// Updates a directory from which an entry was removed.
pub fn update_parent_after_entry_removal(
    removed_inode: &StoredInode,
    parent_inode: &mut StoredInode,
    timestamp: StoredTime,
)
    ensures
        final(parent_inode)@ == old(parent_inode)@.after_removal(removed_inode@, timestamp),
{
    if removed_inode.kind == StoredNodeKind::Directory && parent_inode.nlink > 0 {
        parent_inode.nlink = parent_inode.nlink - 1;
    }
    touch_loaded_directory(parent_inode, timestamp);
}

/// The attributes of a file as they are reported.
#[derive(Clone, Copy, Debug, PartialEq, Eq, Structural)]
pub struct FileAttr {
    /// Inode number.
    pub ino: u64,
    /// Size in bytes.
    pub size: u64,
    /// Size in blocks of 512 bytes, rounded up.
    pub blocks: u64,
    /// Time of last access.
    pub atime: StoredTime,
    /// Time of last content change.
    pub mtime: StoredTime,
    /// Time of last change.
    pub ctime: StoredTime,
    /// Kind of file.
    pub kind: StoredNodeKind,
    /// Permission bits.
    pub perm: u16,
    /// Number of links.
    pub nlink: u32,
    /// Owner.
    pub uid: u32,
    /// Group.
    pub gid: u32,
    /// Device number.
    pub rdev: u32,
    /// Block size.
    pub blksize: u32,
    /// Flags.
    pub flags: u32,
}

/// The attributes of an inode.
pub open spec fn attributes_of(inode_number: u64, inode: InodeView) -> FileAttr {
    FileAttr {
        ino: inode_number,
        size: inode.size,
        blocks: ((inode.size + 511) / 512) as u64,
        atime: inode.atime,
        mtime: inode.mtime,
        ctime: inode.ctime,
        kind: inode.kind,
        perm: inode.mode,
        nlink: inode.nlink,
        uid: inode.uid,
        gid: inode.gid,
        rdev: inode.rdev,
        blksize: FUSE_STATFS_BLOCK_SIZE,
        flags: 0,
    }
}

/// Returns the attributes of an inode.
pub fn inode_attr(inode_number: u64, inode: &StoredInode) -> (attr: FileAttr)
    ensures
        attr == attributes_of(inode_number, inode@),
{
    let blocks: u64 = if inode.size % 512 == 0 {
        inode.size / 512
    } else {
        inode.size / 512 + 1
    };
    FileAttr {
        ino: inode_number,
        size: inode.size,
        blocks,
        atime: inode.atime,
        mtime: inode.mtime,
        ctime: inode.ctime,
        kind: inode.kind,
        perm: inode.mode,
        nlink: inode.nlink,
        uid: inode.uid,
        gid: inode.gid,
        rdev: inode.rdev,
        blksize: FUSE_STATFS_BLOCK_SIZE,
        flags: 0,
    }
}

/// The permission bits of a mode without those of a mask.
pub open spec fn permission_bits(mode: u32, umask: u32) -> u16 {
    ((mode & !umask) & INODE_MODE_PERMISSION_MASK) as u16
}

/// Returns the permission bits of a mode without those of a mask.
pub fn permission_mode(mode: u32, umask: u32) -> (bits: u16)
    ensures
        bits == permission_bits(mode, umask),
        bits <= INODE_MODE_PERMISSION_MASK,
{
    assert((mode & !umask) & 0o7777 <= 0o7777) by (bit_vector);
    ((mode & !umask) & INODE_MODE_PERMISSION_MASK) as u16
}

/// What is asked for a new node.
#[derive(Clone, Copy, Debug, PartialEq, Eq, Structural)]
pub struct CreateNodeMetadata {
    /// Owner.
    pub uid: u32,
    /// Group.
    pub gid: u32,
    /// Mode.
    pub mode: u32,
    /// Mode bits to leave out.
    pub umask: u32,
}

/// Kind of a new node.
#[derive(Clone, Copy, Debug, PartialEq, Eq, Structural)]
pub enum CreateNodeKind {
    /// Directory.
    Directory,
    /// Regular file.
    RegularFile,
    /// What the mode says.
    Special {
        /// The mode.
        mode: u32,
        /// Device number.
        rdev: u32,
    },
}

/// A directory hands its group on.
pub open spec fn hands_group_on(parent: InodeView) -> bool {
    parent.mode & SETGID_MODE_BIT != 0
}

/// Owner, group and mode of a new node: the group of a directory that hands it on, and with it, to a
/// directory, the bit that does so.
pub open spec fn new_ownership(
    parent: InodeView,
    kind: StoredNodeKind,
    metadata: CreateNodeMetadata,
) -> (u32, u32, u16) {
    let bits = permission_bits(metadata.mode, metadata.umask);
    (
        metadata.uid,
        if hands_group_on(parent) {
            parent.gid
        } else {
            metadata.gid
        },
        if kind == StoredNodeKind::Directory && hands_group_on(parent) {
            bits | SETGID_MODE_BIT
        } else {
            bits
        },
    )
}

/// Returns owner, group and mode of a new node.
pub fn created_inode_metadata(
    parent: &StoredInode,
    kind: StoredNodeKind,
    metadata: CreateNodeMetadata,
) -> (ownership: (u32, u32, u16))
    ensures
        ownership == new_ownership(parent@, kind, metadata),
{
    let parent_setgid = parent.mode & SETGID_MODE_BIT != 0;
    let gid: u32 = if parent_setgid {
        parent.gid
    } else {
        metadata.gid
    };
    let bits: u16 = permission_mode(metadata.mode, metadata.umask);
    let mode: u16 = if kind == StoredNodeKind::Directory && parent_setgid {
        bits | SETGID_MODE_BIT
    } else {
        bits
    };
    (metadata.uid, gid, mode)
}

/// A requested change of attributes.
#[derive(Clone, Copy, Debug, PartialEq, Eq, Structural)]
pub struct SetattrMetadata {
    /// User that asks.
    pub request_uid: u32,
    /// Group that asks.
    pub request_gid: u32,
    /// New mode.
    pub mode: Option<u32>,
    /// New owner.
    pub uid: Option<u32>,
    /// New group.
    pub gid: Option<u32>,
    /// New size.
    pub size: Option<u64>,
    /// New time of last access.
    pub atime: Option<StoredTime>,
    /// New time of last content change.
    pub mtime: Option<StoredTime>,
}

/// A change of attributes is permitted: only root changes the owner; only root, or the owner to its
/// own group, changes the group; only root or the owner changes the mode.
pub open spec fn change_permitted(inode: InodeView, metadata: SetattrMetadata) -> bool {
    let root = metadata.request_uid == 0;
    let owner = metadata.request_uid == inode.uid;
    &&& metadata.uid is Some && metadata.uid->0 != inode.uid ==> root
    &&& metadata.gid is Some && metadata.gid->0 != inode.gid ==> root || (owner && metadata.gid->0
        == metadata.request_gid)
    &&& metadata.mode is Some && permission_bits(metadata.mode->0, 0) != inode.mode ==> root
        || owner
}

/// Checks that a change of attributes is permitted.
pub fn validate_metadata_change(inode: &StoredInode, metadata: SetattrMetadata) -> (result: Result<
    (),
    FuseError,
>)
    ensures
        result == (if change_permitted(inode@, metadata) {
            Ok::<(), FuseError>(())
        } else {
            Err::<(), FuseError>(FuseError::Errno(Errno::EPERM))
        }),
{
    let owner = metadata.request_uid == inode.uid;
    let root = metadata.request_uid == 0;
    match metadata.uid {
        Some(uid) => {
            if uid != inode.uid && !root {
                return Err(FuseError::Errno(Errno::EPERM));
            }
        },
        None => {},
    }
    match metadata.gid {
        Some(gid) => {
            if gid != inode.gid && !root && !(owner && gid == metadata.request_gid) {
                return Err(FuseError::Errno(Errno::EPERM));
            }
        },
        None => {},
    }
    match metadata.mode {
        Some(mode) => {
            if permission_mode(mode, 0) != inode.mode && !root && !owner {
                return Err(FuseError::Errno(Errno::EPERM));
            }
        },
        None => {},
    }
    Ok(())
}

/// The permission bits that hold for a user and a group: those of the owner, the group or others.
pub open spec fn granted(inode: InodeView, request_uid: u32, request_gid: u32) -> i32 {
    let shift = if request_uid == inode.uid {
        6u16
    } else if request_gid == inode.gid {
        3u16
    } else {
        0u16
    };
    ((inode.mode >> shift) & 7) as i32
}

/// Access is allowed: nothing is asked, root asks, or each bit that is asked for is granted.
pub open spec fn may_access(
    inode: InodeView,
    request_uid: u32,
    request_gid: u32,
    mask: i32,
) -> bool {
    let permissions = granted(inode, request_uid, request_gid);
    ||| mask == 0
    ||| request_uid == 0
    ||| {
        &&& mask & R_OK != 0 ==> permissions & R_OK != 0
        &&& mask & W_OK != 0 ==> permissions & W_OK != 0
        &&& mask & X_OK != 0 ==> permissions & X_OK != 0
    }
}

/// Tells whether access is allowed.
pub fn access_allowed(
    inode: &StoredInode,
    request_uid: u32,
    request_gid: u32,
    mask: i32,
) -> (allowed: bool)
    ensures
        allowed == may_access(inode@, request_uid, request_gid, mask),
{
    if mask == 0 || request_uid == 0 {
        return true;
    }
    let shift: u16 = if request_uid == inode.uid {
        6
    } else if request_gid == inode.gid {
        3
    } else {
        0
    };
    let permissions: i32 = ((inode.mode >> shift) & 7) as i32;
    if mask & R_OK != 0 && permissions & R_OK == 0 {
        return false;
    }
    if mask & W_OK != 0 && permissions & W_OK == 0 {
        return false;
    }
    if mask & X_OK != 0 && permissions & X_OK == 0 {
        return false;
    }
    true
}

/// The kind of file that a mode gives, if it can be made.
pub open spec fn special_kind(mode: u32) -> Option<StoredNodeKind> {
    let format = mode & S_IFMT;
    if format == S_IFREG {
        Some(StoredNodeKind::RegularFile)
    } else if format == S_IFIFO {
        Some(StoredNodeKind::NamedPipe)
    } else if format == S_IFCHR {
        Some(StoredNodeKind::CharacterDevice)
    } else if format == S_IFBLK {
        Some(StoredNodeKind::BlockDevice)
    } else if format == S_IFSOCK {
        Some(StoredNodeKind::Socket)
    } else {
        None
    }
}

/// Returns the kind of file that a mode gives.
pub fn special_kind_from_mode(mode: u32) -> (kind: Result<StoredNodeKind, FuseError>)
    ensures
        kind == (match special_kind(mode) {
            Some(kind) => Ok::<StoredNodeKind, FuseError>(kind),
            None => Err::<StoredNodeKind, FuseError>(FuseError::Errno(Errno::EINVAL)),
        }),
{
    let format: u32 = mode & S_IFMT;
    if format == S_IFREG {
        Ok(StoredNodeKind::RegularFile)
    } else if format == S_IFIFO {
        Ok(StoredNodeKind::NamedPipe)
    } else if format == S_IFCHR {
        Ok(StoredNodeKind::CharacterDevice)
    } else if format == S_IFBLK {
        Ok(StoredNodeKind::BlockDevice)
    } else if format == S_IFSOCK {
        Ok(StoredNodeKind::Socket)
    } else {
        Err(FuseError::Errno(Errno::EINVAL))
    }
}

/// The file identifier of an inode: regular files have one.
pub open spec fn file_identifier_of(inode_number: u64, kind: StoredNodeKind) -> Option<
    FileIdentifier,
> {
    if kind == StoredNodeKind::RegularFile {
        Some(FileIdentifier(inode_number))
    } else {
        None
    }
}

/// Returns the file identifier of an inode.
pub fn file_identifier_for_kind(inode_number: u64, kind: StoredNodeKind) -> (identifier: Option<
    FileIdentifier,
>)
    ensures
        identifier == file_identifier_of(inode_number, kind),
{
    if kind == StoredNodeKind::RegularFile {
        Some(FileIdentifier::new(inode_number))
    } else {
        None
    }
}

/// Calls `String::from_utf8` of the standard library. Claimed: bytes that are valid UTF-8 become the
/// text that they encode, others are rejected.
#[verifier::external_body]
pub(crate) fn text_from_bytes(bytes: Vec<u8>) -> (text: Option<String>)
    ensures
        text is Some == vstd::utf8::valid_utf8(bytes@),
        text is Some ==> text->0@ == vstd::utf8::decode_utf8(bytes@),
{
    String::from_utf8(bytes).ok()
}

/// The error of a name, if it has one: it must not be empty or too long, be a dot name, hold a slash
/// or be other than UTF-8.
pub open spec fn name_error(name: Seq<u8>) -> Option<FuseError> {
    if name.len() == 0 {
        Some(FuseError::Errno(Errno::ENOENT))
    } else if name.len() > FUSE_MAX_NAME_LENGTH {
        Some(FuseError::Errno(Errno::ENAMETOOLONG))
    } else if name == seq![46u8] || name == seq![46u8, 46u8] || name.contains(47)
        || !vstd::utf8::valid_utf8(name) {
        Some(FuseError::Errno(Errno::EINVAL))
    } else {
        None
    }
}

/// What checking bytes gives: a copy, or their error.
pub open spec fn checked_copy(
    result: Result<Vec<u8>, FuseError>,
    bytes: Seq<u8>,
    error: Option<FuseError>,
) -> bool {
    match result {
        Ok(copy) => error is None && copy@ == bytes,
        Err(found) => error == Some(found),
    }
}

/// Checks a name and copies it.
pub fn validate_name(name: &[u8]) -> (result: Result<Vec<u8>, FuseError>)
    ensures
        checked_copy(result, name@, name_error(name@)),
{
    if name.len() == 0 {
        return Err(FuseError::Errno(Errno::ENOENT));
    }
    if name.len() > FUSE_MAX_NAME_LENGTH {
        return Err(FuseError::Errno(Errno::ENAMETOOLONG));
    }
    let dot: Vec<u8> = vec![46];
    let dots: Vec<u8> = vec![46, 46];
    proof {
        assert(dot@ =~= seq![46u8]);
        assert(dots@ =~= seq![46u8, 46u8]);
    }
    if bytes_equal(name, dot.as_slice()) || bytes_equal(name, dots.as_slice()) || contains_byte(
        name,
        47,
    ) {
        return Err(FuseError::Errno(Errno::EINVAL));
    }
    if text_from_bytes(copy_bytes(name)).is_none() {
        return Err(FuseError::Errno(Errno::EINVAL));
    }
    Ok(copy_bytes(name))
}

/// What extended attribute names start with.
pub open spec fn user_prefix() -> Seq<u8> {
    seq![117u8, 115, 101, 114, 46]
}

/// The error of an extended attribute name, if it has one: it must not be empty, too long, hold a
/// zero, be other than UTF-8 or lie outside the user names.
pub open spec fn attribute_name_error(name: Seq<u8>) -> Option<FuseError> {
    if name.len() == 0 {
        Some(FuseError::Errno(Errno::EINVAL))
    } else if name.len() > XATTR_NAME_MAX_BYTES {
        Some(FuseError::Errno(Errno::ERANGE))
    } else if name.contains(0) {
        Some(FuseError::Errno(Errno::EINVAL))
    } else if !vstd::utf8::valid_utf8(name) || !has_prefix(name, user_prefix()) {
        Some(FuseError::Errno(Errno::ENOTSUP))
    } else {
        None
    }
}

/// Checks an extended attribute name and copies it.
pub fn validate_extended_attribute_name(name: &[u8]) -> (result: Result<Vec<u8>, FuseError>)
    ensures
        checked_copy(result, name@, attribute_name_error(name@)),
{
    if name.len() == 0 {
        return Err(FuseError::Errno(Errno::EINVAL));
    }
    if name.len() > XATTR_NAME_MAX_BYTES {
        return Err(FuseError::Errno(Errno::ERANGE));
    }
    if contains_byte(name, 0) {
        return Err(FuseError::Errno(Errno::EINVAL));
    }
    let prefix: Vec<u8> = vec![117, 115, 101, 114, 46];
    proof {
        assert(prefix@ =~= user_prefix());
    }
    if text_from_bytes(copy_bytes(name)).is_none() || !starts_with(name, prefix.as_slice()) {
        return Err(FuseError::Errno(Errno::ENOTSUP));
    }
    Ok(copy_bytes(name))
}

/// A kind of file can have extended attributes.
pub open spec fn has_attributes(kind: StoredNodeKind) -> bool {
    kind == StoredNodeKind::Directory || kind == StoredNodeKind::RegularFile
}

/// Checks that an inode can have extended attributes.
pub fn validate_extended_attribute_inode(inode: &StoredInode) -> (result: Result<(), FuseError>)
    ensures
        result == (if has_attributes(inode.kind) {
            Ok::<(), FuseError>(())
        } else {
            Err::<(), FuseError>(FuseError::Errno(Errno::ENOTSUP))
        }),
{
    match inode.kind {
        StoredNodeKind::Directory => Ok(()),
        StoredNodeKind::RegularFile => Ok(()),
        _ => Err(FuseError::Errno(Errno::ENOTSUP)),
    }
}

/// Checks that an extended attribute value is not too long.
pub fn validate_extended_attribute_value(value: &[u8]) -> (result: Result<(), FuseError>)
    ensures
        result == (if value@.len() <= XATTR_VALUE_MAX_BYTES {
            Ok::<(), FuseError>(())
        } else {
            Err::<(), FuseError>(FuseError::Errno(Errno::ERANGE))
        }),
{
    if value.len() > XATTR_VALUE_MAX_BYTES {
        return Err(FuseError::Errno(Errno::ERANGE));
    }
    Ok(())
}

/// Statistics of the filesystem that holds the database.
#[derive(Clone, Copy, Debug, PartialEq, Eq, Structural)]
pub struct BackingFileSystemStatistics {
    /// Blocks.
    pub blocks: u64,
    /// Free blocks.
    pub free_blocks: u64,
    /// Blocks that users can have.
    pub available_blocks: u64,
    /// Fragment size.
    pub fragment_size: u32,
}

/// Statistics that are reported.
#[derive(Clone, Copy, Debug, PartialEq, Eq, Structural)]
pub struct FileSystemStatistics {
    /// Blocks.
    pub blocks: u64,
    /// Free blocks.
    pub free_blocks: u64,
    /// Blocks that users can have.
    pub available_blocks: u64,
    /// Inodes.
    pub files: u64,
    /// Free inodes.
    pub free_files: u64,
    /// Block size.
    pub block_size: u32,
    /// Longest name.
    pub maximum_name_length: u32,
    /// Fragment size.
    pub fragment_size: u32,
}

/// The statistics to report: the blocks of the backing filesystem, and as many free inodes as there
/// are numbers left.
pub open spec fn reported_statistics(
    backing: BackingFileSystemStatistics,
    next_inode_number: u64,
) -> Result<FileSystemStatistics, FuseError> {
    if next_inode_number < INODE_FIRST_ALLOCATED {
        Err(FuseError::Integrity)
    } else {
        Ok(
            FileSystemStatistics {
                blocks: backing.blocks,
                free_blocks: backing.free_blocks,
                available_blocks: backing.available_blocks,
                files: INODE_LOGICAL_CAPACITY,
                free_files: (u64::MAX - next_inode_number) as u64,
                block_size: FUSE_STATFS_BLOCK_SIZE,
                maximum_name_length: 255,
                fragment_size: backing.fragment_size,
            },
        )
    }
}

/// Returns the statistics to report.
pub fn statistics_from_backing(
    backing: BackingFileSystemStatistics,
    next_inode_number: u64,
) -> (statistics: Result<FileSystemStatistics, FuseError>)
    ensures
        statistics == reported_statistics(backing, next_inode_number),
{
    if next_inode_number < INODE_FIRST_ALLOCATED {
        return Err(FuseError::Integrity);
    }
    Ok(
        FileSystemStatistics {
            blocks: backing.blocks,
            free_blocks: backing.free_blocks,
            available_blocks: backing.available_blocks,
            files: INODE_LOGICAL_CAPACITY,
            free_files: u64::MAX - next_inode_number,
            block_size: FUSE_STATFS_BLOCK_SIZE,
            maximum_name_length: FUSE_MAX_NAME_LENGTH as u32,
            fragment_size: backing.fragment_size,
        },
    )
}

/// Returns the inode number after one.
pub fn next_inode_number_after(inode_number: u64) -> (next: Result<u64, FuseError>)
    ensures
        next == (if inode_number < u64::MAX {
            Ok::<u64, FuseError>((inode_number + 1) as u64)
        } else {
            Err::<u64, FuseError>(FuseError::Errno(Errno::ENOSPC))
        }),
{
    match inode_number.checked_add(1) {
        Some(next) => Ok(next),
        None => Err(FuseError::Errno(Errno::ENOSPC)),
    }
}

/// A stored time gives back the distance that it was made from, unless the seconds do not fit or a
/// part of a second before 1970 loses its sign.
pub proof fn lemma_time_round_trip(before: bool, seconds: u64)
    requires
        seconds <= i64::MAX,
        before ==> seconds > 0,
    ensures
        (signed_seconds(before, seconds) < 0) == before,
        seconds_away(signed_seconds(before, seconds) as i64) == seconds,
{
}

} // verus!
