//! Advisory byte-range locks, and what the flags and sizes of requests ask for.

use vstd::prelude::*;

use crate::error::{Errno, FuseError};

verus! {

/// A shared lock.
pub const F_RDLCK: i32 = 0;

/// An exclusive lock.
pub const F_WRLCK: i32 = 1;

/// The removal of a lock.
pub const F_UNLCK: i32 = 2;

/// A lock of one owner on an inclusive byte range of one inode.
#[derive(Clone, Copy, Debug, PartialEq, Eq, Structural)]
pub struct FileLock {
    /// The inode.
    pub inode: u64,
    /// The owner.
    pub owner: u64,
    /// First byte of the range.
    pub start: u64,
    /// Last byte of the range.
    pub end: u64,
    /// Kind of lock.
    pub typ: i32,
    /// Process of the owner.
    pub pid: u32,
}

/// The locks that are held.
#[derive(Debug, PartialEq, Eq)]
pub struct LockTable {
    /// The locks, oldest first.
    pub locks: Vec<FileLock>,
}

/// Two ranges have a byte in common.
pub open spec fn ranges_overlap(left: FileLock, right: FileLock) -> bool {
    left.start <= right.end && right.start <= left.end
}

/// Tells whether the ranges of two locks have a byte in common.
pub fn lock_ranges_overlap(left: FileLock, right: FileLock) -> (overlap: bool)
    ensures
        overlap == ranges_overlap(left, right),
{
    left.start <= right.end && right.start <= left.end
}

/// A held lock keeps a requested one from being granted.
pub open spec fn conflicts(existing: FileLock, requested: FileLock) -> bool {
    &&& existing.inode == requested.inode
    &&& existing.owner != requested.owner
    &&& ranges_overlap(existing, requested)
    &&& (existing.typ == F_WRLCK || requested.typ == F_WRLCK)
}

/// `lock` is the oldest of `locks` that conflicts with a request.
pub open spec fn first_conflict(
    locks: Seq<FileLock>,
    requested: FileLock,
    lock: Option<FileLock>,
) -> bool {
    match lock {
        None => forall|i: int| 0 <= i < locks.len() ==> !conflicts(#[trigger] locks[i], requested),
        Some(found) => exists|i: int|
            0 <= i < locks.len() && #[trigger] locks[i] == found && conflicts(found, requested)
                && forall|j: int| 0 <= j < i ==> !conflicts(#[trigger] locks[j], requested),
    }
}

/// What is left of a lock when its owner gives up a range of an inode: all of it where it lies
/// elsewhere, else the parts before and after the range.
pub open spec fn without_range(
    lock: FileLock,
    inode: u64,
    owner: u64,
    start: u64,
    end: u64,
) -> Seq<FileLock> {
    if lock.inode != inode || lock.owner != owner || lock.start > end || start > lock.end {
        seq![lock]
    } else {
        let before = if lock.start < start {
            seq![FileLock { end: (start - 1) as u64, ..lock }]
        } else {
            seq![]
        };
        let after = if lock.end > end {
            seq![FileLock { start: (end + 1) as u64, ..lock }]
        } else {
            seq![]
        };
        before + after
    }
}

/// What is left of all locks when an owner gives up a range of an inode.
pub open spec fn all_without_range(
    locks: Seq<FileLock>,
    inode: u64,
    owner: u64,
    start: u64,
    end: u64,
) -> Seq<FileLock>
    decreases locks.len(),
{
    if locks.len() == 0 {
        seq![]
    } else {
        all_without_range(locks.drop_last(), inode, owner, start, end) + without_range(
            locks.last(),
            inode,
            owner,
            start,
            end,
        )
    }
}

/// The locks after a request was granted.
pub open spec fn after_request(locks: Seq<FileLock>, requested: FileLock) -> Seq<FileLock> {
    let rest = all_without_range(
        locks,
        requested.inode,
        requested.owner,
        requested.start,
        requested.end,
    );
    if requested.typ == F_UNLCK {
        rest
    } else {
        rest.push(requested)
    }
}

/// The locks of everybody but an owner, in order.
pub open spec fn without_owner(locks: Seq<FileLock>, owner: u64) -> Seq<FileLock> {
    locks.filter(|lock: FileLock| lock.owner != owner)
}

/// Some lock of this kind held by an owner covers a byte of an inode.
pub open spec fn covers(
    locks: Seq<FileLock>,
    inode: u64,
    owner: u64,
    typ: i32,
    byte: u64,
) -> bool {
    exists|i: int|
        0 <= i < locks.len() && (#[trigger] locks[i]).inode == inode && locks[i].owner == owner
            && locks[i].typ == typ && locks[i].start <= byte <= locks[i].end
}

impl LockTable {
    /// Creates a table without locks.
    pub fn new() -> (table: Self)
        ensures
            table.locks@.len() == 0,
    {
        LockTable { locks: Vec::new() }
    }

    /// Finds the oldest held lock that conflicts with a request: another owner's, on the same inode,
    /// with a byte in common, one of the two exclusive.
    pub fn conflicting_lock(&self, requested: FileLock) -> (lock: Option<FileLock>)
        ensures
            first_conflict(self.locks@, requested, lock),
    {
        let mut i: usize = 0;
        while i < self.locks.len()
            invariant
                i <= self.locks.len(),
                forall|j: int| 0 <= j < i ==> !conflicts(#[trigger] self.locks@[j], requested),
            decreases self.locks.len() - i,
        {
            let existing = self.locks[i];
            if existing.inode == requested.inode && existing.owner != requested.owner
                && lock_ranges_overlap(existing, requested) && (existing.typ == F_WRLCK
                || requested.typ == F_WRLCK) {
                proof {
                    assert(self.locks@[i as int] == existing);
                }
                return Some(existing);
            }
            i = i + 1;
        }
        None
    }

    /// Grants a request: the owner's own locks give way in its range, then it is added unless it is
    /// an unlock.
    pub fn set_lock(&mut self, requested: FileLock)
        ensures
            final(self).locks@ == after_request(old(self).locks@, requested),
    {
        self.remove_owner_range(requested.inode, requested.owner, requested.start, requested.end);
        if requested.typ != F_UNLCK {
            self.locks.push(requested);
        }
    }

    /// Drops every lock of an owner.
    pub fn clear_owner(&mut self, owner: u64)
        ensures
            final(self).locks@ == without_owner(old(self).locks@, owner),
            final(self).locks@ == old(self).locks@.filter(|lock: FileLock| lock.owner != owner),
    {
        let ghost keep = |lock: FileLock| lock.owner != owner;
        let mut retained: Vec<FileLock> = Vec::new();
        let mut i: usize = 0;
        while i < self.locks.len()
            invariant
                i <= self.locks.len(),
                self.locks == old(self).locks,
                keep == (|lock: FileLock| lock.owner != owner),
                retained@ == self.locks@.take(i as int).filter(keep),
            decreases self.locks.len() - i,
        {
            let lock = self.locks[i];
            proof {
                reveal(Seq::filter);
                assert(self.locks@.take(i + 1).drop_last() =~= self.locks@.take(i as int));
            }
            if lock.owner != owner {
                retained.push(lock);
            }
            i = i + 1;
        }
        proof {
            assert(self.locks@.take(i as int) =~= self.locks@);
        }
        self.locks = retained;
    }

    /// Takes a range of an inode away from an owner's locks.
    pub fn remove_owner_range(&mut self, inode: u64, owner: u64, start: u64, end: u64)
        ensures
            final(self).locks@ == all_without_range(old(self).locks@, inode, owner, start, end),
    {
        let mut retained: Vec<FileLock> = Vec::with_capacity(self.locks.len());
        let mut i: usize = 0;
        proof {
            assert(self.locks@.take(0) =~= Seq::<FileLock>::empty());
        }
        while i < self.locks.len()
            invariant
                i <= self.locks.len(),
                self.locks == old(self).locks,
                retained@ == all_without_range(
                    self.locks@.take(i as int),
                    inode,
                    owner,
                    start,
                    end,
                ),
            decreases self.locks.len() - i,
        {
            let lock = self.locks[i];
            let ghost before = retained@;
            proof {
                assert(self.locks@.take(i + 1).drop_last() =~= self.locks@.take(i as int));
                assert(self.locks@.take(i + 1).last() == lock);
            }
            let range = FileLock { inode, owner, start, end, typ: lock.typ, pid: lock.pid };
            if lock.inode != inode || lock.owner != owner || !lock_ranges_overlap(lock, range) {
                retained.push(lock);
            } else {
                if lock.start < start {
                    retained.push(
                        FileLock {
                            inode: lock.inode,
                            owner: lock.owner,
                            start: lock.start,
                            end: start - 1,
                            typ: lock.typ,
                            pid: lock.pid,
                        },
                    );
                }
                if lock.end > end {
                    retained.push(
                        FileLock {
                            inode: lock.inode,
                            owner: lock.owner,
                            start: end + 1,
                            end: lock.end,
                            typ: lock.typ,
                            pid: lock.pid,
                        },
                    );
                }
            }
            proof {
                assert(retained@ =~= before + without_range(lock, inode, owner, start, end));
            }
            i = i + 1;
        }
        proof {
            assert(self.locks@.take(i as int) =~= self.locks@);
        }
        self.locks = retained;
    }
}

/// Answer to a lock request.
#[derive(Clone, Copy, Debug, PartialEq, Eq, Structural)]
pub enum LockOutcome {
    /// The lock is held.
    Granted,
    /// The caller waits for a change of the table and asks again.
    Wait,
    /// The request is refused.
    Refused(FuseError),
}

/// Decides a lock request: an unlock, or a request without conflict, is granted at once; a
/// conflicting one waits or is refused.
pub fn request_lock(table: &mut LockTable, requested: FileLock, sleep: bool) -> (outcome:
    LockOutcome)
    ensures
        outcome == LockOutcome::Granted <==> (requested.typ == F_UNLCK || first_conflict(
            old(table).locks@,
            requested,
            None,
        )),
        outcome == LockOutcome::Granted ==> final(table).locks@ == after_request(
            old(table).locks@,
            requested,
        ),
        outcome != LockOutcome::Granted ==> {
            &&& final(table).locks@ == old(table).locks@
            &&& outcome == (if sleep {
                LockOutcome::Wait
            } else {
                LockOutcome::Refused(FuseError::Errno(Errno::EAGAIN))
            })
        },
{
    if requested.typ == F_UNLCK || table.conflicting_lock(requested).is_none() {
        table.set_lock(requested);
        return LockOutcome::Granted;
    }
    if sleep {
        LockOutcome::Wait
    } else {
        LockOutcome::Refused(FuseError::Errno(Errno::EAGAIN))
    }
}

/// Accepts the three kinds of lock request and no other.
pub fn lock_type(typ: i32) -> (result: Result<i32, FuseError>)
    ensures
        result == (if typ == F_RDLCK || typ == F_WRLCK || typ == F_UNLCK {
            Ok::<i32, FuseError>(typ)
        } else {
            Err::<i32, FuseError>(FuseError::Errno(Errno::EINVAL))
        }),
{
    if typ == F_RDLCK || typ == F_WRLCK || typ == F_UNLCK {
        Ok(typ)
    } else {
        Err(FuseError::Errno(Errno::EINVAL))
    }
}

/// The rename flag that forbids replacing the destination.
pub const RENAME_NOREPLACE: u32 = 1;

/// What rename flags say: whether the destination may not be replaced.
pub open spec fn forbids_replacing(flags: u32) -> Result<bool, FuseError> {
    if flags == 0 || flags == RENAME_NOREPLACE {
        Ok(flags == RENAME_NOREPLACE)
    } else {
        Err(FuseError::Errno(Errno::EINVAL))
    }
}

/// Reads rename flags: whether the destination may not be replaced; any other flag is refused.
pub fn rename_mode(flags: u32) -> (result: Result<bool, FuseError>)
    ensures
        result == forbids_replacing(flags),
        result == (if flags == 0 {
            Ok::<bool, FuseError>(false)
        } else if flags == RENAME_NOREPLACE {
            Ok::<bool, FuseError>(true)
        } else {
            Err::<bool, FuseError>(FuseError::Errno(Errno::EINVAL))
        }),
{
    if flags == 0 {
        Ok(false)
    } else if flags == RENAME_NOREPLACE {
        Ok(true)
    } else {
        Err(FuseError::Errno(Errno::EINVAL))
    }
}

/// Answer to a request for the bytes of extended attributes.
#[derive(Clone, Copy, Debug, PartialEq, Eq, Structural)]
pub enum AttributeReply {
    /// The number of bytes.
    Size(u32),
    /// The bytes themselves.
    Data,
    /// An error.
    Error(FuseError),
}

/// The answer to a request for extended attribute bytes.
pub open spec fn attribute_reply(byte_length: u64, size: u32) -> AttributeReply {
    if byte_length > u32::MAX {
        AttributeReply::Error(FuseError::Errno(Errno::EOVERFLOW))
    } else if size == 0 {
        AttributeReply::Size(byte_length as u32)
    } else if byte_length <= size {
        AttributeReply::Data
    } else {
        AttributeReply::Error(FuseError::Errno(Errno::ERANGE))
    }
}

/// Decides the answer to a request for extended attribute bytes: a zero size asks for the length;
/// a size below the length is too small; a length that does not fit in 32 bits is an overflow.
pub fn xattr_reply(byte_length: u64, size: u32) -> (reply: AttributeReply)
    ensures
        reply == attribute_reply(byte_length, size),
        reply == (if byte_length > u32::MAX {
            AttributeReply::Error(FuseError::Errno(Errno::EOVERFLOW))
        } else if size == 0 {
            AttributeReply::Size(byte_length as u32)
        } else if size < byte_length {
            AttributeReply::Error(FuseError::Errno(Errno::ERANGE))
        } else {
            AttributeReply::Data
        }),
{
    if byte_length > u32::MAX as u64 {
        return AttributeReply::Error(FuseError::Errno(Errno::EOVERFLOW));
    }
    let length: u32 = byte_length as u32;
    if size == 0 {
        AttributeReply::Size(length)
    } else if size < length {
        AttributeReply::Error(FuseError::Errno(Errno::ERANGE))
    } else {
        AttributeReply::Data
    }
}

/// Gives up exactly the requested bytes and no others: after a request was granted, a byte outside
/// its range is covered for its owner as before.
pub proof fn lemma_request_changes_only_its_range(
    locks: Seq<FileLock>,
    requested: FileLock,
    typ: i32,
    byte: u64,
)
    requires
        byte < requested.start || requested.end < byte,
    ensures
        covers(after_request(locks, requested), requested.inode, requested.owner, typ, byte)
            == covers(locks, requested.inode, requested.owner, typ, byte),
{
    lemma_coverage_without_range(
        locks,
        requested.inode,
        requested.owner,
        requested.start,
        requested.end,
        requested.inode,
        requested.owner,
        typ,
        byte,
    );
    let rest = all_without_range(
        locks,
        requested.inode,
        requested.owner,
        requested.start,
        requested.end,
    );
    lemma_coverage_push(rest, requested, requested.inode, requested.owner, typ, byte);
}

/// After a request was granted, its owner holds exactly the requested kind of lock in its range.
pub proof fn lemma_request_rules_its_range(
    locks: Seq<FileLock>,
    requested: FileLock,
    typ: i32,
    byte: u64,
)
    requires
        requested.start <= byte <= requested.end,
    ensures
        covers(after_request(locks, requested), requested.inode, requested.owner, typ, byte) == (
        requested.typ != F_UNLCK && typ == requested.typ),
{
    lemma_coverage_without_range(
        locks,
        requested.inode,
        requested.owner,
        requested.start,
        requested.end,
        requested.inode,
        requested.owner,
        typ,
        byte,
    );
    let rest = all_without_range(
        locks,
        requested.inode,
        requested.owner,
        requested.start,
        requested.end,
    );
    lemma_coverage_push(rest, requested, requested.inode, requested.owner, typ, byte);
}

/// A request never changes what other owners hold, or what its owner holds on other inodes.
pub proof fn lemma_request_leaves_others(
    locks: Seq<FileLock>,
    requested: FileLock,
    inode: u64,
    owner: u64,
    typ: i32,
    byte: u64,
)
    requires
        inode != requested.inode || owner != requested.owner,
    ensures
        covers(after_request(locks, requested), inode, owner, typ, byte) == covers(
            locks,
            inode,
            owner,
            typ,
            byte,
        ),
{
    lemma_coverage_without_range(
        locks,
        requested.inode,
        requested.owner,
        requested.start,
        requested.end,
        inode,
        owner,
        typ,
        byte,
    );
    let rest = all_without_range(
        locks,
        requested.inode,
        requested.owner,
        requested.start,
        requested.end,
    );
    lemma_coverage_push(rest, requested, inode, owner, typ, byte);
}

proof fn lemma_coverage_push(
    locks: Seq<FileLock>,
    lock: FileLock,
    inode: u64,
    owner: u64,
    typ: i32,
    byte: u64,
)
    ensures
        covers(locks.push(lock), inode, owner, typ, byte) == (covers(locks, inode, owner, typ, byte)
            || (lock.inode == inode && lock.owner == owner && lock.typ == typ && lock.start <= byte
            <= lock.end)),
{
    let after = locks.push(lock);
    if covers(locks, inode, owner, typ, byte) {
        let i = choose|i: int|
            0 <= i < locks.len() && (#[trigger] locks[i]).inode == inode && locks[i].owner == owner
                && locks[i].typ == typ && locks[i].start <= byte <= locks[i].end;
        assert(after[i] == locks[i]);
    }
    assert(after[locks.len() as int] == lock);
    if covers(after, inode, owner, typ, byte) {
        let i = choose|i: int|
            0 <= i < after.len() && (#[trigger] after[i]).inode == inode && after[i].owner == owner
                && after[i].typ == typ && after[i].start <= byte <= after[i].end;
        if i < locks.len() {
            assert(after[i] == locks[i]);
        }
    }
}

proof fn lemma_coverage_without_range(
    locks: Seq<FileLock>,
    inode: u64,
    owner: u64,
    start: u64,
    end: u64,
    in_inode: u64,
    in_owner: u64,
    typ: i32,
    byte: u64,
)
    ensures
        covers(all_without_range(locks, inode, owner, start, end), in_inode, in_owner, typ, byte)
            == (covers(locks, in_inode, in_owner, typ, byte) && !(in_inode == inode && in_owner
            == owner && start <= byte <= end)),
    decreases locks.len(),
{
    if locks.len() > 0 {
        let front = locks.drop_last();
        let last = locks.last();
        lemma_coverage_without_range(
            front,
            inode,
            owner,
            start,
            end,
            in_inode,
            in_owner,
            typ,
            byte,
        );
        lemma_coverage_push(front, last, in_inode, in_owner, typ, byte);
        assert(front.push(last) =~= locks);
        let rest = all_without_range(front, inode, owner, start, end);
        let parts = without_range(last, inode, owner, start, end);
        if parts.len() == 0 {
            assert(rest + parts =~= rest);
        } else if parts.len() == 1 {
            assert(rest + parts =~= rest.push(parts[0]));
            lemma_coverage_push(rest, parts[0], in_inode, in_owner, typ, byte);
        } else {
            assert(parts.len() == 2);
            assert(rest + parts =~= rest.push(parts[0]).push(parts[1]));
            lemma_coverage_push(rest, parts[0], in_inode, in_owner, typ, byte);
            lemma_coverage_push(rest.push(parts[0]), parts[1], in_inode, in_owner, typ, byte);
        }
    }
}

/// No held lock keeps another from being held.
pub open spec fn compatible(locks: Seq<FileLock>) -> bool {
    forall|i: int, j: int|
        0 <= i < locks.len() && 0 <= j < locks.len() ==> !conflicts(
            #[trigger] locks[i],
            #[trigger] locks[j],
        )
}

/// A lock is a part of another.
pub open spec fn part_of(lock: FileLock, whole: FileLock) -> bool {
    &&& lock.inode == whole.inode
    &&& lock.owner == whole.owner
    &&& lock.typ == whole.typ
    &&& whole.start <= lock.start
    &&& lock.end <= whole.end
}

proof fn lemma_left_over(
    locks: Seq<FileLock>,
    inode: u64,
    owner: u64,
    start: u64,
    end: u64,
    i: int,
) -> (at: int)
    requires
        0 <= i < all_without_range(locks, inode, owner, start, end).len(),
    ensures
        0 <= at < locks.len(),
        part_of(all_without_range(locks, inode, owner, start, end)[i], locks[at]),
    decreases locks.len(),
{
    let front = all_without_range(locks.drop_last(), inode, owner, start, end);
    if i < front.len() {
        let at = lemma_left_over(locks.drop_last(), inode, owner, start, end, i);
        assert(locks.drop_last()[at] == locks[at]);
        at
    } else {
        let parts = without_range(locks.last(), inode, owner, start, end);
        assert(all_without_range(locks, inode, owner, start, end)[i] == parts[i - front.len()]);
        locks.len() - 1
    }
}

/// Locks that are held together stay compatible: a request that no held lock conflicts with can be
/// granted.
pub proof fn lemma_granting_keeps_compatible(locks: Seq<FileLock>, requested: FileLock)
    requires
        compatible(locks),
        first_conflict(locks, requested, None),
    ensures
        compatible(after_request(locks, requested)),
{
    let after = after_request(locks, requested);
    let rest = all_without_range(
        locks,
        requested.inode,
        requested.owner,
        requested.start,
        requested.end,
    );
    assert forall|i: int, j: int|
        0 <= i < after.len() && 0 <= j < after.len() implies !conflicts(
        #[trigger] after[i],
        #[trigger] after[j],
    ) by {
        if i < rest.len() {
            let a = lemma_left_over(
                locks,
                requested.inode,
                requested.owner,
                requested.start,
                requested.end,
                i,
            );
            assert(!conflicts(locks[a], requested));
            assert(after[i] == rest[i]);
            if j < rest.len() {
                let b = lemma_left_over(
                    locks,
                    requested.inode,
                    requested.owner,
                    requested.start,
                    requested.end,
                    j,
                );
                assert(after[j] == rest[j]);
                assert(!conflicts(locks[a], locks[b]));
            }
        } else if j < rest.len() {
            let b = lemma_left_over(
                locks,
                requested.inode,
                requested.owner,
                requested.start,
                requested.end,
                j,
            );
            assert(after[j] == rest[j]);
            assert(!conflicts(locks[b], requested));
        }
    }
}

/// A byte lies in the range of a lock.
pub open spec fn in_range(lock: FileLock, byte: u64) -> bool {
    lock.start <= byte <= lock.end
}

/// A held lock stands in the way of a request exactly when another owner holds it on the same inode,
/// some byte lies in both ranges, and at least one of the two is exclusive.
pub proof fn lemma_conflict_is_shared_byte(existing: FileLock, requested: FileLock)
    requires
        existing.start <= existing.end,
        requested.start <= requested.end,
    ensures
        conflicts(existing, requested) <==> existing.inode == requested.inode && existing.owner
            != requested.owner && (existing.typ == 1 || requested.typ == 1) && exists|byte: u64|
            #[trigger] in_range(existing, byte) && in_range(requested, byte),
        conflicts(existing, requested) == conflicts(requested, existing),
{
    let byte = if existing.start < requested.start {
        requested.start
    } else {
        existing.start
    };
    if ranges_overlap(existing, requested) {
        assert(in_range(existing, byte) && in_range(requested, byte));
    }
}

/// A request is in nobody's way exactly when no held lock conflicts with it, and the lock that is told
/// is the oldest that does.
pub proof fn lemma_oldest_conflict_is_told(
    locks: Seq<FileLock>,
    requested: FileLock,
    lock: Option<FileLock>,
    i: int,
)
    requires
        first_conflict(locks, requested, lock),
        0 <= i < locks.len(),
        conflicts(locks[i], requested),
    ensures
        lock is Some,
        conflicts(lock->0, requested),
        exists|j: int| 0 <= j <= i && (#[trigger] locks[j]) == lock->0,
{
}

/// Bytes are handed out exactly where they fit in the size that is asked for, which is not zero; their
/// number is told exactly where the size is zero.
pub proof fn lemma_reply_fits(byte_length: u64, size: u32)
    requires
        byte_length <= u32::MAX,
    ensures
        attribute_reply(byte_length, size) == AttributeReply::Data <==> 0 < size && byte_length
            <= size,
        attribute_reply(byte_length, size) is Size <==> size == 0,
        attribute_reply(byte_length, size) matches AttributeReply::Size(told) ==> told
            == byte_length,
        attribute_reply(byte_length, size) is Error ==> attribute_reply(byte_length, size)
            == AttributeReply::Error(FuseError::Errno(Errno::ERANGE)),
{
}

/// The lowest bit of the rename flags forbids replacing, and no other flag is known.
pub proof fn lemma_rename_flags(flags: u32)
    ensures
        forbids_replacing(flags) is Ok <==> flags < 2,
        forbids_replacing(flags) is Ok ==> (forbids_replacing(flags)->Ok_0 <==> flags == 1),
        forbids_replacing(flags) is Err ==> forbids_replacing(flags) == Err::<bool, FuseError>(
            FuseError::Errno(Errno::EINVAL),
        ),
{
}

/// When an owner is gone, exactly the locks of the others are still held.
pub proof fn lemma_owner_is_gone(locks: Seq<FileLock>, owner: u64, lock: FileLock)
    ensures
        without_owner(locks, owner).contains(lock) <==> locks.contains(lock) && lock.owner != owner,
    decreases locks.len(),
{
    reveal(Seq::filter);
    if locks.len() > 0 {
        let front = locks.drop_last();
        let kept = without_owner(front, owner);
        let left = without_owner(locks, owner);
        lemma_owner_is_gone(front, owner, lock);
        assert(locks =~= front.push(locks.last()));
        if locks.last().owner != owner {
            assert(left == kept.push(locks.last()));
            assert(left.contains(lock) <==> kept.contains(lock) || lock == locks.last()) by {
                if kept.contains(lock) {
                    let i = choose|i: int| 0 <= i < kept.len() && kept[i] == lock;
                    assert(left[i] == lock);
                }
                if lock == locks.last() {
                    assert(left[kept.len() as int] == lock);
                }
            }
        } else {
            assert(left == kept);
        }
        assert(locks.contains(lock) <==> front.contains(lock) || lock == locks.last()) by {
            if front.contains(lock) {
                let i = choose|i: int| 0 <= i < front.len() && front[i] == lock;
                assert(locks[i] == lock);
            }
            if lock == locks.last() {
                assert(locks[locks.len() - 1] == lock);
            }
        }
    }
}

} // verus!
