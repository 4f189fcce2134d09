//! The mounted filesystem: sessions, open handles, locks, and what they allow.

use vstd::prelude::*;

use crate::branches::{describes, PreparedSwitch};
use crate::configuration::{
    flags_synchronous, mount_synchronous, open_flags_synchronous, write_synchronization_required,
    FilesystemConfiguration,
};
use crate::error::{Errno, FilesystemError, FuseError};
use crate::filesystem::BranchName;
use crate::keys::{encode_u64, lemma_u64_key_injective, u64_key};
use crate::locks::{
    after_request, conflicts, first_conflict, lock_type, request_lock, FileLock, LockOutcome,
    LockTable, F_RDLCK, F_UNLCK, F_WRLCK,
};
use crate::storage::{Storage, StorageView};
use crate::table::Table;

verus! {

/// The number of sessions that have the filesystem mounted.
#[derive(Clone, Copy, Debug, PartialEq, Eq, Structural)]
pub struct MountState {
    /// The number of sessions.
    pub mounted_sessions: usize,
}

/// What a step of mounting or unmounting does to the number of sessions: the step adds to it, and
/// fails without a change where the number cannot take that.
pub open spec fn session_step(sessions: usize, change: int) -> Result<usize, FilesystemError> {
    if 0 <= sessions + change <= usize::MAX {
        Ok((sessions + change) as usize)
    } else {
        Err(FilesystemError::FilesystemOperation)
    }
}

/// What a step gives and leaves behind.
pub open spec fn steps(
    before: MountState,
    after: MountState,
    result: Result<(), FilesystemError>,
    change: int,
) -> bool {
    match session_step(before.mounted_sessions, change) {
        Ok(sessions) => result is Ok && after.mounted_sessions == sessions,
        Err(error) => result == Err::<(), FilesystemError>(error) && after == before,
    }
}

impl MountState {
    /// Nothing is mounted.
    pub fn new() -> (state: Self)
        ensures
            state.mounted_sessions == 0,
    {
        MountState { mounted_sessions: 0 }
    }

    /// Records a mount.
    pub fn mark_mounted(&mut self) -> (result: Result<(), FilesystemError>)
        ensures
            steps(*old(self), *final(self), result, 1),
    {
        match self.mounted_sessions.checked_add(1) {
            None => Err(FilesystemError::FilesystemOperation),
            Some(sessions) => {
                self.mounted_sessions = sessions;
                Ok(())
            },
        }
    }

    /// Records an unmount.
    pub fn mark_unmounted(&mut self) -> (result: Result<(), FilesystemError>)
        ensures
            steps(*old(self), *final(self), result, -1),
    {
        if self.mounted_sessions == 0 {
            return Err(FilesystemError::FilesystemOperation);
        }
        self.mounted_sessions = self.mounted_sessions - 1;
        Ok(())
    }

    /// Checks that nothing is mounted.
    pub fn lock_unmounted(&self) -> (result: Result<(), FilesystemError>)
        ensures
            result == (if self.mounted_sessions != 0 {
                Err::<(), FilesystemError>(FilesystemError::FilesystemOperation)
            } else {
                Ok::<(), FilesystemError>(())
            }),
    {
        if self.mounted_sessions != 0 {
            return Err(FilesystemError::FilesystemOperation);
        }
        Ok(())
    }

    /// Records that a mount that blocked has ended: the session is over whatever the outcome. A
    /// failure of the mount is the answer; after a success, a failure to record is.
    pub fn record_blocking_mount_result(&mut self, result: Result<(), FilesystemError>) -> (answer:
        Result<(), FilesystemError>)
        ensures
            exists|recorded: Result<(), FilesystemError>| #[trigger]
                steps(*old(self), *final(self), recorded, -1) && answer == (if result is Ok {
                    recorded
                } else {
                    result
                }),
    {
        let recorded = self.mark_unmounted();
        assert(steps(*old(self), *self, recorded, -1));
        match result {
            Ok(_) => recorded,
            Err(error) => Err(error),
        }
    }

    /// Records that a mount could not start.
    pub fn record_mount_start_failure(&mut self) -> (result: Result<(), FilesystemError>)
        ensures
            steps(*old(self), *final(self), result, -1),
    {
        self.mark_unmounted()
    }

    /// Records an unmount with its outcome: one that failed leaves the session in place.
    pub fn record_unmount_result(&mut self, result: Result<(), FilesystemError>) -> (answer: Result<
        (),
        FilesystemError,
    >)
        ensures
            result is Ok ==> steps(*old(self), *final(self), answer, -1),
            result is Err ==> answer == result && *final(self) == *old(self),
    {
        match result {
            Err(error) => Err(error),
            Ok(_) => self.mark_unmounted(),
        }
    }
}

/// The open handles with their flags, and the next handle.
#[derive(Debug, PartialEq, Eq)]
pub struct HandleTable {
    /// Flags of the open handles.
    pub handles: Table<i32>,
    /// The next handle.
    pub next_handle: u64,
}

impl HandleTable {
    /// The flags that a handle was opened with.
    pub open spec fn flags(self, handle: u64) -> Option<i32> {
        if self.handles@.contains_key(u64_key(handle)) {
            Some(self.handles@[u64_key(handle)])
        } else {
            None
        }
    }

    /// Creates a table without handles.
    pub fn new() -> (table: Self)
        ensures
            table.next_handle == 1,
            forall|handle: u64| (#[trigger] table.flags(handle)) is None,
    {
        HandleTable { handles: Table::new(), next_handle: 1 }
    }

    /// Gives out a handle; there is none left once the numbers are used up.
    pub fn allocate_handle(&mut self) -> (handle: Result<u64, FuseError>)
        ensures
            final(self).handles == old(self).handles,
            if old(self).next_handle < u64::MAX {
                &&& handle == Ok::<u64, FuseError>(old(self).next_handle)
                &&& final(self).next_handle == old(self).next_handle + 1
            } else {
                &&& handle == Err::<u64, FuseError>(FuseError::Errno(Errno::EIO))
                &&& final(self).next_handle == old(self).next_handle
            },
    {
        match self.next_handle.checked_add(1) {
            None => Err(FuseError::Errno(Errno::EIO)),
            Some(next) => {
                let handle: u64 = self.next_handle;
                self.next_handle = next;
                Ok(handle)
            },
        }
    }

    /// Opens a handle with flags.
    pub fn record_open_handle(&mut self, flags: i32) -> (handle: Result<u64, FuseError>)
        ensures
            if old(self).next_handle < u64::MAX {
                &&& handle == Ok::<u64, FuseError>(old(self).next_handle)
                &&& final(self).next_handle == old(self).next_handle + 1
                &&& forall|other: u64| #[trigger]
                    final(self).flags(other) == (if other == old(self).next_handle {
                        Some(flags)
                    } else {
                        old(self).flags(other)
                    })
            } else {
                &&& handle == Err::<u64, FuseError>(FuseError::Errno(Errno::EIO))
                &&& *final(self) == *old(self)
            },
    {
        match self.allocate_handle() {
            Err(error) => Err(error),
            Ok(handle) => {
                self.handles.insert(encode_u64(handle), flags);
                proof {
                    assert forall|other: u64| #[trigger] self.flags(other) == (if other == handle {
                        Some(flags)
                    } else {
                        old(self).flags(other)
                    }) by {
                        if other != handle && u64_key(other) == u64_key(handle) {
                            lemma_u64_key_injective(other, handle);
                        }
                    }
                }
                Ok(handle)
            },
        }
    }

    /// Closes a handle.
    pub fn forget_open_handle(&mut self, handle: u64)
        ensures
            final(self).next_handle == old(self).next_handle,
            forall|other: u64| #[trigger]
                final(self).flags(other) == (if other == handle {
                    None
                } else {
                    old(self).flags(other)
                }),
    {
        let key = encode_u64(handle);
        self.handles.remove(key.as_slice());
        proof {
            assert forall|other: u64| #[trigger] self.flags(other) == (if other == handle {
                None
            } else {
                old(self).flags(other)
            }) by {
                if other != handle && u64_key(other) == u64_key(handle) {
                    lemma_u64_key_injective(other, handle);
                }
            }
        }
    }

    /// Returns the flags that a handle was opened with.
    pub fn handle(&self, handle: u64) -> (flags: Option<i32>)
        ensures
            flags == self.flags(handle),
    {
        let key = encode_u64(handle);
        match self.handles.get(key.as_slice()) {
            None => None,
            Some(flags) => Some(*flags),
        }
    }

    /// Tells whether a handle was opened for synchronous writes.
    pub fn handle_synchronization_required(&self, handle: u64) -> (required: bool)
        ensures
            required == (self.flags(handle) is Some && flags_synchronous(self.flags(handle)->0)),
    {
        match self.handle(handle) {
            None => false,
            Some(flags) => open_flags_synchronous(flags),
        }
    }
}

/// The filesystem with what its sessions share.
#[derive(Debug, PartialEq, Eq)]
pub struct Filesystem {
    /// The configuration.
    pub configuration: FilesystemConfiguration,
    /// The stored filesystem.
    pub storage: Storage,
    /// The sessions.
    pub mount_state: MountState,
    /// The locks.
    pub lock_table: LockTable,
    /// The open handles.
    pub handle_table: HandleTable,
}

/// What a query for a lock answers: the range, kind and process of a lock in the way, else the
/// asked-for range as free.
#[derive(Clone, Copy, Debug, PartialEq, Eq, Structural)]
pub struct LockAnswer {
    /// First position.
    pub start: u64,
    /// Last position.
    pub end: u64,
    /// Kind of lock.
    pub typ: i32,
    /// Process that holds the lock.
    pub pid: u32,
}

/// What is answered to a query: the lock in the way, or the asked-for range as free.
pub open spec fn lock_answer(found: Option<FileLock>, requested: FileLock) -> LockAnswer {
    match found {
        None => LockAnswer {
            start: requested.start,
            end: requested.end,
            typ: F_UNLCK,
            pid: requested.pid,
        },
        Some(lock) => LockAnswer {
            start: lock.start,
            end: lock.end,
            typ: lock.typ,
            pid: lock.pid,
        },
    }
}

/// The kind of a lock request is one of the three.
pub open spec fn known_lock_type(typ: i32) -> bool {
    typ == F_RDLCK || typ == F_WRLCK || typ == F_UNLCK
}

impl Filesystem {
    /// A filesystem that is not mounted.
    pub fn new(configuration: FilesystemConfiguration, storage: Storage) -> (filesystem: Self)
        ensures
            filesystem.configuration == configuration,
            filesystem.storage == storage,
            filesystem.mount_state.mounted_sessions == 0,
            filesystem.lock_table.locks@ == Seq::<FileLock>::empty(),
            filesystem.handle_table.next_handle == 1,
            forall|handle: u64| (#[trigger] filesystem.handle_table.flags(handle)) is None,
    {
        Filesystem {
            configuration,
            storage,
            mount_state: MountState::new(),
            lock_table: LockTable::new(),
            handle_table: HandleTable::new(),
        }
    }

    /// Prepares a switch to a branch, which is refused while the filesystem is mounted.
    pub fn switch_branch(&self, name: &BranchName) -> (prepared: Result<
        PreparedSwitch,
        FilesystemError,
    >)
        ensures
            match prepared {
                Ok(prepared) => {
                    &&& self.mount_state.mounted_sessions == 0
                    &&& self.storage@.branch_switch(name@) == Some(
                        (prepared.branch_identifier.0, prepared.active@),
                    )
                    &&& prepared.batch@ == StorageView::switch_rows(prepared.branch_identifier.0)
                    &&& describes(prepared.record, prepared.active@.branch)
                },
                Err(error) => if self.mount_state.mounted_sessions != 0 {
                    error == FilesystemError::FilesystemOperation
                } else {
                    error == FilesystemError::Integrity && self.storage@.branch_switch(
                        name@,
                    ) is None
                },
            },
    {
        match self.mount_state.lock_unmounted() {
            Err(error) => Err(error),
            Ok(_) => self.storage.switch_branch(name),
        }
    }

    /// Tells whether a write must reach the disk before it is answered.
    pub fn write_synchronization_required(&self, handle: u64, flags: i32) -> (required: bool)
        ensures
            required == (mount_synchronous(self.configuration.mount_options@) || flags_synchronous(
                flags,
            ) || (self.handle_table.flags(handle) is Some && flags_synchronous(
                self.handle_table.flags(handle)->0,
            ))),
    {
        write_synchronization_required(
            self.configuration.mount_options(),
            flags,
            self.handle_table.handle(handle),
        )
    }

    /// Answers a query for a lock on an inode.
    pub fn get_file_lock(&self, requested: FileLock) -> (answer: Result<LockAnswer, FuseError>)
        ensures
            match answer {
                Ok(answer) => known_lock_type(requested.typ) && self.storage@.namespace().inode(
                    requested.inode,
                ) is Some && exists|found: Option<FileLock>| #[trigger]
                    first_conflict(self.lock_table.locks@, requested, found) && answer == (
                    match found {
                        Some(lock) => LockAnswer {
                            start: lock.start,
                            end: lock.end,
                            typ: lock.typ,
                            pid: lock.pid,
                        },
                        None => LockAnswer {
                            start: requested.start,
                            end: requested.end,
                            typ: F_UNLCK,
                            pid: requested.pid,
                        },
                    }),
                Err(error) => if !known_lock_type(requested.typ) {
                    error == FuseError::Errno(Errno::EINVAL)
                } else {
                    error == FuseError::Errno(Errno::ENOENT) && self.storage@.namespace().inode(
                        requested.inode,
                    ) is None
                },
            },
            answer is Ok ==> exists|found: Option<FileLock>| #[trigger]
                first_conflict(self.lock_table.locks@, requested, found) && answer->Ok_0
                    == lock_answer(found, requested),
    {
        match lock_type(requested.typ) {
            Err(error) => return Err(error),
            Ok(_) => {},
        }
        match self.storage.getattr(requested.inode) {
            Err(error) => return Err(error),
            Ok(_) => {},
        }
        let found = self.lock_table.conflicting_lock(requested);
        assert(first_conflict(self.lock_table.locks@, requested, found));
        match found {
            Some(lock) => Ok(
                LockAnswer { start: lock.start, end: lock.end, typ: lock.typ, pid: lock.pid },
            ),
            None => Ok(
                LockAnswer {
                    start: requested.start,
                    end: requested.end,
                    typ: F_UNLCK,
                    pid: requested.pid,
                },
            ),
        }
    }

    /// Takes up a lock request on an inode.
    pub fn set_file_lock(&mut self, requested: FileLock, sleep: bool) -> (outcome: LockOutcome)
        ensures
            final(self).configuration == old(self).configuration,
            final(self).storage == old(self).storage,
            final(self).mount_state == old(self).mount_state,
            final(self).handle_table == old(self).handle_table,
            if !known_lock_type(requested.typ) {
                &&& outcome == LockOutcome::Refused(FuseError::Errno(Errno::EINVAL))
                &&& final(self).lock_table.locks@ == old(self).lock_table.locks@
            } else if old(self).storage@.namespace().inode(requested.inode) is None {
                &&& outcome == LockOutcome::Refused(FuseError::Errno(Errno::ENOENT))
                &&& final(self).lock_table.locks@ == old(self).lock_table.locks@
            } else if requested.typ == F_UNLCK || first_conflict(
                old(self).lock_table.locks@,
                requested,
                None,
            ) {
                &&& outcome == LockOutcome::Granted
                &&& final(self).lock_table.locks@ == after_request(
                    old(self).lock_table.locks@,
                    requested,
                )
            } else {
                &&& outcome == (if sleep {
                    LockOutcome::Wait
                } else {
                    LockOutcome::Refused(FuseError::Errno(Errno::EAGAIN))
                })
                &&& final(self).lock_table.locks@ == old(self).lock_table.locks@
            },
    {
        match lock_type(requested.typ) {
            Err(error) => return LockOutcome::Refused(error),
            Ok(_) => {},
        }
        match self.storage.getattr(requested.inode) {
            Err(error) => return LockOutcome::Refused(error),
            Ok(_) => {},
        }
        request_lock(&mut self.lock_table, requested, sleep)
    }
}

/// Checks the position of an extended attribute, which has to be its start.
pub fn validate_attribute_position(position: u32) -> (result: Result<(), FuseError>)
    ensures
        result == (if position == 0 {
            Ok::<(), FuseError>(())
        } else {
            Err::<(), FuseError>(FuseError::Errno(Errno::EINVAL))
        }),
{
    if position == 0 {
        Ok(())
    } else {
        Err(FuseError::Errno(Errno::EINVAL))
    }
}

/// A mount that is recorded and then recorded as ended leaves the number of sessions as it was.
pub proof fn lemma_mount_and_unmount(
    first: MountState,
    second: MountState,
    third: MountState,
    mounted: Result<(), FilesystemError>,
    unmounted: Result<(), FilesystemError>,
)
    requires
        steps(first, second, mounted, 1),
        mounted is Ok,
        steps(second, third, unmounted, -1),
    ensures
        unmounted is Ok,
        third.mounted_sessions == first.mounted_sessions,
{
}

/// A query for a lock is answered as free, in the range and with the process that were asked for, where
/// no held lock is in the way. Else the range, kind and process of a held lock that is in the way are
/// told.
pub proof fn lemma_query_tells_lock(
    locks: Seq<FileLock>,
    requested: FileLock,
    found: Option<FileLock>,
    i: int,
)
    requires
        first_conflict(locks, requested, found),
    ensures
        ({
            let answer = lock_answer(found, requested);
            &&& found is None ==> answer.typ == 2 && answer.start == requested.start && answer.end
                == requested.end && answer.pid == requested.pid
            &&& found is None && 0 <= i < locks.len() ==> !conflicts(locks[i], requested)
            &&& found is Some ==> exists|j: int|
                0 <= j < locks.len() && conflicts(#[trigger] locks[j], requested) && answer.start
                    == locks[j].start && answer.end == locks[j].end && answer.typ == locks[j].typ
                    && answer.pid == locks[j].pid
        }),
{
    if found is Some {
        let j = choose|j: int|
            0 <= j < locks.len() && #[trigger] locks[j] == found->0 && conflicts(
                found->0,
                requested,
            ) && forall|k: int| 0 <= k < j ==> !conflicts(#[trigger] locks[k], requested);
        assert(conflicts(locks[j], requested));
    }
}

/// The kinds of lock request are shared, exclusive and none, with the numbers zero, one and two.
pub proof fn lemma_lock_kinds(typ: i32)
    ensures
        known_lock_type(typ) <==> 0 <= typ <= 2,
{
}

} // verus!
