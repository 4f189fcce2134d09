use eventfs::configuration::{
    directory_synchronization_required, mount_synchronization_required, open_flags_synchronous,
    FilesystemConfiguration, MountOption, O_DSYNC, O_SYNC,
};
use eventfs::database::Database;
use eventfs::error::{FilesystemError, FuseError};
use eventfs::filesystem::{
    BranchIdentifier, BranchName, BranchPageLimit, BranchRecord, EventKind, EventPageLimit,
    EventRecord, EventSequence, FileEventPayloadPart, FileIdentifier,
};
use eventfs::inode::{CreateNodeKind, CreateNodeMetadata, StoredTime, INODE_ROOT};
use eventfs::locks::{
    lock_ranges_overlap, lock_type, rename_mode, xattr_reply, AttributeReply, FileLock,
    LockOutcome, LockTable, F_RDLCK, F_UNLCK, F_WRLCK, RENAME_NOREPLACE,
};
use eventfs::opening::{initialize_new_database, open_database};
use eventfs::sessions::{validate_attribute_position, Filesystem, LockAnswer, MountState};

const NOW: StoredTime = StoredTime { seconds: 1_700_000_000, nanoseconds: 0 };

fn created_at() -> time::UtcDateTime {
    time::UtcDateTime::now()
}

fn filesystem(options: Vec<MountOption>) -> Filesystem {
    let batch =
        initialize_new_database(0, 0, NOW, created_at()).expect("new filesystem is prepared");
    let mut database = Database::new();
    database.write(batch);
    let storage = open_database(database).expect("storage opens");
    let configuration = FilesystemConfiguration::new(b"database".to_vec(), b"mount".to_vec())
        .expect("configuration is valid")
        .with_mount_options(options);
    Filesystem::new(configuration, storage)
}

fn file_lock(inode: u64, owner: u64, start: u64, end: u64, typ: i32) -> FileLock {
    FileLock { inode, owner, start, end, typ, pid: 0 }
}

fn request(inode: u64, owner: u64, start: u64, end: u64, typ: i32, pid: u32) -> FileLock {
    FileLock { inode, owner, start, end, typ, pid }
}

#[test]
fn lock_table_conflicts_follow_advisory_range_rules() {
    let mut write_table = LockTable::new();
    let write_lock = file_lock(1, 10, 0, 10, libc::F_WRLCK as i32);
    write_table.set_lock(write_lock);

    assert_eq!(
        write_table.conflicting_lock(file_lock(1, 11, 5, 5, libc::F_RDLCK as i32)),
        Some(write_lock)
    );
    assert_eq!(
        write_table.conflicting_lock(file_lock(1, 11, 5, 5, libc::F_WRLCK as i32)),
        Some(write_lock)
    );
    assert_eq!(
        write_table.conflicting_lock(file_lock(1, 10, 5, 5, libc::F_WRLCK as i32)),
        None
    );
    assert_eq!(
        write_table.conflicting_lock(file_lock(2, 11, 5, 5, libc::F_WRLCK as i32)),
        None
    );
    assert_eq!(
        write_table.conflicting_lock(file_lock(1, 11, 11, 20, libc::F_WRLCK as i32)),
        None
    );

    let mut read_table = LockTable::new();
    let read_lock = file_lock(1, 10, 0, 10, libc::F_RDLCK as i32);
    read_table.set_lock(read_lock);
    assert_eq!(
        read_table.conflicting_lock(file_lock(1, 11, 5, 5, libc::F_RDLCK as i32)),
        None
    );
    assert_eq!(
        read_table.conflicting_lock(file_lock(1, 11, 5, 5, libc::F_WRLCK as i32)),
        Some(read_lock)
    );

    assert!(lock_ranges_overlap(
        file_lock(1, 1, 0, 10, libc::F_RDLCK as i32),
        file_lock(1, 2, 10, 20, libc::F_RDLCK as i32)
    ));
    assert!(!lock_ranges_overlap(
        file_lock(1, 1, 0, 10, libc::F_RDLCK as i32),
        file_lock(1, 2, 11, 20, libc::F_RDLCK as i32)
    ));
}

#[test]
fn lock_table_replaces_splits_and_clears_owner_ranges() {
    let mut table = LockTable::new();
    table.set_lock(file_lock(1, 7, 0, 99, libc::F_WRLCK as i32));

    table.set_lock(file_lock(1, 7, 20, 29, libc::F_UNLCK as i32));

    assert_eq!(table.locks.len(), 2);
    assert!(table.locks.contains(&file_lock(1, 7, 0, 19, libc::F_WRLCK as i32)));
    assert!(table.locks.contains(&file_lock(1, 7, 30, 99, libc::F_WRLCK as i32)));

    table.set_lock(file_lock(1, 7, 0, 19, libc::F_RDLCK as i32));

    assert_eq!(table.locks.len(), 2);
    assert!(table.locks.contains(&file_lock(1, 7, 0, 19, libc::F_RDLCK as i32)));
    assert!(table.locks.contains(&file_lock(1, 7, 30, 99, libc::F_WRLCK as i32)));

    table.set_lock(file_lock(2, 8, 0, 10, libc::F_WRLCK as i32));
    table.clear_owner(7);

    assert_eq!(table.locks, vec![file_lock(2, 8, 0, 10, libc::F_WRLCK as i32)]);
}

#[test]
fn file_lock_adapter_validates_inodes_types_and_conflicts() {
    let mut filesystem = filesystem(Vec::new());

    assert_eq!(
        filesystem.set_file_lock(request(1, 1, 0, 10, libc::F_WRLCK as i32, 100), false),
        LockOutcome::Granted
    );

    match filesystem.set_file_lock(request(1, 2, 5, 5, libc::F_WRLCK as i32, 200), false) {
        LockOutcome::Refused(conflict) => {
            assert_eq!(conflict.errno().code(), fuser::Errno::EAGAIN.code())
        }
        outcome => panic!("conflicting lock is not refused: {outcome:?}"),
    }

    filesystem.lock_table.clear_owner(1);
    assert_eq!(
        filesystem.set_file_lock(request(1, 2, 5, 5, libc::F_WRLCK as i32, 200), false),
        LockOutcome::Granted
    );

    match filesystem.set_file_lock(request(1, 3, 0, 1, 999, 300), false) {
        LockOutcome::Refused(invalid_type) => {
            assert_eq!(invalid_type.errno().code(), fuser::Errno::EINVAL.code())
        }
        outcome => panic!("unknown lock type is not refused: {outcome:?}"),
    }

    match filesystem.set_file_lock(request(u64::MAX, 3, 0, 1, libc::F_RDLCK as i32, 300), false) {
        LockOutcome::Refused(missing_inode) => {
            assert_eq!(missing_inode.errno().code(), fuser::Errno::ENOENT.code())
        }
        outcome => panic!("missing inode is not refused: {outcome:?}"),
    }
}

#[test]
fn blocking_file_lock_waits_until_conflicting_owner_is_cleared() {
    let mut filesystem = filesystem(Vec::new());
    assert_eq!(
        filesystem.set_file_lock(request(1, 1, 0, 10, libc::F_WRLCK as i32, 100), false),
        LockOutcome::Granted
    );
    let waiting = request(1, 2, 0, 10, libc::F_WRLCK as i32, 200);
    assert_eq!(filesystem.set_file_lock(waiting, true), LockOutcome::Wait);
    filesystem.lock_table.clear_owner(1);
    assert_eq!(filesystem.set_file_lock(waiting, true), LockOutcome::Granted);
}

#[test]
fn lock_queries_tell_the_lock_in_the_way() {
    let mut filesystem = filesystem(Vec::new());
    filesystem.set_file_lock(request(1, 1, 2, 10, F_WRLCK, 100), false);
    assert_eq!(
        filesystem.get_file_lock(request(1, 2, 0, 20, F_RDLCK, 200)),
        Ok(LockAnswer { start: 2, end: 10, typ: F_WRLCK, pid: 100 })
    );
    assert_eq!(
        filesystem.get_file_lock(request(1, 2, 11, 20, F_RDLCK, 200)),
        Ok(LockAnswer { start: 11, end: 20, typ: F_UNLCK, pid: 200 })
    );
}

#[test]
fn rename_and_lock_adapters_accept_supported_values_and_reject_unknown_values() {
    assert_eq!(
        rename_mode(fuser::RenameFlags::empty().bits()).expect("empty rename flags are supported"),
        false
    );
    assert_eq!(
        rename_mode(fuser::RenameFlags::RENAME_NOREPLACE.bits())
            .expect("noreplace rename flag is supported"),
        true
    );
    assert_eq!(fuser::RenameFlags::RENAME_NOREPLACE.bits(), RENAME_NOREPLACE);
    assert_eq!(
        rename_mode(0x4000).expect_err("unknown rename flags are rejected").errno().code(),
        fuser::Errno::EINVAL.code()
    );

    assert_eq!(
        lock_type(libc::F_RDLCK as i32).expect("read locks are accepted"),
        libc::F_RDLCK as i32
    );
    assert_eq!(
        lock_type(libc::F_WRLCK as i32).expect("write locks are accepted"),
        libc::F_WRLCK as i32
    );
    assert_eq!(
        lock_type(libc::F_UNLCK as i32).expect("unlock records are accepted"),
        libc::F_UNLCK as i32
    );
    assert_eq!(
        lock_type(999).expect_err("unknown lock types are rejected").errno().code(),
        fuser::Errno::EINVAL.code()
    );
}

#[test]
fn synchronization_policy_tracks_mount_options_and_open_flags() {
    assert!(!open_flags_synchronous(libc::O_WRONLY));
    assert!(open_flags_synchronous(libc::O_WRONLY | libc::O_DSYNC));
    assert!(open_flags_synchronous(libc::O_WRONLY | libc::O_SYNC));
    assert_eq!(O_DSYNC, libc::O_DSYNC);
    assert_eq!(O_SYNC, libc::O_SYNC);

    let default: Vec<MountOption> = Vec::new();
    assert!(!mount_synchronization_required(&default));
    assert!(!directory_synchronization_required(&default));

    let synchronous = vec![MountOption::Sync];
    assert!(mount_synchronization_required(&synchronous));
    assert!(directory_synchronization_required(&synchronous));

    let async_override = vec![MountOption::Sync, MountOption::Async];
    assert!(!mount_synchronization_required(&async_override));
    assert!(!directory_synchronization_required(&async_override));

    let dirsync = vec![MountOption::DirSync];
    assert!(!mount_synchronization_required(&dirsync));
    assert!(directory_synchronization_required(&dirsync));

    let mut filesystem = filesystem(default);
    let handle = filesystem
        .handle_table
        .record_open_handle(libc::O_RDWR | libc::O_SYNC)
        .expect("open handle is recorded");
    assert!(filesystem.handle_table.handle_synchronization_required(handle));
    assert!(filesystem.write_synchronization_required(handle, libc::O_RDWR));
    filesystem.handle_table.forget_open_handle(handle);
    assert!(!filesystem.handle_table.handle_synchronization_required(handle));
    assert!(!filesystem.write_synchronization_required(handle, libc::O_RDWR));
    assert!(filesystem.write_synchronization_required(handle, libc::O_DSYNC));
}

#[test]
fn handles_are_given_out_once() {
    let mut filesystem = filesystem(Vec::new());
    let first = filesystem.handle_table.record_open_handle(libc::O_RDONLY).expect("first handle");
    let second = filesystem.handle_table.record_open_handle(libc::O_WRONLY).expect("second handle");
    assert_ne!(first, second);
    assert_eq!(filesystem.handle_table.handle(first), Some(libc::O_RDONLY));
    assert_eq!(filesystem.handle_table.handle(second), Some(libc::O_WRONLY));
    filesystem.handle_table.forget_open_handle(first);
    assert_eq!(filesystem.handle_table.handle(first), None);
    assert_eq!(filesystem.handle_table.handle(second), Some(libc::O_WRONLY));
}

fn assert_unmounted(filesystem: &Filesystem) {
    let branch = filesystem.current_branch().expect("current branch is returned");
    filesystem.switch_branch(branch.name()).expect("branch switch is allowed while unmounted");
}

#[test]
fn unmount_without_mounted_session_is_rejected() {
    let mut filesystem = filesystem(Vec::new());
    assert_eq!(
        filesystem.mount_state.mark_unmounted(),
        Err(FilesystemError::FilesystemOperation)
    );
}

#[test]
fn failed_blocking_mount_result_clears_mount_state() {
    let mut filesystem = filesystem(Vec::new());
    filesystem.mount_state.mark_mounted().expect("mount state is marked");

    assert_eq!(
        filesystem
            .mount_state
            .record_blocking_mount_result(Err(FilesystemError::FilesystemOperation)),
        Err(FilesystemError::FilesystemOperation)
    );

    assert_unmounted(&filesystem);
}

#[test]
fn failed_explicit_unmount_result_keeps_mount_state_conservative() {
    let mut filesystem = filesystem(Vec::new());
    filesystem.mount_state.mark_mounted().expect("mount state is marked");

    assert_eq!(
        filesystem
            .mount_state
            .record_unmount_result(Err(FilesystemError::FilesystemOperation)),
        Err(FilesystemError::FilesystemOperation)
    );
    let branch = filesystem.current_branch().expect("current branch is returned");
    assert!(matches!(
        filesystem.switch_branch(branch.name()),
        Err(FilesystemError::FilesystemOperation)
    ));

    filesystem.mount_state.record_unmount_result(Ok(())).expect("later unmount succeeds");
    assert_unmounted(&filesystem);
}

#[test]
fn successful_unmount_result_releases_mount_state() {
    let mut filesystem = filesystem(Vec::new());
    filesystem.mount_state.mark_mounted().expect("mount state is marked");

    filesystem.mount_state.record_unmount_result(Ok(())).expect("unmount succeeds");

    assert_unmounted(&filesystem);
}

#[test]
fn failed_mount_starts_release_their_session() {
    let mut state = MountState::new();
    state.mark_mounted().expect("mount state is marked");
    state.mark_mounted().expect("second session is marked");
    assert_eq!(state.record_mount_start_failure(), Ok(()));
    assert_eq!(state.mounted_sessions, 1);
    assert_eq!(state.lock_unmounted(), Err(FilesystemError::FilesystemOperation));
}

#[test]
fn attribute_replies_follow_the_asked_size() {
    assert_eq!(xattr_reply(5, 0), AttributeReply::Size(5));
    assert_eq!(xattr_reply(5, 5), AttributeReply::Data);
    assert!(matches!(xattr_reply(5, 4), AttributeReply::Error(FuseError::Errno(errno))
        if errno.code() == libc::ERANGE));
    assert_eq!(validate_attribute_position(0), Ok(()));
    assert!(validate_attribute_position(1).is_err());
}

fn all_events(filesystem: &Filesystem, limit: EventPageLimit) -> Vec<EventRecord> {
    let mut walk = filesystem.events(limit);
    let mut records = Vec::new();
    while let Some(next) = filesystem.next_event(&mut walk) {
        records.push(next.expect("event is readable"));
    }
    records
}

fn all_file_events(
    filesystem: &Filesystem,
    file: FileIdentifier,
    limit: EventPageLimit,
) -> Vec<EventRecord> {
    let mut walk = filesystem.file_events(file, limit);
    let mut records = Vec::new();
    while let Some(next) = filesystem.next_event(&mut walk) {
        records.push(next.expect("file event is readable"));
    }
    records
}

fn all_branch_events(
    filesystem: &Filesystem,
    branch: BranchIdentifier,
    file: Option<FileIdentifier>,
    limit: EventPageLimit,
) -> Vec<EventRecord> {
    let mut walk = match file {
        None => filesystem.branch_events(branch, limit),
        Some(file) => filesystem.branch_file_events(branch, file, limit),
    };
    let mut records = Vec::new();
    while let Some(next) = filesystem.next_branch_event(&mut walk) {
        records.push(next.expect("branch event is readable"));
    }
    records
}

fn all_branches(filesystem: &Filesystem, limit: BranchPageLimit) -> Vec<BranchRecord> {
    let mut walk = filesystem.branches(limit);
    let mut records = Vec::new();
    while let Some(next) = filesystem.next_branch(&mut walk) {
        records.push(next.expect("branch is readable"));
    }
    records
}

#[test]
fn filesystem_public_listing_snapshot_payload_and_branch_methods_delegate_to_storage() {
    let mut filesystem = filesystem(Vec::new());
    let event_limit = EventPageLimit::new(2).expect("event limit is valid");
    let branch_limit = BranchPageLimit::new(2).expect("branch limit is valid");
    let large_limit = EventPageLimit::new(100).expect("event limit is valid");

    let initial_event = filesystem
        .get_event(EventSequence::new(0))
        .expect("initial event lookup succeeds")
        .expect("initial event exists");
    assert_eq!(initial_event.kind(), EventKind::FilesystemInitialized);
    let main = filesystem.current_branch().expect("current branch is returned");
    assert_eq!(main.name().as_str(), "main");
    assert_eq!(
        all_branches(&filesystem, branch_limit),
        filesystem
            .list_branches(None, branch_limit)
            .expect("branches are listed")
            .into_records()
    );

    let (created, prepared) = filesystem
        .storage
        .create_node_with_metadata(
            INODE_ROOT,
            b"delegated",
            CreateNodeKind::RegularFile,
            CreateNodeMetadata { uid: 0, gid: 0, mode: 0o666, umask: 0 },
            NOW,
            created_at(),
        )
        .expect("file is created through storage");
    filesystem.storage.finish_commit(prepared);
    let inode_number = created.attr.ino;
    let (_, prepared) = filesystem
        .storage
        .write_file_with_metadata(
            inode_number,
            0,
            b"delegated bytes",
            false,
            false,
            NOW,
            created_at(),
        )
        .expect("file is written through storage");
    filesystem.storage.finish_commit(prepared);
    let write_sequence =
        filesystem.storage.last_event_sequence().expect("last event sequence is readable");
    let file_identifier = FileIdentifier::new(inode_number);

    assert_eq!(
        all_events(&filesystem, event_limit),
        filesystem.list_events(None, large_limit).expect("events are listed").into_records()
    );
    assert_eq!(all_events(&filesystem, event_limit).len(), 3);
    assert_eq!(
        all_file_events(&filesystem, file_identifier, event_limit),
        filesystem
            .list_file_events(file_identifier, None, large_limit)
            .expect("file events are listed")
            .into_records()
    );

    let current = filesystem.current_branch().expect("current branch after write is returned");
    assert_eq!(
        all_branch_events(&filesystem, current.branch_identifier(), None, event_limit),
        filesystem
            .list_branch_events(current.branch_identifier(), None, large_limit)
            .expect("branch events are listed")
            .into_records()
    );
    assert_eq!(
        all_branch_events(
            &filesystem,
            current.branch_identifier(),
            Some(file_identifier),
            event_limit
        ),
        filesystem
            .list_branch_file_events(
                current.branch_identifier(),
                file_identifier,
                None,
                large_limit
            )
            .expect("branch file events are listed")
            .into_records()
    );
    assert_eq!(
        filesystem
            .read_file_event_payload_range(write_sequence, FileEventPayloadPart::Written, 10, 5)
            .expect("payload range is read"),
        b"bytes"
    );

    let snapshot = filesystem
        .file_snapshot_at_or_before(file_identifier, write_sequence)
        .expect("active branch snapshot lookup succeeds")
        .expect("active branch snapshot exists");
    assert_eq!(
        filesystem
            .read_file_snapshot_range(&snapshot, 0, snapshot.file_size())
            .expect("snapshot bytes are read"),
        b"delegated bytes"
    );
    assert_eq!(
        filesystem
            .file_snapshot_on_branch_at_or_before(
                current.branch_identifier(),
                file_identifier,
                snapshot.branch_position(),
            )
            .expect("branch snapshot lookup succeeds"),
        Some(snapshot)
    );

    let branch_name =
        BranchName::new("delegated-branch".to_owned()).expect("branch name is valid");
    let prepared = filesystem
        .create_branch(&branch_name, current.head_position())
        .expect("branch is created");
    let branch = filesystem.storage.finish_create_branch(prepared);
    assert_eq!(branch.name(), &branch_name);
    let prepared = filesystem.switch_branch(&branch_name).expect("branch switch succeeds");
    assert_eq!(
        filesystem.storage.finish_switch_branch(prepared).branch_identifier(),
        branch.branch_identifier()
    );
    let prepared = filesystem.switch_branch(main.name()).expect("main switch succeeds");
    assert_eq!(
        filesystem.storage.finish_switch_branch(prepared).branch_identifier(),
        main.branch_identifier()
    );
    let prepared = filesystem.delete_branch(&branch_name).expect("inactive branch is deleted");
    filesystem.storage.finish_delete_branch(prepared);
}

#[test]
fn walks_hand_out_an_error_once_and_are_over() {
    let mut filesystem = filesystem(Vec::new());
    filesystem.storage.database.events.insert(b"damaged".to_vec(), None);
    let mut walk = filesystem.events(EventPageLimit::new(5).expect("limit is valid"));
    assert_eq!(filesystem.next_event(&mut walk), Some(Err(FilesystemError::Integrity)));
    assert_eq!(filesystem.next_event(&mut walk), None);
}

#[test]
fn walks_hand_out_every_record_once_whatever_the_limit() {
    let mut filesystem = filesystem(Vec::new());
    let (created, prepared) = filesystem
        .storage
        .create_node_with_metadata(
            INODE_ROOT,
            b"walked",
            CreateNodeKind::RegularFile,
            CreateNodeMetadata { uid: 0, gid: 0, mode: 0o666, umask: 0 },
            NOW,
            created_at(),
        )
        .expect("file is created");
    filesystem.storage.finish_commit(prepared);
    let inode = created.attr.ino;
    for offset in 0..4 {
        let (_, prepared) = filesystem
            .storage
            .write_file_with_metadata(inode, offset, b"x", false, false, NOW, created_at())
            .expect("file is written");
        filesystem.storage.finish_commit(prepared);
    }
    let branch = filesystem.current_branch().expect("branch is returned");
    for name in ["first", "second"] {
        let name = BranchName::new(name.to_owned()).expect("name is valid");
        let prepared = filesystem
            .create_branch(&name, branch.head_position())
            .expect("branch is prepared");
        filesystem.storage.finish_create_branch(prepared);
    }

    let file = FileIdentifier::new(inode);
    for limit in 1..9 {
        let events = EventPageLimit::new(limit).expect("limit is valid");
        let branches = BranchPageLimit::new(limit).expect("limit is valid");
        let numbers = |records: Vec<EventRecord>| -> Vec<u64> {
            records.iter().map(|record| record.sequence().get()).collect()
        };
        let identifier = branch.branch_identifier();
        assert_eq!(numbers(all_events(&filesystem, events)), [0, 1, 2, 3, 4, 5]);
        assert_eq!(numbers(all_file_events(&filesystem, file, events)), [1, 2, 3, 4, 5]);
        assert_eq!(
            numbers(all_branch_events(&filesystem, identifier, None, events)),
            [0, 1, 2, 3, 4, 5]
        );
        assert_eq!(
            numbers(all_branch_events(&filesystem, identifier, Some(file), events)),
            [1, 2, 3, 4, 5]
        );
        let found: Vec<u64> = all_branches(&filesystem, branches)
            .iter()
            .map(|record| record.branch_identifier().get())
            .collect();
        assert_eq!(found, [1, 2, 3]);
    }
}
