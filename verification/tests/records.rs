use eventfs::configuration::{FilesystemConfiguration, MountOption};
use eventfs::error::{
    ConfigurationError, Errno, FilesystemError, FuseError, FuseOperationError,
};
use eventfs::filesystem::{
    BranchEventPage, BranchIdentifier, BranchName, BranchPage, BranchPageLimit, BranchPosition,
    BranchRecord, BranchStatus, EventKind, EventPage, EventPageLimit, EventPayload, EventRecord,
    EventSequence, FileIdentifier, FileSnapshot,
};
use eventfs::paging::{PageLoaded, PageStep, PagedRecords};

type Page = Result<(Vec<u64>, Option<u64>), FilesystemError>;

/// Walks pages as an iterator would, until the walk is over.
fn walk(mut load: impl FnMut(Option<u64>) -> Page) -> Vec<Result<u64, FilesystemError>> {
    let mut pages: PagedRecords<u64, u64> = PagedRecords::new();
    let mut items = Vec::new();
    loop {
        match pages.next_step() {
            PageStep::Yield(record) => items.push(Ok(record)),
            PageStep::Done => return items,
            PageStep::Load(after) => match pages.page_loaded(load(after)) {
                PageLoaded::Continue => {}
                PageLoaded::Done => return items,
                PageLoaded::Failed(error) => items.push(Err(error)),
            },
        }
    }
}

#[test]
fn paged_record_iterators_stop_on_empty_pages_and_surface_loader_errors() {
    let empty_records = walk(|_| Ok((Vec::new(), None)));
    assert!(empty_records.is_empty());

    let mut failed = false;
    let errors = walk(move |_| {
        if failed {
            Ok((vec![1], None))
        } else {
            failed = true;
            Err(FilesystemError::Integrity)
        }
    });
    assert_eq!(errors, vec![Err(FilesystemError::Integrity)]);
}

#[test]
fn paged_record_iterators_advance_cursors_until_exhaustion() {
    let mut requested_cursors = Vec::new();
    let records = walk(|after| {
        requested_cursors.push(after);
        match after {
            None => Ok((vec![10, 11], Some(11))),
            Some(11) => Ok((vec![12], Some(12))),
            Some(12) => Ok((Vec::new(), Some(13))),
            _ => Ok((vec![99], None)),
        }
    })
    .into_iter()
    .collect::<Result<Vec<_>, _>>()
    .expect("paged records load");

    assert_eq!(records, vec![10, 11, 12]);
    assert_eq!(requested_cursors, vec![None, Some(11), Some(12)]);
}

#[test]
fn page_scalar_branch_and_snapshot_accessors_return_expected_values() {
    let sequence = EventSequence::new(42);
    let file_identifier = FileIdentifier::new(7);
    let branch_identifier = BranchIdentifier::new(3);
    let branch_position = BranchPosition::new(branch_identifier, 9);
    let branch_name = BranchName::new("accessors".to_owned()).expect("branch name is valid");
    let branch = BranchRecord::new(
        branch_identifier,
        branch_name.clone(),
        BranchStatus::Open,
        branch_position,
        sequence,
    );

    assert_eq!(sequence.get(), 42);
    assert_eq!(file_identifier.get(), 7);
    assert_eq!(branch_identifier.get(), 3);
    assert_eq!(branch_name.as_str(), "accessors");
    assert_eq!(branch_position.branch_identifier(), branch_identifier);
    assert_eq!(branch_position.ordinal(), 9);
    assert_eq!(branch.branch_identifier(), branch_identifier);
    assert_eq!(branch.name(), &branch_name);
    assert_eq!(branch.status(), BranchStatus::Open);
    assert_eq!(branch.head_position(), branch_position);
    assert_eq!(branch.head_sequence(), sequence);

    let branch_page = BranchPage::new(vec![branch.clone()], Some(branch_identifier));
    assert_eq!(branch_page.records(), std::slice::from_ref(&branch));
    assert_eq!(branch_page.next_after(), Some(branch_identifier));
    assert_eq!(branch_page.into_records(), vec![branch]);

    let snapshot = FileSnapshot::new(file_identifier, sequence, branch_position, 1024);
    assert_eq!(snapshot.file_identifier(), file_identifier);
    assert_eq!(snapshot.sequence(), sequence);
    assert_eq!(snapshot.branch_position(), branch_position);
    assert_eq!(snapshot.file_size(), 1024);
}

#[test]
fn event_page_and_record_accessors_cover_payload_variants_and_debug_equality() {
    let created_at = time::UtcDateTime::now();
    let branch_identifier = BranchIdentifier::new(5);
    let branch_position = BranchPosition::new(branch_identifier, 8);
    let first_parent = EventSequence::new(40);
    let base = EventRecord::new(
        EventSequence::new(41),
        EventKind::FileWritten,
        created_at,
        Some(FileIdentifier::new(10)),
        Some("/primary".to_owned()),
        Some(3),
        Some(4),
    )
    .with_secondary_file(FileIdentifier::new(11), Some("/secondary".to_owned()))
    .with_branch(branch_identifier, branch_position, first_parent);

    assert_eq!(base.sequence(), EventSequence::new(41));
    assert_eq!(base.kind(), EventKind::FileWritten);
    assert_eq!(base.created_at(), created_at);
    assert_eq!(base.file_identifier(), Some(FileIdentifier::new(10)));
    assert_eq!(base.secondary_file_identifier(), Some(FileIdentifier::new(11)));
    assert_eq!(base.branch_identifier(), Some(branch_identifier));
    assert_eq!(base.branch_position(), Some(branch_position));
    assert_eq!(base.first_parent_sequence(), Some(first_parent));
    assert_eq!(base.path(), Some("/primary"));
    assert_eq!(base.secondary_path(), Some("/secondary"));
    assert_eq!(base.offset(), Some(3));
    assert_eq!(base.byte_length(), Some(4));
    assert_eq!(base.old_file_size(), None);
    assert_eq!(base.new_file_size(), None);
    assert_eq!(base.overwritten_byte_length(), None);
    assert_eq!(base.written_byte_length(), None);

    let write = base.clone().with_payload(EventPayload::FileWrite {
        old_file_size: 10,
        new_file_size: 14,
        overwritten_byte_length: 2,
        written_byte_length: 4,
    });
    assert_eq!(write.old_file_size(), Some(10));
    assert_eq!(write.new_file_size(), Some(14));
    assert_eq!(write.overwritten_byte_length(), Some(2));
    assert_eq!(write.written_byte_length(), Some(4));

    for payload in [
        EventPayload::FileSizeChange {
            old_file_size: 9,
            new_file_size: 20,
        },
        EventPayload::FileExchange {
            primary_file_size: 20,
            secondary_file_size: 30,
        },
    ] {
        let event = base.clone().with_payload(payload);
        assert_eq!(event.old_file_size(), None);
        assert_eq!(event.new_file_size(), None);
        assert_eq!(event.overwritten_byte_length(), None);
        assert_eq!(event.written_byte_length(), None);
    }

    assert!(format!("{write:?}").contains("EventRecord"));

    let event_page = EventPage::new(vec![write.clone()], Some(write.sequence()));
    assert_eq!(event_page.records(), std::slice::from_ref(&write));
    assert_eq!(event_page.next_after(), Some(write.sequence()));
    assert_eq!(event_page.into_records(), vec![write.clone()]);

    let branch_event_page = BranchEventPage::new(vec![write.clone()], Some(branch_position));
    assert_eq!(branch_event_page.records(), std::slice::from_ref(&write));
    assert_eq!(branch_event_page.next_after(), Some(branch_position));
    assert_eq!(branch_event_page.into_records(), vec![write]);
}

#[test]
fn configuration_and_error_formatting_paths_are_stable() {
    assert_eq!(
        ConfigurationError::EmptyValue.message(),
        "configuration value must not be empty"
    );
    assert_eq!(
        ConfigurationError::ZeroValue.message(),
        "configuration value must be non-zero"
    );
    assert_eq!(
        FilesystemError::FilesystemOperation.message(),
        "filesystem operation failed"
    );
    assert_eq!(FilesystemError::Database.message(), "database operation failed");
    assert_eq!(FilesystemError::Integrity.message(), "integrity check failed");
    assert_eq!(FilesystemError::Backup.message(), "backup operation failed");
    assert_eq!(FilesystemError::Import.message(), "import operation failed");

    let configuration = FilesystemConfiguration::new(b"database".to_vec(), b"mount".to_vec())
        .expect("configuration is valid")
        .with_mount_options(vec![MountOption::Custom("debug".to_owned())]);
    let cloned = configuration.clone();
    assert_eq!(configuration, cloned);
    let debug = format!("{configuration:?}");
    assert!(debug.contains("fuse_error_callback: false"));

    let callback_configuration = configuration.clone().with_fuse_error_callback(1);
    assert_eq!(callback_configuration, callback_configuration.clone());
    assert_ne!(callback_configuration, configuration);
    assert!(format!("{callback_configuration:?}").contains("fuse_error_callback: true"));
    assert_ne!(callback_configuration, cloned.with_fuse_error_callback(2));
}

#[test]
fn empty_paths_and_zero_limits_are_rejected() {
    assert_eq!(
        FilesystemConfiguration::new(Vec::new(), b"mount".to_vec()),
        Err(ConfigurationError::EmptyValue)
    );
    assert_eq!(
        FilesystemConfiguration::new(b"database".to_vec(), Vec::new()),
        Err(ConfigurationError::EmptyValue)
    );
    assert_eq!(EventPageLimit::new(0), Err(ConfigurationError::ZeroValue));
    assert_eq!(BranchPageLimit::new(0), Err(ConfigurationError::ZeroValue));
    assert_eq!(EventPageLimit::new(3).map(EventPageLimit::get), Ok(3));
    assert_eq!(BranchPageLimit::new(4).map(BranchPageLimit::get), Ok(4));
    assert_eq!(BranchName::new(String::new()), Err(ConfigurationError::EmptyValue));
}

#[test]
fn fuse_operation_error_accessors_and_callbacks_preserve_error_context() {
    let error = FuseOperationError::new("ioctl", Errno::EINVAL, true);
    assert_eq!(error.operation(), "ioctl");
    assert_eq!(error.errno(), fuser::Errno::EINVAL.code());
    assert_eq!(error.filesystem_error(), FilesystemError::FilesystemOperation);
    assert!(error.is_unsupported());
    assert_eq!(error, error);
    assert!(format!("{error:?}").contains("unsupported: true"));

    let errno = FuseError::Errno(Errno::ENOENT).errno();
    assert_eq!(errno.code(), fuser::Errno::ENOENT.code());
    let callback_error = FuseOperationError::new("lookup", errno, false);
    assert_eq!(callback_error.operation(), "lookup");
    assert_eq!(callback_error.errno(), fuser::Errno::ENOENT.code());
    assert_eq!(callback_error.filesystem_error(), FilesystemError::FilesystemOperation);
    assert!(!callback_error.is_unsupported());

    let unsupported = FuseOperationError::new("poll", Errno::ENOSYS, true);
    assert_eq!(unsupported.operation(), "poll");
    assert!(unsupported.is_unsupported());
}

#[test]
fn fuse_database_and_integrity_errors_map_to_io_errors() {
    assert_eq!(FuseError::Database.errno().code(), fuser::Errno::EIO.code());
    assert_eq!(FuseError::Integrity.errno().code(), fuser::Errno::EIO.code());
}

#[test]
fn error_numbers_match_the_platform() {
    let numbers = [
        (Errno::EPERM, libc::EPERM),
        (Errno::ENOENT, libc::ENOENT),
        (Errno::EIO, libc::EIO),
        (Errno::E2BIG, libc::E2BIG),
        (Errno::EAGAIN, libc::EAGAIN),
        (Errno::EACCES, libc::EACCES),
        (Errno::EEXIST, libc::EEXIST),
        (Errno::ENOTDIR, libc::ENOTDIR),
        (Errno::EISDIR, libc::EISDIR),
        (Errno::EINVAL, libc::EINVAL),
        (Errno::ENOTTY, libc::ENOTTY),
        (Errno::EFBIG, libc::EFBIG),
        (Errno::ENOSPC, libc::ENOSPC),
        (Errno::ERANGE, libc::ERANGE),
        (Errno::ENAMETOOLONG, libc::ENAMETOOLONG),
        (Errno::ENOSYS, libc::ENOSYS),
        (Errno::ENOTEMPTY, libc::ENOTEMPTY),
        (Errno::NO_XATTR, fuser::Errno::NO_XATTR.code()),
        (Errno::EOVERFLOW, libc::EOVERFLOW),
        (Errno::ENOTSUP, libc::ENOTSUP),
    ];
    for (errno, number) in numbers {
        assert_eq!(errno.code(), number);
    }
}
