use std::collections::BTreeMap;

use eventfs::branches::BRANCH_IDENTIFIER_INITIAL;
use eventfs::changes::{XATTR_CREATE, XATTR_REPLACE};
use eventfs::commit::{
    commit_event_with_payloads, CommitEventPayloads, EVENT_PAYLOAD_PART_WRITTEN,
};
use eventfs::database::{Batch, Database, StoredEvent, WriteState};
use eventfs::error::{FilesystemError, FuseError};
use eventfs::filesystem::{
    BranchIdentifier, BranchName, BranchPageLimit, BranchPosition, BranchRecord, BranchStatus,
    EventKind, EventPageLimit, EventRecord, EventSequence, FileEventPayloadPart, FileIdentifier,
};
use eventfs::history::{branch_root_at_position, find_event};
use eventfs::inode::{
    BackingFileSystemStatistics, CreateNodeKind, CreateNodeMetadata, SetattrMetadata,
    StoredDirectoryEntry, StoredInode, StoredNodeKind, StoredTime, INODE_FIRST_ALLOCATED,
    INODE_MODE_ROOT, INODE_ROOT, XATTR_VALUE_MAX_BYTES,
};
use eventfs::keys::{
    encode_branch_file_position_key, encode_branch_position_key, encode_event_payload_manifest_key,
    encode_file_sequence_key, encode_file_snapshot_manifest_key, encode_namespace_inode_key,
    encode_namespace_pair_key, encode_u64,
};
use eventfs::manifest::CONTENT_MANIFEST_CONCAT_MAX_CHILDREN;
use eventfs::metadata::{
    last_event_sequence_key_bytes, next_inode_number_key_bytes, read_metadata_string,
    read_metadata_u64, schema_version_key_bytes, volume_name_key_bytes,
};
use eventfs::namespace::{MaterializedBranchState, StoredMutation};
use eventfs::opening::{
    initialize_new_database, open_database, open_existing_database, required_column_family_names,
    EVENT_SEQUENCE_INITIAL, STORAGE_SCHEMA_VERSION_CURRENT,
};
use eventfs::persist::{
    namespace_state_for_identifier_in_database, put_namespace_mutation_in_database,
    put_namespace_state_in_database,
};
use eventfs::storage::{
    DirectoryEntryPlusSnapshot, DirectoryEntrySnapshot, EntrySnapshot, FuseWrite, PreparedCommit,
    Storage,
};

const NOW: StoredTime = StoredTime { seconds: 1_700_000_000, nanoseconds: 5 };

/// A filesystem whose commits are written out at once.
struct Fixture {
    storage: Storage,
}

fn created_at() -> time::UtcDateTime {
    time::UtcDateTime::now()
}

fn open_new() -> Fixture {
    let batch =
        initialize_new_database(0, 0, NOW, created_at()).expect("new filesystem is prepared");
    let mut database = Database::new();
    database.write(batch);
    Fixture { storage: open_database(database).expect("storage opens") }
}

fn reopen(fixture: Fixture) -> Result<Fixture, FilesystemError> {
    let names: Vec<String> =
        required_column_family_names().into_iter().map(|name| name.to_owned()).collect();
    open_existing_database(fixture.storage.database, &names).map(|storage| Fixture { storage })
}

fn default_metadata(kind: CreateNodeKind) -> CreateNodeMetadata {
    let mode = match kind {
        CreateNodeKind::Directory => 0o777,
        _ => 0o666,
    };
    CreateNodeMetadata { uid: 0, gid: 0, mode, umask: 0 }
}

impl Fixture {
    fn finish<T>(&mut self, answer: T, prepared: PreparedCommit) -> Result<T, FuseError> {
        self.storage.finish_commit(prepared);
        Ok(answer)
    }

    fn create_node(
        &mut self,
        parent: u64,
        name: &str,
        kind: CreateNodeKind,
    ) -> Result<EntrySnapshot, FuseError> {
        self.create_node_with_metadata(parent, name, kind, default_metadata(kind))
    }

    fn create_node_with_metadata(
        &mut self,
        parent: u64,
        name: &str,
        kind: CreateNodeKind,
        metadata: CreateNodeMetadata,
    ) -> Result<EntrySnapshot, FuseError> {
        let (entry, prepared) = self.storage.create_node_with_metadata(
            parent,
            name.as_bytes(),
            kind,
            metadata,
            NOW,
            created_at(),
        )?;
        self.finish(entry, prepared)
    }

    fn create_regular_file(&mut self, name: &str) -> u64 {
        self.create_node(INODE_ROOT, name, CreateNodeKind::RegularFile)
            .expect("regular file is created")
            .attr
            .ino
    }

    fn create_directory(&mut self, parent: u64, name: &str) -> u64 {
        self.create_node(parent, name, CreateNodeKind::Directory)
            .expect("directory is created")
            .attr
            .ino
    }

    fn create_symlink(
        &mut self,
        parent: u64,
        name: &str,
        target: &str,
    ) -> Result<EntrySnapshot, FuseError> {
        let (entry, prepared) = self.storage.create_symlink_with_metadata(
            parent,
            name.as_bytes(),
            target.as_bytes(),
            CreateNodeMetadata { uid: 0, gid: 0, mode: 0o777, umask: 0 },
            NOW,
            created_at(),
        )?;
        self.finish(entry, prepared)
    }

    fn write_file(&mut self, inode: u64, offset: u64, data: &[u8]) -> Result<FuseWrite, FuseError> {
        let (answer, prepared) = self.storage.write_file_with_metadata(
            inode,
            offset,
            data,
            false,
            false,
            NOW,
            created_at(),
        )?;
        self.finish(answer, prepared)
    }

    fn read_file(&self, inode: u64, offset: u64, size: u32) -> Result<Vec<u8>, FuseError> {
        self.storage.read_file(inode, offset, size)
    }

    fn lookup(&self, parent: u64, name: &str) -> Result<EntrySnapshot, FuseError> {
        self.storage.lookup(parent, name.as_bytes())
    }

    fn unlink(&mut self, parent: u64, name: &str) -> Result<(), FuseError> {
        let prepared = self.storage.unlink(parent, name.as_bytes(), NOW, created_at())?;
        self.finish((), prepared)
    }

    fn rmdir(&mut self, parent: u64, name: &str) -> Result<(), FuseError> {
        let prepared = self.storage.rmdir(parent, name.as_bytes(), NOW, created_at())?;
        self.finish((), prepared)
    }

    fn rename(
        &mut self,
        parent: u64,
        name: &str,
        new_parent: u64,
        new_name: &str,
        no_replace: bool,
    ) -> Result<(), FuseError> {
        let prepared = self.storage.rename(
            parent,
            name.as_bytes(),
            new_parent,
            new_name.as_bytes(),
            no_replace,
            NOW,
            created_at(),
        )?;
        self.finish((), prepared)
    }

    fn hard_link(
        &mut self,
        inode: u64,
        new_parent: u64,
        new_name: &str,
    ) -> Result<EntrySnapshot, FuseError> {
        let (entry, prepared) = self.storage.hard_link(
            inode,
            new_parent,
            new_name.as_bytes(),
            NOW,
            created_at(),
        )?;
        self.finish(entry, prepared)
    }

    fn setattr_metadata(
        &mut self,
        inode: u64,
        metadata: SetattrMetadata,
    ) -> Result<EntrySnapshot, FuseError> {
        let (entry, prepared) =
            self.storage.setattr_metadata(inode, metadata, NOW, created_at())?;
        match prepared {
            Some(prepared) => self.finish(entry, prepared),
            None => Ok(entry),
        }
    }

    fn setxattr(
        &mut self,
        inode: u64,
        name: &str,
        value: &[u8],
        flags: i32,
    ) -> Result<(), FuseError> {
        match self.storage.setxattr(inode, name.as_bytes(), value, flags, NOW, created_at())? {
            Some(prepared) => self.finish((), prepared),
            None => Ok(()),
        }
    }

    fn removexattr(&mut self, inode: u64, name: &str) -> Result<(), FuseError> {
        let prepared = self.storage.removexattr(inode, name.as_bytes(), NOW, created_at())?;
        self.finish((), prepared)
    }

    fn getxattr(&self, inode: u64, name: &str) -> Result<Vec<u8>, FuseError> {
        self.storage.getxattr(inode, name.as_bytes())
    }

    fn readdir(
        &self,
        inode: u64,
        offset: u64,
    ) -> Result<Vec<DirectoryEntrySnapshot>, FuseError> {
        self.storage.readdir(inode, offset)
    }

    fn readdirplus(
        &self,
        inode: u64,
        offset: u64,
    ) -> Result<Vec<DirectoryEntryPlusSnapshot>, FuseError> {
        let listing = self.storage.readdirplus(inode, offset)?;
        match listing.error {
            Some(error) => Err(error),
            None => Ok(listing.entries),
        }
    }

    fn create_branch(
        &mut self,
        name: &BranchName,
        from: BranchPosition,
    ) -> Result<BranchRecord, FilesystemError> {
        let prepared = self.storage.create_branch(name, from)?;
        Ok(self.storage.finish_create_branch(prepared))
    }

    fn switch_branch(&mut self, name: &BranchName) -> Result<BranchRecord, FilesystemError> {
        let prepared = self.storage.switch_branch(name)?;
        Ok(self.storage.finish_switch_branch(prepared))
    }

    fn delete_branch(&mut self, name: &BranchName) -> Result<(), FilesystemError> {
        let prepared = self.storage.delete_branch(name)?;
        self.storage.finish_delete_branch(prepared);
        Ok(())
    }

    fn current_branch(&self) -> BranchRecord {
        self.storage.current_branch().expect("current branch is readable")
    }

    fn last_event_sequence(&self) -> EventSequence {
        self.storage.last_event_sequence().expect("last event sequence is readable")
    }

    fn write_metadata(&mut self, key: Vec<u8>, value: Vec<u8>) {
        self.storage.database.metadata.insert(key, value);
    }
}

/// All of the active branch, its roots and its state, as text.
fn active_branch_state(fixture: &Fixture) -> String {
    format!("{:?}", fixture.storage.active)
}

fn branch_name(name: &str) -> BranchName {
    BranchName::new(name.to_owned()).expect("branch name is valid")
}

fn limit(value: u64) -> EventPageLimit {
    EventPageLimit::new(value).expect("limit is valid")
}

fn assert_fuse_errno(error: FuseError, expected: fuser::Errno) {
    match error {
        FuseError::Errno(actual) => assert_eq!(actual.code(), expected.code()),
        FuseError::Database | FuseError::Integrity => {
            panic!("expected errno {}, got {error:?}", expected.code())
        }
    }
}

fn patterned_bytes(length: usize, salt: usize) -> Vec<u8> {
    (0..length).map(|index| ((index * 31 + salt) % 251) as u8).collect()
}

fn names(entries: Vec<DirectoryEntrySnapshot>) -> Vec<Vec<u8>> {
    entries.into_iter().map(|entry| entry.name).collect()
}

fn plus_names(entries: Vec<DirectoryEntryPlusSnapshot>) -> Vec<Vec<u8>> {
    entries.into_iter().map(|entry| entry.name).collect()
}

fn collect_all_events(storage: &Storage) -> Vec<EventRecord> {
    let mut records = Vec::new();
    let mut after = None;
    loop {
        let page = storage.list_events(after, limit(2)).expect("event page is readable");
        records.extend(page.records().iter().cloned());
        match page.next_after() {
            Some(next_after) => after = Some(next_after),
            None => return records,
        }
    }
}

fn collect_all_file_events(storage: &Storage, file: FileIdentifier) -> Vec<EventRecord> {
    let mut records = Vec::new();
    let mut after = None;
    loop {
        let page =
            storage.list_file_events(file, after, limit(2)).expect("file event page is readable");
        records.extend(page.records().iter().cloned());
        match page.next_after() {
            Some(next_after) => after = Some(next_after),
            None => return records,
        }
    }
}

fn collect_all_branch_events(storage: &Storage, branch: BranchIdentifier) -> Vec<EventRecord> {
    let mut records = Vec::new();
    let mut after = None;
    loop {
        let page = storage
            .list_branch_events(branch, after, limit(2))
            .expect("branch event page is readable");
        records.extend(page.records().iter().cloned());
        match page.next_after() {
            Some(next_after) => after = Some(next_after),
            None => return records,
        }
    }
}

fn collect_all_branch_file_events(
    storage: &Storage,
    branch: BranchIdentifier,
    file: FileIdentifier,
) -> Vec<EventRecord> {
    let mut records = Vec::new();
    let mut after = None;
    loop {
        let page = storage
            .list_branch_file_events(branch, file, after, limit(2))
            .expect("branch file event page is readable");
        records.extend(page.records().iter().cloned());
        match page.next_after() {
            Some(next_after) => after = Some(next_after),
            None => return records,
        }
    }
}

fn write_state(
    next_inode_number: u64,
    last_event_sequence: u64,
    active_branch_head_sequence: u64,
    active_branch_head_ordinal: u64,
) -> WriteState {
    WriteState {
        next_inode_number,
        last_event_sequence,
        next_branch_identifier: BRANCH_IDENTIFIER_INITIAL + 1,
        active_branch_identifier: BRANCH_IDENTIFIER_INITIAL,
        active_branch_head_sequence,
        active_branch_head_ordinal,
    }
}

#[test]
fn storage_operations_create_paginated_events_and_current_file_contents() {
    let mut fixture = open_new();
    let inode_number = fixture.create_regular_file("current");

    fixture.write_file(inode_number, 0, b"older").expect("older bytes are written");
    fixture.write_file(inode_number, 0, b"newer").expect("newer bytes are written");
    let bytes = fixture.read_file(inode_number, 0, 5).expect("current bytes are readable");
    assert_eq!(bytes, b"newer");

    let first_page = fixture.storage.list_events(None, limit(2)).expect("events are listed");
    assert_eq!(first_page.records().len(), 2);
    let cursor = first_page.next_after().expect("another page exists");
    let second_page =
        fixture.storage.list_events(Some(cursor), limit(10)).expect("second page is listed");
    assert_eq!(second_page.next_after(), None);
}

#[test]
fn current_inode_numbers_survive_reopen() {
    let mut fixture = open_new();
    let created = fixture
        .create_node(INODE_ROOT, "stable", CreateNodeKind::RegularFile)
        .expect("file is created");
    let inode_before = created.attr.ino;

    let fixture = reopen(fixture).expect("storage reopens");
    let looked_up =
        fixture.lookup(INODE_ROOT, "stable").expect("file is looked up after reopen");
    assert_eq!(looked_up.attr.ino, inode_before);
}

#[test]
fn write_state_advances_after_commits_and_reloads_from_metadata() {
    let mut fixture = open_new();
    assert_eq!(
        fixture.storage.write_state,
        write_state(INODE_FIRST_ALLOCATED, EVENT_SEQUENCE_INITIAL, EVENT_SEQUENCE_INITIAL, 0)
    );

    let inode_number = fixture.create_regular_file("counter");
    assert_eq!(
        fixture.storage.write_state,
        write_state(
            INODE_FIRST_ALLOCATED + 1,
            EVENT_SEQUENCE_INITIAL + 1,
            EVENT_SEQUENCE_INITIAL + 1,
            1
        )
    );

    fixture.write_file(inode_number, 0, b"contents").expect("file is written");
    let after_write = write_state(
        INODE_FIRST_ALLOCATED + 1,
        EVENT_SEQUENCE_INITIAL + 2,
        EVENT_SEQUENCE_INITIAL + 2,
        2,
    );
    assert_eq!(fixture.storage.write_state, after_write);
    assert_eq!(
        read_metadata_u64(&fixture.storage.database.metadata, &next_inode_number_key_bytes())
            .expect("next inode metadata is readable"),
        INODE_FIRST_ALLOCATED + 1
    );
    assert_eq!(
        read_metadata_u64(&fixture.storage.database.metadata, &last_event_sequence_key_bytes())
            .expect("last event metadata is readable"),
        EVENT_SEQUENCE_INITIAL + 2
    );

    let fixture = reopen(fixture).expect("storage reopens");
    assert_eq!(fixture.storage.write_state, after_write);
}

#[test]
fn failed_operations_do_not_advance_cached_write_state() {
    let mut fixture = open_new();
    let initial = fixture.storage.write_state;

    let invalid_special = fixture.create_node(
        INODE_ROOT,
        "invalid-special",
        CreateNodeKind::Special { mode: 0, rdev: 0 },
    );
    assert!(invalid_special.is_err());
    assert_eq!(fixture.storage.write_state, initial);
    assert_eq!(fixture.last_event_sequence(), EventSequence::new(initial.last_event_sequence));
}

#[test]
fn storage_schema_version_0_is_current_and_1_is_rejected() {
    let mut fixture = open_new();
    assert_eq!(
        read_metadata_u64(&fixture.storage.database.metadata, &schema_version_key_bytes()),
        Ok(STORAGE_SCHEMA_VERSION_CURRENT)
    );

    fixture.write_metadata(schema_version_key_bytes(), encode_u64(1));
    assert!(matches!(reopen(fixture), Err(FilesystemError::Integrity)));
}

#[test]
fn write_batch_fault_before_write_preserves_durable_and_cached_state() {
    let fixture = open_new();
    let initial = fixture.storage.write_state;
    let initial_active = active_branch_state(&fixture);
    let kind = CreateNodeKind::RegularFile;

    let prepared = fixture.storage.create_node_with_metadata(
        INODE_ROOT,
        b"before-write-fault",
        kind,
        default_metadata(kind),
        NOW,
        created_at(),
    );
    assert!(prepared.is_ok());
    drop(prepared);

    assert_eq!(fixture.storage.write_state, initial);
    assert_eq!(active_branch_state(&fixture), initial_active);
    assert_eq!(fixture.last_event_sequence(), EventSequence::new(initial.last_event_sequence));
    assert!(
        fixture.lookup(INODE_ROOT, "before-write-fault").is_err(),
        "node is absent after pre-write fault"
    );

    let fixture = reopen(fixture).expect("storage reopens after fault");
    assert_eq!(fixture.storage.write_state, initial);
}

#[test]
fn write_batch_fault_after_write_recovers_cached_state_on_reopen() {
    let mut fixture = open_new();
    let initial = fixture.storage.write_state;
    let initial_active = active_branch_state(&fixture);
    let kind = CreateNodeKind::RegularFile;

    let (_, prepared) = fixture
        .storage
        .create_node_with_metadata(
            INODE_ROOT,
            b"after-write-fault",
            kind,
            default_metadata(kind),
            NOW,
            created_at(),
        )
        .expect("creation is prepared");
    fixture.storage.database.write(prepared.batch);

    assert_eq!(fixture.storage.write_state, initial);
    assert_eq!(active_branch_state(&fixture), initial_active);
    assert_eq!(
        fixture.last_event_sequence(),
        EventSequence::new(initial.last_event_sequence + 1)
    );

    let fixture = reopen(fixture).expect("storage reopens after committed fault");
    assert_eq!(
        fixture.storage.write_state.last_event_sequence,
        initial.last_event_sequence + 1
    );
    fixture
        .lookup(INODE_ROOT, "after-write-fault")
        .expect("committed node is visible after reopen");
}

#[test]
fn write_batch_fault_before_file_write_preserves_payload_and_snapshot_state() {
    let mut fixture = open_new();
    let inode_number = fixture.create_regular_file("before-write-file-fault");
    fixture.write_file(inode_number, 0, b"abcdef").expect("initial bytes are written");
    let before_fault = fixture.storage.write_state;
    let before_fault_active = active_branch_state(&fixture);

    let prepared = fixture.storage.write_file_with_metadata(
        inode_number,
        2,
        b"XYZ",
        false,
        false,
        NOW,
        created_at(),
    );
    assert!(prepared.is_ok());
    drop(prepared);

    assert_eq!(fixture.storage.write_state, before_fault);
    assert_eq!(active_branch_state(&fixture), before_fault_active);
    assert_eq!(
        fixture.last_event_sequence(),
        EventSequence::new(before_fault.last_event_sequence)
    );
    assert_eq!(
        fixture
            .read_file(inode_number, 0, 6)
            .expect("file remains readable after pre-write fault"),
        b"abcdef"
    );

    let fixture = reopen(fixture).expect("storage reopens after fault");
    assert_eq!(
        fixture.read_file(inode_number, 0, 6).expect("file remains unchanged after reopen"),
        b"abcdef"
    );
    assert_eq!(
        fixture.storage.write_state.last_event_sequence,
        before_fault.last_event_sequence
    );
}

#[test]
fn write_batch_fault_after_file_write_recovers_payload_and_snapshot_state_on_reopen() {
    let mut fixture = open_new();
    let inode_number = fixture.create_regular_file("after-write-file-fault");
    fixture.write_file(inode_number, 0, b"abcdef").expect("initial bytes are written");
    let before_fault = fixture.storage.write_state;
    let before_fault_active = active_branch_state(&fixture);

    let (_, prepared) = fixture
        .storage
        .write_file_with_metadata(inode_number, 2, b"XYZ", false, false, NOW, created_at())
        .expect("write is prepared");
    fixture.storage.database.write(prepared.batch);

    assert_eq!(fixture.storage.write_state, before_fault);
    assert_eq!(active_branch_state(&fixture), before_fault_active);
    let committed = EventSequence::new(before_fault.last_event_sequence + 1);
    assert_eq!(fixture.last_event_sequence(), committed);

    let fixture = reopen(fixture).expect("storage reopens after committed fault");
    let storage = &fixture.storage;
    assert_eq!(
        storage.read_file(inode_number, 0, 6).expect("committed write is readable after reopen"),
        b"abXYZf"
    );
    let event = storage
        .get_event(committed)
        .expect("committed write event is readable")
        .expect("committed write event exists");
    assert_eq!(event.kind(), EventKind::FileWritten);
    assert_eq!(event.overwritten_byte_length(), Some(3));
    assert_eq!(event.written_byte_length(), Some(3));
    assert_eq!(
        storage
            .read_file_event_payload_range(committed, FileEventPayloadPart::Overwritten, 0, 3)
            .expect("overwritten payload is readable"),
        b"cde"
    );
    assert_eq!(
        storage
            .read_file_event_payload_range(committed, FileEventPayloadPart::Written, 0, 3)
            .expect("written payload is readable"),
        b"XYZ"
    );
    let snapshot = storage
        .file_snapshot_at_or_before(FileIdentifier::new(inode_number), committed)
        .expect("snapshot lookup succeeds")
        .expect("snapshot exists");
    assert_eq!(
        storage
            .read_file_snapshot_range(&snapshot, 0, snapshot.file_size())
            .expect("snapshot bytes are readable"),
        b"abXYZf"
    );
}

#[test]
fn duplicate_event_keys_are_rejected_before_commit() {
    let mut fixture = open_new();
    fixture.create_regular_file("existing-event");

    let duplicate_sequence = EventSequence::new(EVENT_SEQUENCE_INITIAL + 1);
    let duplicate_event = EventRecord::new(
        duplicate_sequence,
        EventKind::NodeCreated,
        created_at(),
        None,
        None,
        None,
        None,
    );
    let mut batch = Batch::new();
    assert!(matches!(
        commit_event_with_payloads(
            &fixture.storage.database,
            &mut batch,
            &fixture.storage.active,
            fixture.storage.active_branch_identifier(),
            duplicate_sequence,
            &duplicate_event,
            CommitEventPayloads::none(),
            StoredMutation::default(),
        ),
        Err(FuseError::Integrity)
    ));
}

#[test]
fn event_key_sequence_mismatch_is_rejected() {
    let mut fixture = open_new();
    let sequence = EventSequence::new(EVENT_SEQUENCE_INITIAL + 1);
    let event = EventRecord::new(
        sequence,
        EventKind::NodeCreated,
        created_at(),
        None,
        None,
        None,
        None,
    );
    let stored = StoredEvent { record: event, mutation: StoredMutation::default() };
    fixture
        .storage
        .database
        .events
        .insert(encode_u64(sequence.get() + 1), Some(stored));

    assert!(matches!(
        find_event(&fixture.storage.database, EventSequence::new(sequence.get() + 1)),
        Err(FilesystemError::Integrity)
    ));
    assert!(matches!(
        fixture.storage.list_events(None, limit(10)),
        Err(FilesystemError::Integrity)
    ));
}

#[test]
fn file_event_index_mismatches_are_rejected() {
    let mut fixture = open_new();
    let file_identifier = FileIdentifier::new(fixture.create_regular_file("indexed"));
    let sequence = fixture.last_event_sequence();

    fixture.storage.database.file_events.insert(
        encode_file_sequence_key(file_identifier.get(), sequence.get()),
        encode_u64(EVENT_SEQUENCE_INITIAL),
    );

    assert!(matches!(
        fixture.storage.list_file_events(file_identifier, None, limit(10)),
        Err(FilesystemError::Integrity)
    ));
}

#[test]
fn stale_branch_name_indexes_are_rejected_before_delete() {
    let mut fixture = open_new();
    let main = fixture.current_branch();
    let first_name = branch_name("first");
    let second_name = branch_name("second");
    let first = fixture
        .create_branch(&first_name, main.head_position())
        .expect("first branch is created");
    let second = fixture
        .create_branch(&second_name, main.head_position())
        .expect("second branch is created");

    fixture.storage.database.branch_names.insert(
        first_name.as_str().as_bytes().to_vec(),
        encode_u64(second.branch_identifier().get()),
    );

    assert!(matches!(
        fixture.delete_branch(&first_name),
        Err(FilesystemError::Integrity)
    ));
    assert_eq!(
        fixture
            .storage
            .branch_record(first.branch_identifier())
            .expect("first branch record is readable")
            .status(),
        BranchStatus::Open
    );
    assert_eq!(
        fixture
            .storage
            .branch_record(second.branch_identifier())
            .expect("second branch record is readable")
            .status(),
        BranchStatus::Open
    );
}

#[test]
fn corrupt_branch_roots_are_rejected_during_branch_creation() {
    let mut fixture = open_new();
    fixture.create_regular_file("materialized");
    let main = fixture.current_branch();

    let mut root = branch_root_at_position(&fixture.storage.database, main.head_position())
        .expect("main branch root is readable")
        .clone();
    root.sequence = EVENT_SEQUENCE_INITIAL;
    fixture.storage.database.branch_roots.insert(
        encode_branch_position_key(
            main.branch_identifier().get(),
            main.head_position().ordinal(),
        ),
        Some(root),
    );

    assert!(matches!(
        fixture.create_branch(&branch_name("corrupt-root"), main.head_position()),
        Err(FilesystemError::Integrity)
    ));
}

#[test]
fn corrupt_content_chunks_are_rejected() {
    let mut fixture = open_new();
    let inode_number = fixture.create_regular_file("content");
    fixture.write_file(inode_number, 0, b"content bytes").expect("file is written");
    let committed_sequence = fixture.last_event_sequence();

    let chunk_identifier = fixture.storage.database.content_chunks.key_at(0).to_vec();
    fixture
        .storage
        .database
        .content_chunks
        .insert(chunk_identifier, b"corrupt bytes".to_vec());

    assert!(matches!(
        fixture.read_file(inode_number, 0, 100),
        Err(FuseError::Integrity)
    ));
    assert!(matches!(
        fixture.write_file(inode_number, 0, b"new"),
        Err(FuseError::Integrity)
    ));
    assert_eq!(fixture.last_event_sequence(), committed_sequence);
}

#[test]
fn append_and_tail_reads_do_not_validate_untouched_old_chunks() {
    let mut fixture = open_new();
    let inode_number = fixture.create_regular_file("append-corruption");
    let original = patterned_bytes(96 * 1024, 17);
    let appended = patterned_bytes(24 * 1024, 41);
    fixture.write_file(inode_number, 0, &original).expect("original file is written");

    let chunk_identifier = fixture.storage.database.content_chunks.key_at(0).to_vec();
    fixture
        .storage
        .database
        .content_chunks
        .insert(chunk_identifier, b"corrupt bytes".to_vec());

    fixture
        .write_file(inode_number, original.len() as u64, &appended)
        .expect("append does not validate untouched corrupt content");
    assert_eq!(
        fixture
            .read_file(inode_number, original.len() as u64, appended.len() as u32)
            .expect("appended tail is readable without old content"),
        appended
    );
    assert!(matches!(
        fixture.write_file(inode_number, 0, b"overwrite"),
        Err(FuseError::Integrity)
    ));
}

#[test]
fn many_small_appends_cross_manifest_child_limits_and_keep_ranges_readable() {
    let mut fixture = open_new();
    let inode_number = fixture.create_regular_file("many-appends");
    let append_count = CONTENT_MANIFEST_CONCAT_MAX_CHILDREN * 2 + 3;
    let mut expected = Vec::with_capacity(append_count * 3);

    for index in 0..append_count {
        let bytes = [
            (index % 251) as u8,
            ((index * 3) % 251) as u8,
            ((index * 7) % 251) as u8,
        ];
        fixture
            .write_file(inode_number, expected.len() as u64, &bytes)
            .expect("small append succeeds");
        expected.extend_from_slice(&bytes);
    }

    assert_eq!(
        fixture
            .read_file(inode_number, 0, expected.len() as u32)
            .expect("full file is readable"),
        expected
    );
    let middle = expected.len() / 2;
    assert_eq!(
        fixture
            .read_file(inode_number, middle as u64, 33)
            .expect("middle range is readable"),
        expected[middle..middle + 33]
    );
    let tail = expected.len() - 48;
    assert_eq!(
        fixture.read_file(inode_number, tail as u64, 48).expect("tail range is readable"),
        expected[tail..]
    );
}

#[test]
fn large_snapshot_and_payload_ranges_cross_content_chunks() {
    let mut fixture = open_new();
    let inode_number = fixture.create_regular_file("large");
    let file_identifier = FileIdentifier::new(inode_number);
    let overwrite_offset = 96 * 1024;
    let original = patterned_bytes(300 * 1024, 11);
    let replacement = patterned_bytes(70 * 1024, 91);
    let mut expected_after_overwrite = original.clone();
    expected_after_overwrite[overwrite_offset..overwrite_offset + replacement.len()]
        .copy_from_slice(&replacement);

    fixture.write_file(inode_number, 0, &original).expect("large file is written");
    let initial_write = fixture.last_event_sequence();
    fixture
        .write_file(inode_number, overwrite_offset as u64, &replacement)
        .expect("large file is overwritten");
    let overwrite = fixture.last_event_sequence();

    let storage = &fixture.storage;
    assert_eq!(
        storage
            .read_file_event_payload_range(
                initial_write,
                FileEventPayloadPart::Written,
                0,
                original.len() as u64,
            )
            .expect("large written payload is read"),
        original
    );
    assert_eq!(
        storage
            .read_file_event_payload_range(
                overwrite,
                FileEventPayloadPart::Overwritten,
                0,
                replacement.len() as u64,
            )
            .expect("large overwritten payload is read"),
        original[overwrite_offset..overwrite_offset + replacement.len()]
    );
    assert_eq!(
        storage
            .read_file_event_payload_range(
                overwrite,
                FileEventPayloadPart::Written,
                0,
                replacement.len() as u64,
            )
            .expect("large replacement payload is read"),
        replacement
    );

    let snapshot = storage
        .file_snapshot_at_or_before(file_identifier, overwrite)
        .expect("large snapshot lookup succeeds")
        .expect("large snapshot exists");
    assert_eq!(
        storage
            .read_file_snapshot_range(&snapshot, 0, snapshot.file_size())
            .expect("large snapshot is read"),
        expected_after_overwrite
    );
    assert_eq!(
        storage
            .read_file_snapshot_range(&snapshot, 200 * 1024, 64 * 1024)
            .expect("large snapshot range is read"),
        expected_after_overwrite[200 * 1024..264 * 1024]
    );
}

#[derive(Clone, Debug)]
enum BoundedFileOperation {
    Write { offset: u64, bytes: Vec<u8> },
    Truncate { size: u64 },
}

#[derive(Clone, Debug, Eq, PartialEq)]
struct BoundedFileExpectation {
    kind: EventKind,
    before: Vec<u8>,
    after: Vec<u8>,
    offset: Option<u64>,
    byte_length: Option<u64>,
    overwritten: Vec<u8>,
    written: Vec<u8>,
}

impl BoundedFileExpectation {
    fn created() -> Self {
        Self {
            kind: EventKind::FileCreated,
            before: Vec::new(),
            after: Vec::new(),
            offset: None,
            byte_length: None,
            overwritten: Vec::new(),
            written: Vec::new(),
        }
    }

    fn of_write(&self, length: usize) -> Option<u64> {
        match self.kind {
            EventKind::FileWritten => Some(length as u64),
            _ => None,
        }
    }
}

fn bounded_file_history_model_operations() -> Vec<BoundedFileOperation> {
    let dedup_bytes = patterned_bytes(96 * 1024, 7);
    vec![
        BoundedFileOperation::Write { offset: 0, bytes: dedup_bytes.clone() },
        BoundedFileOperation::Write { offset: 0, bytes: dedup_bytes },
        BoundedFileOperation::Write {
            offset: 24 * 1024,
            bytes: patterned_bytes(40 * 1024, 19),
        },
        BoundedFileOperation::Write {
            offset: 80 * 1024,
            bytes: patterned_bytes(20 * 1024, 37),
        },
        BoundedFileOperation::Write {
            offset: 128 * 1024,
            bytes: patterned_bytes(8 * 1024, 59),
        },
        BoundedFileOperation::Truncate { size: 72 * 1024 },
        BoundedFileOperation::Truncate { size: 160 * 1024 },
    ]
}

fn apply_bounded_file_operation(
    dense: &mut Vec<u8>,
    operation: &BoundedFileOperation,
) -> BoundedFileExpectation {
    match operation {
        BoundedFileOperation::Write { offset, bytes } => {
            let before = dense.clone();
            let offset = usize::try_from(*offset).expect("bounded write offset fits usize");
            let overwritten_end = before.len().min(offset + bytes.len());
            let overwritten = if offset < overwritten_end {
                before[offset..overwritten_end].to_vec()
            } else {
                Vec::new()
            };
            if dense.len() < offset {
                dense.resize(offset, 0);
            }
            if dense.len() < offset + bytes.len() {
                dense.resize(offset + bytes.len(), 0);
            }
            dense[offset..offset + bytes.len()].copy_from_slice(bytes);

            BoundedFileExpectation {
                kind: EventKind::FileWritten,
                before,
                after: dense.clone(),
                offset: Some(offset as u64),
                byte_length: Some(bytes.len() as u64),
                overwritten,
                written: bytes.clone(),
            }
        }
        BoundedFileOperation::Truncate { size } => {
            let before = dense.clone();
            let size = usize::try_from(*size).expect("bounded truncate size fits usize");
            let overwritten = if size < before.len() {
                before[size..].to_vec()
            } else {
                Vec::new()
            };
            let event_offset = if size < before.len() {
                size as u64
            } else {
                before.len() as u64
            };
            dense.resize(size, 0);

            BoundedFileExpectation {
                kind: EventKind::FileWritten,
                before,
                after: dense.clone(),
                offset: Some(event_offset),
                byte_length: Some(0),
                overwritten,
                written: Vec::new(),
            }
        }
    }
}

fn resized_to(size: u64) -> SetattrMetadata {
    SetattrMetadata {
        request_uid: 0,
        request_gid: 0,
        mode: None,
        uid: None,
        gid: None,
        size: Some(size),
        atime: None,
        mtime: None,
    }
}

fn run_bounded_file_operation(
    fixture: &mut Fixture,
    inode_number: u64,
    operation: &BoundedFileOperation,
) {
    match operation {
        BoundedFileOperation::Write { offset, bytes } => {
            fixture.write_file(inode_number, *offset, bytes).expect("bounded write succeeds");
        }
        BoundedFileOperation::Truncate { size } => {
            fixture
                .setattr_metadata(inode_number, resized_to(*size))
                .expect("bounded truncate succeeds");
        }
    }
}

fn assert_storage_history_entry(
    storage: &Storage,
    inode_number: u64,
    file_identifier: FileIdentifier,
    sequence: EventSequence,
    expectation: &BoundedFileExpectation,
    history_bytes_by_sequence: &BTreeMap<EventSequence, Vec<u8>>,
) {
    let event = storage
        .get_event(sequence)
        .expect("history event lookup succeeds")
        .expect("history event exists");
    assert_eq!(event.file_identifier(), Some(file_identifier));
    assert_eq!(event.kind(), expectation.kind);
    assert_eq!(event.offset(), expectation.offset);
    assert_eq!(event.byte_length(), expectation.byte_length);
    assert_eq!(event.old_file_size(), expectation.of_write(expectation.before.len()));
    assert_eq!(event.new_file_size(), expectation.of_write(expectation.after.len()));
    assert_eq!(
        event.overwritten_byte_length(),
        expectation.of_write(expectation.overwritten.len())
    );
    assert_eq!(
        event.written_byte_length(),
        expectation.of_write(expectation.written.len())
    );
    assert_eq!(
        storage
            .read_file_event_payload_range(
                sequence,
                FileEventPayloadPart::Overwritten,
                0,
                expectation.overwritten.len() as u64 + 64,
            )
            .expect("overwritten payload is readable"),
        expectation.overwritten
    );
    assert_eq!(
        storage
            .read_file_event_payload_range(
                sequence,
                FileEventPayloadPart::Written,
                0,
                expectation.written.len() as u64 + 64,
            )
            .expect("written payload is readable"),
        expectation.written
    );
    assert_eq!(
        storage
            .read_file(
                inode_number,
                0,
                u32::try_from(expectation.after.len() + 16).expect("bounded file length fits u32"),
            )
            .expect("current file bytes are readable"),
        expectation.after
    );

    let snapshot = storage
        .file_snapshot_at_or_before(file_identifier, sequence)
        .expect("snapshot lookup succeeds")
        .expect("snapshot exists");
    let snapshot_bytes = storage
        .read_file_snapshot_range(&snapshot, 0, snapshot.file_size())
        .expect("snapshot bytes are readable");
    let expected_snapshot_bytes = history_bytes_by_sequence
        .get(&snapshot.sequence())
        .expect("snapshot sequence has expected bytes");
    assert_eq!(snapshot.file_size(), expected_snapshot_bytes.len() as u64);
    assert_eq!(snapshot_bytes, *expected_snapshot_bytes);
}

fn reconstruct_file_bytes_at_sequence(
    storage: &Storage,
    file_identifier: FileIdentifier,
    target: EventSequence,
) -> Vec<u8> {
    let snapshot = storage
        .file_snapshot_at_or_before(file_identifier, target)
        .expect("snapshot lookup succeeds")
        .expect("snapshot exists");
    let mut bytes = storage
        .read_file_snapshot_range(&snapshot, 0, snapshot.file_size())
        .expect("snapshot bytes are readable");
    let mut after = Some(snapshot.sequence());

    loop {
        let page = storage
            .list_file_events(file_identifier, after, limit(2))
            .expect("file event page is readable");
        for event in page.records() {
            if event.sequence() > target {
                return bytes;
            }
            apply_listed_file_event(storage, &mut bytes, event);
        }
        match page.next_after() {
            Some(next_after) if next_after <= target => after = Some(next_after),
            Some(_) | None => return bytes,
        }
    }
}

fn apply_listed_file_event(storage: &Storage, bytes: &mut Vec<u8>, event: &EventRecord) {
    match event.kind() {
        EventKind::FileCreated => bytes.clear(),
        EventKind::FileWritten => {
            let offset = usize::try_from(event.offset().expect("write offset exists"))
                .expect("write offset fits usize");
            let written = storage
                .read_file_event_payload_range(
                    event.sequence(),
                    FileEventPayloadPart::Written,
                    0,
                    event.written_byte_length().expect("written length exists"),
                )
                .expect("written payload is readable");
            let end = offset + written.len();
            if bytes.len() < offset {
                bytes.resize(offset, 0);
            }
            if bytes.len() < end {
                bytes.resize(end, 0);
            }
            bytes[offset..end].copy_from_slice(&written);
            bytes.resize(
                usize::try_from(event.new_file_size().expect("new file size exists"))
                    .expect("new file size fits usize"),
                0,
            );
        }
        _ => {}
    }
}

#[test]
fn bounded_file_history_model_keeps_current_snapshot_payload_and_listing_views_consistent() {
    let mut fixture = open_new();
    let inode_number = fixture.create_regular_file("history-model");
    let file_identifier = FileIdentifier::new(inode_number);
    let create_sequence = fixture.last_event_sequence();
    let mut history_bytes_by_sequence = BTreeMap::new();
    history_bytes_by_sequence.insert(create_sequence, Vec::new());

    assert_storage_history_entry(
        &fixture.storage,
        inode_number,
        file_identifier,
        create_sequence,
        &BoundedFileExpectation::created(),
        &history_bytes_by_sequence,
    );

    let mut dense = Vec::new();
    let mut expected_sequences = vec![create_sequence];
    let mut content_chunk_count_after_first_write = None;

    for (index, operation) in bounded_file_history_model_operations().into_iter().enumerate() {
        let expectation = apply_bounded_file_operation(&mut dense, &operation);
        run_bounded_file_operation(&mut fixture, inode_number, &operation);

        let sequence = fixture.last_event_sequence();
        history_bytes_by_sequence.insert(sequence, expectation.after.clone());
        expected_sequences.push(sequence);

        assert_storage_history_entry(
            &fixture.storage,
            inode_number,
            file_identifier,
            sequence,
            &expectation,
            &history_bytes_by_sequence,
        );
        assert_eq!(
            reconstruct_file_bytes_at_sequence(
                &fixture.storage,
                file_identifier,
                EventSequence::new(sequence.get() - 1),
            ),
            expectation.before
        );
        assert_eq!(
            reconstruct_file_bytes_at_sequence(&fixture.storage, file_identifier, sequence),
            expectation.after
        );

        let chunk_count = fixture.storage.database.content_chunks.len();
        if index == 0 {
            content_chunk_count_after_first_write = Some(chunk_count);
        } else if index == 1 {
            assert_eq!(
                chunk_count,
                content_chunk_count_after_first_write.expect("first write chunk count is recorded"),
            );
        }
    }

    let current_branch = fixture.current_branch();
    let file_events = collect_all_file_events(&fixture.storage, file_identifier);
    let branch_file_events = collect_all_branch_file_events(
        &fixture.storage,
        current_branch.branch_identifier(),
        file_identifier,
    );
    let branch_events_for_file =
        collect_all_branch_events(&fixture.storage, current_branch.branch_identifier())
            .into_iter()
            .filter(|event| event.file_identifier() == Some(file_identifier))
            .collect::<Vec<_>>();
    let all_events_for_file = collect_all_events(&fixture.storage)
        .into_iter()
        .filter(|event| {
            event.file_identifier() == Some(file_identifier)
                && event.branch_identifier() == Some(current_branch.branch_identifier())
        })
        .collect::<Vec<_>>();

    assert_eq!(
        file_events.iter().map(EventRecord::sequence).collect::<Vec<_>>(),
        expected_sequences
    );
    assert_eq!(branch_file_events, file_events);
    assert_eq!(branch_events_for_file, file_events);
    assert_eq!(all_events_for_file, file_events);
    assert_eq!(
        current_branch.head_sequence(),
        *expected_sequences.last().expect("history contains events")
    );
    assert_eq!(
        current_branch.head_position(),
        file_events
            .last()
            .and_then(EventRecord::branch_position)
            .expect("last file event has a branch position"),
    );
    assert_eq!(
        reconstruct_file_bytes_at_sequence(
            &fixture.storage,
            file_identifier,
            current_branch.head_sequence(),
        ),
        dense
    );
}

#[test]
fn allocator_metadata_below_stored_inode_state_is_rejected_on_open() {
    let mut fixture = open_new();
    fixture.create_regular_file("allocated");

    fixture.write_metadata(next_inode_number_key_bytes(), encode_u64(INODE_FIRST_ALLOCATED));

    assert!(matches!(reopen(fixture), Err(FilesystemError::Integrity)));
}

#[test]
fn filesystem_statistics_do_not_append_events_and_track_inode_capacity() {
    let mut fixture = open_new();
    let backing = BackingFileSystemStatistics {
        blocks: 100,
        free_blocks: 40,
        available_blocks: 30,
        fragment_size: 8192,
    };

    let initial_event_sequence = fixture.last_event_sequence();
    let initial_statistics =
        fixture.storage.statfs(backing).expect("filesystem statistics are returned");
    assert_eq!(fixture.last_event_sequence(), initial_event_sequence);

    let inode_number = fixture.create_regular_file("tracked");
    let after_create =
        fixture.storage.statfs(backing).expect("statistics are returned after create");
    assert_eq!(after_create.free_files, initial_statistics.free_files - 1);

    fixture.write_file(inode_number, 0, b"contents").expect("file is written");
    let after_write =
        fixture.storage.statfs(backing).expect("statistics are returned after write");
    assert_eq!(after_write.free_files, after_create.free_files);

    fixture.hard_link(inode_number, INODE_ROOT, "hard-link").expect("hard link is created");
    let after_hard_link =
        fixture.storage.statfs(backing).expect("statistics are returned after hard link");
    assert_eq!(after_hard_link.free_files, after_create.free_files);

    fixture
        .rename(INODE_ROOT, "tracked", INODE_ROOT, "renamed", false)
        .expect("node is renamed");
    let after_rename =
        fixture.storage.statfs(backing).expect("statistics are returned after rename");
    assert_eq!(after_rename.free_files, after_create.free_files);
}

#[test]
fn extended_attributes_are_branch_local_and_copied_on_branch_creation() {
    let mut fixture = open_new();
    let inode_number = fixture.create_regular_file("xattr-file");
    let name = "user.eventfs.branch";

    fixture
        .setxattr(inode_number, name, b"main", libc::XATTR_CREATE)
        .expect("xattr is set on main");
    let main = fixture.current_branch();
    let copied = branch_name("xattrs");
    fixture.create_branch(&copied, main.head_position()).expect("branch is created");

    fixture.switch_branch(&copied).expect("xattr branch is active");
    assert_eq!(
        fixture.getxattr(inode_number, name).expect("copied xattr is readable"),
        b"main"
    );
    fixture
        .setxattr(inode_number, name, b"branch", libc::XATTR_REPLACE)
        .expect("branch xattr is replaced");
    assert_eq!(
        fixture.getxattr(inode_number, name).expect("branch xattr is readable"),
        b"branch"
    );

    fixture.switch_branch(main.name()).expect("main branch is active again");
    assert_eq!(
        fixture.getxattr(inode_number, name).expect("main xattr is isolated"),
        b"main"
    );
    fixture.removexattr(inode_number, name).expect("main xattr is removed");
    assert_fuse_errno(
        fixture.getxattr(inode_number, name).expect_err("removed xattr is absent"),
        fuser::Errno::NO_XATTR,
    );
    let main_after_remove = fixture.current_branch();
    let after_remove = branch_name("xattrs-after-remove");
    fixture
        .create_branch(&after_remove, main_after_remove.head_position())
        .expect("branch is created after xattr removal");
    fixture.switch_branch(&after_remove).expect("post-removal branch is active");
    assert_fuse_errno(
        fixture.getxattr(inode_number, name).expect_err("removed xattr is absent"),
        fuser::Errno::NO_XATTR,
    );

    let kinds = collect_all_events(&fixture.storage)
        .into_iter()
        .map(|event| event.kind())
        .collect::<Vec<_>>();
    assert!(kinds.contains(&EventKind::ExtendedAttributeSet));
    assert!(kinds.contains(&EventKind::ExtendedAttributeRemoved));
}

fn root_storage_counts(storage: &Storage) -> (usize, usize, usize, usize) {
    (
        storage.database.content_chunks.len(),
        storage.database.content_manifest_nodes.len(),
        storage.database.namespace_nodes.len(),
        storage.database.file_snapshot_manifests.len(),
    )
}

#[test]
fn branch_creation_copies_namespace_root_without_duplicating_manifest_storage() {
    let mut fixture = open_new();
    let inode_number = fixture.create_regular_file("root-copy");
    fixture.write_file(inode_number, 0, b"shared-by-root").expect("file is written");
    let main = fixture.current_branch();
    let source_root = branch_root_at_position(&fixture.storage.database, main.head_position())
        .expect("main branch root is readable")
        .clone();
    let before = root_storage_counts(&fixture.storage);

    let name = branch_name("root-copy");
    let branch = fixture
        .create_branch(&name, main.head_position())
        .expect("branch is created from the root");
    let branch_root = branch_root_at_position(&fixture.storage.database, branch.head_position())
        .expect("new branch root is readable")
        .clone();

    assert_eq!(branch_root.sequence, source_root.sequence);
    assert_eq!(branch_root.namespace_identifier, source_root.namespace_identifier);
    assert_eq!(root_storage_counts(&fixture.storage), before);

    fixture.switch_branch(&name).expect("new branch is active");
    assert_eq!(
        fixture
            .read_file(inode_number, 0, 32)
            .expect("file bytes are readable through copied root"),
        b"shared-by-root"
    );
}

#[test]
fn extended_attributes_validate_flags_names_and_noop_writes() {
    let mut fixture = open_new();
    let inode_number = fixture.create_regular_file("xattr-edges");
    let name = "user.eventfs.edge";

    fixture
        .setxattr(inode_number, name, b"value", libc::XATTR_CREATE)
        .expect("xattr is created");
    let before_noop = fixture.last_event_sequence();

    fixture
        .setxattr(inode_number, name, b"value", 0)
        .expect("setting the same xattr value is a no-op");

    assert_eq!(fixture.last_event_sequence(), before_noop);
    assert_fuse_errno(
        fixture
            .setxattr(inode_number, name, b"value", libc::XATTR_CREATE)
            .expect_err("create rejects an existing xattr"),
        fuser::Errno::EEXIST,
    );
    assert_fuse_errno(
        fixture
            .setxattr(inode_number, "user.eventfs.missing", b"value", libc::XATTR_REPLACE)
            .expect_err("replace rejects a missing xattr"),
        fuser::Errno::NO_XATTR,
    );
    assert_fuse_errno(
        fixture
            .setxattr(
                inode_number,
                name,
                b"value",
                libc::XATTR_CREATE | libc::XATTR_REPLACE,
            )
            .expect_err("create and replace flags conflict"),
        fuser::Errno::EINVAL,
    );
    assert_fuse_errno(
        fixture
            .setxattr(inode_number, name, b"value", 0x4000)
            .expect_err("unknown xattr flags are rejected"),
        fuser::Errno::EINVAL,
    );
    assert_fuse_errno(
        fixture
            .setxattr(inode_number, "", b"value", 0)
            .expect_err("empty xattr names are rejected"),
        fuser::Errno::EINVAL,
    );
    assert_fuse_errno(
        fixture
            .setxattr(inode_number, "trusted.eventfs.edge", b"value", 0)
            .expect_err("non-user xattr namespaces are rejected"),
        fuser::Errno::ENOTSUP,
    );
    assert_fuse_errno(
        fixture
            .storage
            .getxattr(inode_number, b"user.\xff")
            .expect_err("non-utf8 xattr names are rejected"),
        fuser::Errno::ENOTSUP,
    );
    assert_fuse_errno(
        fixture
            .storage
            .getxattr(inode_number, &[b'a'; 256])
            .expect_err("overlong xattr names are rejected"),
        fuser::Errno::ERANGE,
    );
    assert_fuse_errno(
        fixture
            .setxattr(inode_number, name, &vec![0; XATTR_VALUE_MAX_BYTES + 1], 0)
            .expect_err("overlong xattr values are rejected"),
        fuser::Errno::ERANGE,
    );
    assert_fuse_errno(
        fixture
            .removexattr(inode_number, "user\0bad")
            .expect_err("nul-containing xattr names are rejected"),
        fuser::Errno::EINVAL,
    );
    let symlink = fixture
        .create_symlink(INODE_ROOT, "xattr-link", "xattr-edges")
        .expect("symlink is created")
        .attr
        .ino;
    assert_fuse_errno(
        fixture
            .setxattr(symlink, name, b"value", 0)
            .expect_err("symlink xattrs are rejected"),
        fuser::Errno::ENOTSUP,
    );
}

#[test]
fn branch_creation_after_xattr_file_deletion_replays_inode_deletes() {
    let mut fixture = open_new();
    let inode_number = fixture.create_regular_file("deleted-xattr-file");
    let name = "user.eventfs.deleted";
    fixture
        .setxattr(inode_number, name, b"value", libc::XATTR_CREATE)
        .expect("xattr is created");
    fixture.unlink(INODE_ROOT, "deleted-xattr-file").expect("file is unlinked");
    let main = fixture.current_branch();
    let after_delete = branch_name("after-xattr-delete");

    fixture
        .create_branch(&after_delete, main.head_position())
        .expect("branch after deleted xattr file is created");
    fixture
        .switch_branch(&after_delete)
        .expect("branch after deleted xattr file is active");

    assert_fuse_errno(
        fixture
            .getxattr(inode_number, name)
            .expect_err("deleted file inode is absent on materialized branch"),
        fuser::Errno::ENOENT,
    );
    assert_fuse_errno(
        fixture
            .lookup(INODE_ROOT, "deleted-xattr-file")
            .expect_err("deleted file path is absent on materialized branch"),
        fuser::Errno::ENOENT,
    );
}

#[test]
fn write_state_rejects_invalid_inode_and_event_boundaries() {
    let counters = |next_inode_number: u64, last_event_sequence: u64| WriteState {
        next_inode_number,
        last_event_sequence,
        next_branch_identifier: 0,
        active_branch_identifier: 0,
        active_branch_head_sequence: 0,
        active_branch_head_ordinal: 0,
    };
    assert!(matches!(
        counters(INODE_FIRST_ALLOCATED - 1, 0).next_inode_number(),
        Err(FuseError::Integrity)
    ));
    assert_fuse_errno(
        counters(u64::MAX, 0)
            .next_inode_number()
            .expect_err("exhausted inode space is reported"),
        fuser::Errno::ENOSPC,
    );
    assert!(matches!(
        counters(INODE_FIRST_ALLOCATED, u64::MAX).next_event_sequence(),
        Err(FuseError::Integrity)
    ));
}

#[test]
fn readdirplus_returns_entries_with_attributes_and_honors_offsets() {
    let mut fixture = open_new();
    let directory = fixture.create_directory(INODE_ROOT, "directory");
    let file = fixture.create_regular_file("file");

    let entries = fixture.readdirplus(INODE_ROOT, 0).expect("readdirplus succeeds");
    assert_eq!(entries[0].name, b".");
    assert_eq!(entries[0].inode, INODE_ROOT);
    assert_eq!(entries[1].name, b"..");
    assert_eq!(entries[1].inode, INODE_ROOT);
    let described: Vec<(Vec<u8>, u64, StoredNodeKind)> = entries
        .into_iter()
        .map(|entry| (entry.name, entry.inode, entry.entry.attr.kind))
        .collect();
    assert!(described.contains(&(b"directory".to_vec(), directory, StoredNodeKind::Directory)));
    assert!(described.contains(&(b"file".to_vec(), file, StoredNodeKind::RegularFile)));

    assert_eq!(
        plus_names(
            fixture.readdirplus(INODE_ROOT, 2).expect("readdirplus with offset succeeds")
        ),
        vec![b"directory".to_vec(), b"file".to_vec()]
    );

    assert_fuse_errno(
        fixture.readdirplus(file, 0).expect_err("readdirplus rejects regular files"),
        fuser::Errno::ENOTDIR,
    );
    assert_fuse_errno(
        fixture.readdirplus(u64::MAX, 0).expect_err("readdirplus rejects missing inodes"),
        fuser::Errno::ENOENT,
    );
    assert_fuse_errno(
        fixture.readdir(file, 0).expect_err("readdir rejects regular files"),
        fuser::Errno::ENOTDIR,
    );
}

#[test]
fn payload_reads_and_index_listings_handle_empty_ranges_and_prefix_boundaries() {
    let mut fixture = open_new();
    let first = fixture.create_regular_file("payload-first");
    let first_create_sequence = fixture.last_event_sequence();
    let second = fixture.create_regular_file("payload-second");

    fixture.write_file(first, 0, b"payload").expect("file is written");
    let write_sequence = fixture.last_event_sequence();
    fixture
        .setxattr(second, "user.eventfs.only-second", b"value", libc::XATTR_CREATE)
        .expect("xattr is set on second file");

    let storage = &fixture.storage;
    assert_eq!(
        storage
            .read_file_event_payload_range(
                EventSequence::new(u64::MAX),
                FileEventPayloadPart::Written,
                0,
                16,
            )
            .expect("missing event payload reads as empty"),
        Vec::<u8>::new()
    );
    assert_eq!(
        storage
            .read_file_event_payload_range(
                first_create_sequence,
                FileEventPayloadPart::Written,
                0,
                16,
            )
            .expect("non-payload event payload reads as empty"),
        Vec::<u8>::new()
    );
    assert_eq!(
        storage
            .read_file_event_payload_range(write_sequence, FileEventPayloadPart::Written, 7, 16)
            .expect("payload range at end reads as empty"),
        Vec::<u8>::new()
    );

    assert!(storage
        .list_file_events(FileIdentifier::new(0), None, limit(10))
        .expect("missing active-branch file history lists as empty")
        .records()
        .is_empty());
    assert!(storage
        .list_branch_events(BranchIdentifier::new(0), None, limit(10))
        .expect("missing branch history lists as empty")
        .records()
        .is_empty());
    assert!(storage
        .list_branch_file_events(
            BranchIdentifier::new(0),
            FileIdentifier::new(0),
            None,
            limit(10),
        )
        .expect("missing branch file history lists as empty")
        .records()
        .is_empty());
    assert_eq!(
        storage
            .listxattr(first)
            .expect("xattr listing with only later keys succeeds")
            .bytes,
        Vec::<u8>::new()
    );
    assert_eq!(
        storage.listxattr(second).expect("xattr listing succeeds").bytes,
        b"user.eventfs.only-second\0".to_vec()
    );
}

#[test]
fn directory_readers_cover_offsets_stops_and_nested_prefix_boundaries() {
    let mut fixture = open_new();
    let directory = fixture.create_directory(INODE_ROOT, "nested");
    fixture
        .create_node(directory, "child", CreateNodeKind::RegularFile)
        .expect("nested file is created");

    let read = names(fixture.readdir(INODE_ROOT, 0).expect("root directory is read"));
    assert_eq!(read[0], b".");
    assert_eq!(read[1], b"..");
    assert!(read.contains(&b"nested".to_vec()));
    assert!(!read.contains(&b"child".to_vec()));

    let after_dot = fixture.readdir(INODE_ROOT, 1).expect("parent entry follows dot");
    assert_eq!(after_dot[0].name, b"..");
    let real = fixture.readdir(INODE_ROOT, 2).expect("real entries follow the parent");
    assert_eq!(real.len(), 1);
    assert_eq!(real[0].name, b"nested");

    let plus = plus_names(
        fixture.readdirplus(INODE_ROOT, 0).expect("root directory plus attributes is read"),
    );
    assert_eq!(plus[0], b".");
    assert_eq!(plus[1], b"..");
    assert!(plus.contains(&b"nested".to_vec()));

    let plus_after_dot = fixture.readdirplus(directory, 1).expect("parent entry follows dot");
    assert_eq!(plus_after_dot[0].name, b"..");
    assert_eq!(
        fixture.readdirplus(INODE_ROOT, 2).expect("real entries follow the parent").len(),
        1
    );
}

#[test]
fn node_symlink_xattr_and_access_validation_cover_user_errors() {
    let mut fixture = open_new();
    let file = fixture.create_regular_file("access-file");
    let attributes = fixture.storage.getattr(file).expect("file attributes are readable").attr;
    assert_eq!(attributes.perm, 0o666);
    assert_eq!(attributes.uid, 0);
    assert_eq!(attributes.gid, 0);
    assert_eq!(attributes.flags, 0);

    assert_fuse_errno(
        fixture
            .create_node(INODE_ROOT, "access-file", CreateNodeKind::RegularFile)
            .expect_err("duplicate file creation is rejected"),
        fuser::Errno::EEXIST,
    );

    let symlink = fixture
        .create_symlink(INODE_ROOT, "link", "access-file")
        .expect("symlink is created")
        .attr
        .ino;
    assert_eq!(
        fixture.storage.readlink(symlink).expect("symlink target is readable"),
        b"access-file"
    );
    assert_fuse_errno(
        fixture
            .create_symlink(INODE_ROOT, "link", "other")
            .expect_err("duplicate symlink creation is rejected"),
        fuser::Errno::EEXIST,
    );
    assert_fuse_errno(
        fixture.storage.readlink(file).expect_err("readlink rejects regular files"),
        fuser::Errno::EINVAL,
    );
    assert_fuse_errno(
        fixture
            .storage
            .open_file(INODE_ROOT, false, NOW, created_at())
            .expect_err("open_file rejects directories"),
        fuser::Errno::EISDIR,
    );
    assert_fuse_errno(
        fixture.read_file(INODE_ROOT, 0, 1).expect_err("read_file rejects directories"),
        fuser::Errno::EISDIR,
    );
    assert_fuse_errno(
        fixture.storage.opendir(file).expect_err("opendir rejects regular files"),
        fuser::Errno::ENOTDIR,
    );
    fixture
        .storage
        .access(file, 0, 0, libc::R_OK | libc::W_OK)
        .expect("access validates existing inode");
    assert_fuse_errno(
        fixture
            .storage
            .access(file, 1, 1, libc::X_OK)
            .expect_err("access rejects missing permission bits"),
        fuser::Errno::EACCES,
    );
    assert_fuse_errno(
        fixture
            .storage
            .access(u64::MAX, 0, 0, libc::R_OK)
            .expect_err("access rejects missing inodes"),
        fuser::Errno::ENOENT,
    );
    fixture
        .setxattr(file, "user.eventfs.access", b"value", libc::XATTR_CREATE)
        .expect("owner sets xattr");
    fixture.removexattr(file, "user.eventfs.access").expect("xattr removal succeeds");
    assert_fuse_errno(
        fixture
            .removexattr(file, "user.eventfs.missing")
            .expect_err("removexattr rejects missing attributes"),
        fuser::Errno::NO_XATTR,
    );
}

fn unchanged(request_uid: u32, request_gid: u32) -> SetattrMetadata {
    SetattrMetadata {
        request_uid,
        request_gid,
        mode: None,
        uid: None,
        gid: None,
        size: None,
        atime: None,
        mtime: None,
    }
}

#[test]
fn setattr_metadata_updates_permissions_and_ownership_with_events() {
    let mut fixture = open_new();
    let file = fixture
        .create_node_with_metadata(
            INODE_ROOT,
            "metadata-file",
            CreateNodeKind::RegularFile,
            CreateNodeMetadata { uid: 10, gid: 20, mode: 0o640, umask: 0 },
        )
        .expect("file with metadata is created")
        .attr
        .ino;
    let created = fixture.storage.getattr(file).expect("created metadata is readable").attr;
    assert_eq!(created.uid, 10);
    assert_eq!(created.gid, 20);
    assert_eq!(created.perm, 0o640);

    let before_mode_change = fixture.last_event_sequence();
    let changed = fixture
        .setattr_metadata(file, SetattrMetadata { mode: Some(0o600), ..unchanged(10, 20) })
        .expect("owner updates file mode")
        .attr;
    assert_eq!(changed.uid, 10);
    assert_eq!(changed.gid, 20);
    assert_eq!(changed.perm, 0o600);
    let mode_change_sequence = fixture.last_event_sequence();
    assert!(mode_change_sequence > before_mode_change);
    assert_eq!(
        fixture
            .storage
            .get_event(mode_change_sequence)
            .expect("metadata event is readable")
            .expect("metadata event exists")
            .kind(),
        EventKind::MetadataChanged,
    );

    fixture
        .setattr_metadata(file, SetattrMetadata { mode: Some(0o600), ..unchanged(10, 20) })
        .expect("unchanged metadata is accepted");
    assert_eq!(fixture.last_event_sequence(), mode_change_sequence);

    assert_fuse_errno(
        fixture
            .setattr_metadata(file, SetattrMetadata { uid: Some(11), ..unchanged(10, 20) })
            .expect_err("non-root owner cannot change uid"),
        fuser::Errno::EPERM,
    );

    let suid = fixture
        .setattr_metadata(file, SetattrMetadata { mode: Some(0o6755), ..unchanged(0, 0) })
        .expect("root sets setuid and setgid mode bits")
        .attr;
    assert_eq!(suid.perm, 0o6755);

    let chowned = fixture
        .setattr_metadata(
            file,
            SetattrMetadata { uid: Some(100), gid: Some(200), ..unchanged(0, 0) },
        )
        .expect("root updates ownership")
        .attr;
    assert_eq!(chowned.uid, 100);
    assert_eq!(chowned.gid, 200);
    assert_eq!(chowned.perm, 0o755);
}

#[test]
fn rename_remove_and_link_edges_cover_user_errors() {
    let mut fixture = open_new();

    let parent_file = fixture.create_regular_file("not-a-directory-parent");
    assert_fuse_errno(
        fixture
            .create_node(parent_file, "child", CreateNodeKind::RegularFile)
            .expect_err("create rejects non-directory parents"),
        fuser::Errno::ENOTDIR,
    );

    fixture.create_regular_file("no-replace-source");
    fixture.create_regular_file("no-replace-destination");
    assert_fuse_errno(
        fixture
            .rename(INODE_ROOT, "no-replace-source", INODE_ROOT, "no-replace-destination", true)
            .expect_err("rename noreplace rejects existing destinations"),
        fuser::Errno::EEXIST,
    );

    let ancestor = fixture.create_directory(INODE_ROOT, "ancestor");
    let descendant = fixture.create_directory(ancestor, "descendant");
    assert_fuse_errno(
        fixture
            .rename(INODE_ROOT, "ancestor", descendant, "moved", false)
            .expect_err("rename rejects moving a directory into itself"),
        fuser::Errno::EINVAL,
    );

    fixture.create_regular_file("file-over-directory");
    fixture.create_directory(INODE_ROOT, "directory-target");
    assert_fuse_errno(
        fixture
            .rename(INODE_ROOT, "file-over-directory", INODE_ROOT, "directory-target", false)
            .expect_err("rename rejects file over directory"),
        fuser::Errno::EISDIR,
    );

    fixture.create_directory(INODE_ROOT, "directory-over-file");
    fixture.create_regular_file("file-target");
    assert_fuse_errno(
        fixture
            .rename(INODE_ROOT, "directory-over-file", INODE_ROOT, "file-target", false)
            .expect_err("rename rejects directory over file"),
        fuser::Errno::ENOTDIR,
    );

    let nonempty_target = fixture.create_directory(INODE_ROOT, "nonempty-target");
    fixture
        .create_node(nonempty_target, "child", CreateNodeKind::RegularFile)
        .expect("target child is created");
    fixture.create_directory(INODE_ROOT, "empty-directory-source");
    assert_fuse_errno(
        fixture
            .rename(INODE_ROOT, "empty-directory-source", INODE_ROOT, "nonempty-target", false)
            .expect_err("rename rejects replacing nonempty directories"),
        fuser::Errno::ENOTEMPTY,
    );

    let same_inode = fixture.create_regular_file("same-inode");
    fixture
        .hard_link(same_inode, INODE_ROOT, "same-inode-link")
        .expect("hard link to same inode is created");
    fixture
        .rename(INODE_ROOT, "same-inode", INODE_ROOT, "same-inode-link", false)
        .expect("renaming over another link to the same inode succeeds");

    let linked_destination = fixture.create_regular_file("linked-destination");
    fixture
        .hard_link(linked_destination, INODE_ROOT, "linked-destination-survivor")
        .expect("destination hard link is created");
    fixture.create_regular_file("linked-replacement-source");
    fixture
        .rename(
            INODE_ROOT,
            "linked-replacement-source",
            INODE_ROOT,
            "linked-destination",
            false,
        )
        .expect("rename over hard-linked destination succeeds");
    fixture
        .lookup(INODE_ROOT, "linked-destination-survivor")
        .expect("surviving hard link remains addressable");

    assert_fuse_errno(
        fixture
            .hard_link(INODE_ROOT, INODE_ROOT, "root-hard-link")
            .expect_err("hard links to directories are rejected"),
        fuser::Errno::EPERM,
    );
    let hard_link_source = fixture.create_regular_file("hard-link-source");
    fixture.create_regular_file("hard-link-duplicate");
    assert_fuse_errno(
        fixture
            .hard_link(hard_link_source, INODE_ROOT, "hard-link-duplicate")
            .expect_err("hard links reject existing names"),
        fuser::Errno::EEXIST,
    );
    assert_fuse_errno(
        fixture
            .write_file(INODE_ROOT, 0, b"nope")
            .expect_err("write rejects directories"),
        fuser::Errno::EISDIR,
    );

    let removable_directory = fixture.create_directory(INODE_ROOT, "removable-directory");
    fixture
        .create_node(removable_directory, "child", CreateNodeKind::RegularFile)
        .expect("removable child is created");
    assert_fuse_errno(
        fixture
            .rmdir(INODE_ROOT, "hard-link-source")
            .expect_err("rmdir rejects regular files"),
        fuser::Errno::ENOTDIR,
    );
    assert_fuse_errno(
        fixture
            .unlink(INODE_ROOT, "removable-directory")
            .expect_err("unlink rejects directories"),
        fuser::Errno::EISDIR,
    );
    assert_fuse_errno(
        fixture
            .rmdir(INODE_ROOT, "removable-directory")
            .expect_err("rmdir rejects nonempty directories"),
        fuser::Errno::ENOTEMPTY,
    );
    fixture.unlink(removable_directory, "child").expect("nested child is removed");
    fixture
        .rmdir(INODE_ROOT, "removable-directory")
        .expect("empty directory is removed");

    let scratch_name = branch_name("deleted-switch-target");
    let main = fixture.current_branch();
    fixture
        .create_branch(&scratch_name, main.head_position())
        .expect("scratch branch is created");
    fixture.delete_branch(&scratch_name).expect("scratch branch is deleted");
    assert!(matches!(
        fixture.switch_branch(&scratch_name),
        Err(FilesystemError::Integrity)
    ));
}

#[test]
fn allocator_branch_and_history_index_corruption_guards_fail_closed() {
    let mut fixture = open_new();
    let first = fixture.create_regular_file("corrupt-first");
    let original_write_state = fixture.storage.write_state;

    fixture.storage.write_state.next_inode_number = first;
    assert!(matches!(
        fixture.create_node(INODE_ROOT, "colliding-file", CreateNodeKind::RegularFile),
        Err(FuseError::Integrity)
    ));
    assert!(matches!(
        fixture.create_symlink(INODE_ROOT, "colliding-link", "target"),
        Err(FuseError::Integrity)
    ));
    fixture.storage.write_state.next_inode_number = original_write_state.next_inode_number;

    let main = fixture.current_branch();
    let duplicate_name = branch_name("duplicate");
    fixture
        .create_branch(&duplicate_name, main.head_position())
        .expect("branch is created");
    assert!(matches!(
        fixture.create_branch(&duplicate_name, main.head_position()),
        Err(FilesystemError::Integrity)
    ));
    let before_branch_corruption = fixture.storage.write_state;
    fixture.storage.write_state.next_branch_identifier = main.branch_identifier().get();
    assert!(matches!(
        fixture.create_branch(&branch_name("colliding-branch"), main.head_position()),
        Err(FilesystemError::Integrity)
    ));
    fixture.storage.write_state.next_branch_identifier = u64::MAX;
    assert!(matches!(
        fixture.create_branch(&branch_name("overflow-branch"), main.head_position()),
        Err(FilesystemError::Integrity)
    ));
    fixture.storage.write_state.next_branch_identifier =
        before_branch_corruption.next_branch_identifier;

    fixture.create_regular_file("corrupt-second");
    let second_sequence = fixture.last_event_sequence();
    let second_ordinal = fixture
        .storage
        .get_event(second_sequence)
        .expect("second create event lookup succeeds")
        .expect("second create event exists")
        .branch_position()
        .expect("second create event has branch position")
        .ordinal();
    fixture.storage.database.branch_file_events.insert(
        encode_branch_file_position_key(main.branch_identifier().get(), first, second_ordinal),
        encode_u64(second_sequence.get()),
    );
    assert!(matches!(
        fixture.storage.list_branch_file_events(
            main.branch_identifier(),
            FileIdentifier::new(first),
            None,
            limit(10),
        ),
        Err(FilesystemError::Integrity)
    ));

    let mut fixture = open_new();
    fixture.create_regular_file("branch-event-corrupt");
    let create_sequence = fixture.last_event_sequence();
    let main = fixture.current_branch();
    let bad_ordinal = main.head_position().ordinal() + 1;
    fixture.storage.database.branch_events.insert(
        encode_branch_position_key(main.branch_identifier().get(), bad_ordinal),
        encode_u64(create_sequence.get()),
    );
    assert!(matches!(
        fixture.storage.list_branch_events(main.branch_identifier(), None, limit(10)),
        Err(FilesystemError::Integrity)
    ));

    let mut fixture = open_new();
    fixture.storage.database.branches.insert(b"short".to_vec(), None);
    let head = fixture.current_branch().head_position();
    assert!(matches!(
        fixture.create_branch(&branch_name("bad-branch-key"), head),
        Err(FilesystemError::Integrity)
    ));
}

#[test]
fn branch_and_listing_cursor_edges_reject_invalid_or_exhausted_cursors() {
    let mut fixture = open_new();

    assert!(fixture
        .storage
        .list_events(Some(EventSequence::new(u64::MAX)), limit(2))
        .expect("exhausted event cursor lists as empty")
        .records()
        .is_empty());
    assert!(fixture
        .storage
        .list_branches(
            Some(BranchIdentifier::new(u64::MAX)),
            BranchPageLimit::new(2).expect("limit is valid")
        )
        .expect("exhausted branch cursor lists as empty")
        .records()
        .is_empty());

    let file = fixture.create_regular_file("cursor-file");
    let main = fixture.current_branch();
    assert!(fixture
        .storage
        .list_file_events(
            FileIdentifier::new(file),
            Some(EventSequence::new(u64::MAX)),
            limit(2)
        )
        .expect("exhausted active file cursor lists as empty")
        .records()
        .is_empty());

    let wrong_branch_position =
        BranchPosition::new(BranchIdentifier::new(main.branch_identifier().get() + 1), 0);
    assert!(matches!(
        fixture.storage.list_branch_events(
            main.branch_identifier(),
            Some(wrong_branch_position),
            limit(2)
        ),
        Err(FilesystemError::Integrity)
    ));
    assert!(matches!(
        fixture.storage.list_branch_file_events(
            main.branch_identifier(),
            FileIdentifier::new(file),
            Some(wrong_branch_position),
            limit(2),
        ),
        Err(FilesystemError::Integrity)
    ));
    assert!(matches!(
        fixture.storage.list_branch_events(
            main.branch_identifier(),
            Some(BranchPosition::new(main.branch_identifier(), u64::MAX)),
            limit(2),
        ),
        Err(FilesystemError::Integrity)
    ));

    assert!(matches!(
        fixture.delete_branch(main.name()),
        Err(FilesystemError::Integrity)
    ));
    let deleted_name = branch_name("deleted-source");
    let deleted = fixture
        .create_branch(&deleted_name, main.head_position())
        .expect("branch is created");
    fixture.delete_branch(&deleted_name).expect("inactive branch is deleted");
    assert!(matches!(
        fixture.create_branch(&branch_name("from-deleted"), deleted.head_position()),
        Err(FilesystemError::Integrity)
    ));
}

#[test]
fn metadata_reads_reject_missing_malformed_and_non_utf8_values() {
    let mut fixture = open_new();

    fixture.storage.database.metadata.remove(&volume_name_key_bytes());
    assert_eq!(
        read_metadata_string(&fixture.storage.database.metadata, &volume_name_key_bytes()),
        Err(FilesystemError::Integrity)
    );

    fixture.write_metadata(volume_name_key_bytes(), vec![0xff]);
    assert_eq!(
        read_metadata_string(&fixture.storage.database.metadata, &volume_name_key_bytes()),
        Err(FilesystemError::Integrity)
    );

    fixture.write_metadata(next_inode_number_key_bytes(), vec![1, 2, 3]);
    assert_eq!(
        read_metadata_u64(&fixture.storage.database.metadata, &next_inode_number_key_bytes()),
        Err(FilesystemError::Integrity)
    );

    assert!(matches!(reopen(fixture), Err(FilesystemError::Integrity)));
}

fn test_inode(inode_number: u64, kind: StoredNodeKind) -> StoredInode {
    let time = StoredTime { seconds: 0, nanoseconds: 0 };
    StoredInode {
        kind,
        size: 0,
        nlink: if kind == StoredNodeKind::Directory { 2 } else { 1 },
        uid: 0,
        gid: 0,
        mode: if kind == StoredNodeKind::Directory { INODE_MODE_ROOT } else { 0o666 },
        rdev: 0,
        atime: time,
        mtime: time,
        ctime: time,
        parent: INODE_ROOT,
        name: if inode_number == INODE_ROOT {
            Vec::new()
        } else {
            format!("inode-{inode_number}").into_bytes()
        },
        symlink_target: None,
        content_manifest_identifier: None,
    }
}

#[test]
fn namespace_trie_round_trips_and_splits_leaf_nodes() {
    let mut fixture = open_new();
    let mut state = MaterializedBranchState::new();
    for inode_number in 1..=40 {
        state.inodes.insert(
            encode_namespace_inode_key(inode_number),
            test_inode(inode_number, StoredNodeKind::RegularFile),
        );
    }
    state.directory_entries.insert(
        encode_namespace_pair_key(INODE_ROOT, b"entry"),
        StoredDirectoryEntry { inode: 2, kind: StoredNodeKind::RegularFile },
    );
    state
        .extended_attributes
        .insert(encode_namespace_pair_key(2, b"user.eventfs.test"), b"value".to_vec());

    let mut batch = Batch::new();
    let (identifier, _) = put_namespace_state_in_database(&mut batch.namespace_nodes, &state)
        .expect("namespace trie is written");
    fixture.storage.database.write(batch);

    assert_eq!(
        namespace_state_for_identifier_in_database(
            &fixture.storage.database.namespace_nodes,
            &identifier
        )
        .expect("namespace trie is readable"),
        state
    );
    assert!(fixture.storage.database.namespace_nodes.len() > 4);
}

#[test]
fn namespace_mutation_updates_multiple_entries_in_one_map() {
    let mut fixture = open_new();
    let branch = fixture.current_branch();
    let root = branch_root_at_position(&fixture.storage.database, branch.head_position())
        .expect("branch root is readable")
        .clone();
    let mut mutation = StoredMutation::default();
    mutation.put_inode(INODE_ROOT, &test_inode(INODE_ROOT, StoredNodeKind::Directory));
    mutation.put_inode(2, &test_inode(2, StoredNodeKind::RegularFile));

    let mut batch = Batch::new();
    let (identifier, _) = put_namespace_mutation_in_database(
        &fixture.storage.database.namespace_nodes,
        &mut batch.namespace_nodes,
        &root.namespace_identifier,
        &mutation,
    )
    .expect("namespace mutation is written");
    fixture.storage.database.write(batch);

    let nodes = &fixture.storage.database.namespace_nodes;
    let old_state = namespace_state_for_identifier_in_database(nodes, &root.namespace_identifier)
        .expect("old namespace remains readable");
    let new_state = namespace_state_for_identifier_in_database(nodes, &identifier)
        .expect("new namespace is readable");
    assert!(old_state.inode(2).is_none());
    assert_eq!(
        new_state.inode(2).expect("new inode exists").kind,
        StoredNodeKind::RegularFile
    );
}

#[test]
fn snapshot_and_payload_manifest_corruption_paths_are_rejected() {
    let mut fixture = open_new();
    let inode_number = fixture.create_regular_file("manifest-corruption");
    fixture.write_file(inode_number, 0, b"abcdef").expect("file is written");
    let sequence = fixture.last_event_sequence();
    let snapshot = fixture
        .storage
        .file_snapshot_at_or_before(FileIdentifier::new(inode_number), sequence)
        .expect("snapshot lookup succeeds")
        .expect("snapshot exists");

    assert_eq!(
        fixture
            .storage
            .read_file_event_payload_range(sequence, FileEventPayloadPart::Written, 2, 3)
            .expect("payload slice is readable"),
        b"cde"
    );
    assert_eq!(
        fixture
            .storage
            .read_file_event_payload_range(sequence, FileEventPayloadPart::Overwritten, 0, 3)
            .expect("missing payload part reads as empty"),
        Vec::<u8>::new()
    );
    assert_eq!(
        fixture
            .storage
            .read_file_snapshot_range(&snapshot, snapshot.file_size(), 16)
            .expect("snapshot range at EOF reads as empty"),
        Vec::<u8>::new()
    );

    fixture.storage.database.event_payload_manifests.insert(
        encode_event_payload_manifest_key(sequence.get(), EVENT_PAYLOAD_PART_WRITTEN),
        None,
    );
    assert!(matches!(
        fixture.storage.read_file_event_payload_range(
            sequence,
            FileEventPayloadPart::Written,
            0,
            1
        ),
        Err(FilesystemError::Integrity)
    ));

    fixture.storage.database.file_snapshot_manifests.insert(
        encode_file_snapshot_manifest_key(
            snapshot.branch_position().branch_identifier().get(),
            snapshot.file_identifier().get(),
            snapshot.branch_position().ordinal(),
        ),
        None,
    );
    assert!(matches!(
        fixture.storage.read_file_snapshot_range(&snapshot, 0, 1),
        Err(FilesystemError::Integrity)
    ));
}

#[test]
fn earlier_points_can_be_restored() {
    let mut fixture = open_new();
    let inode_number = fixture.create_regular_file("document");
    fixture.write_file(inode_number, 0, b"first draft").expect("draft is written");
    let draft = fixture.current_branch().head_position();
    fixture.write_file(inode_number, 0, b"final").expect("text is overwritten");
    fixture.setattr_metadata(inode_number, resized_to(5)).expect("text is cut off");
    fixture.unlink(INODE_ROOT, "document").expect("document is removed");

    let restored = branch_name("restored");
    fixture.create_branch(&restored, draft).expect("branch starts at the draft");
    fixture.switch_branch(&restored).expect("restored branch is active");
    assert_eq!(
        fixture.lookup(INODE_ROOT, "document").expect("document is back").attr.ino,
        inode_number
    );
    assert_eq!(
        fixture.read_file(inode_number, 0, 64).expect("draft is readable"),
        b"first draft"
    );

    fixture.write_file(inode_number, 6, b"version").expect("branch is written");
    assert_eq!(
        fixture.read_file(inode_number, 0, 64).expect("branch is readable"),
        b"first version"
    );
    fixture.switch_branch(&branch_name("main")).expect("main is active");
    assert_fuse_errno(
        fixture.lookup(INODE_ROOT, "document").expect_err("main keeps its own state"),
        fuser::Errno::ENOENT,
    );
}

#[test]
fn growing_a_file_reads_as_zeros_and_writing_past_the_end_leaves_a_hole() {
    let mut fixture = open_new();
    let inode_number = fixture.create_regular_file("sparse");
    assert_eq!(fixture.read_file(inode_number, 0, 8).expect("empty file is read"), b"");

    fixture.write_file(inode_number, 4, b"tail").expect("write past the end succeeds");
    assert_eq!(
        fixture.read_file(inode_number, 0, 16).expect("hole reads as zeros"),
        b"\0\0\0\0tail"
    );
    fixture.setattr_metadata(inode_number, resized_to(6)).expect("file is cut off");
    fixture.setattr_metadata(inode_number, resized_to(9)).expect("file is extended");
    assert_eq!(
        fixture.read_file(inode_number, 0, 16).expect("extended file is read"),
        b"\0\0\0\0ta\0\0\0"
    );
    let (answer, prepared) = fixture
        .storage
        .write_file_with_metadata(inode_number, 0, b"end", true, true, NOW, created_at())
        .expect("append is prepared");
    assert_eq!(answer, FuseWrite { written: 3 });
    fixture.storage.finish_commit(prepared);
    assert_eq!(
        fixture.read_file(inode_number, 6, 16).expect("appended bytes are read"),
        b"\0\0\0end"
    );
    assert_fuse_errno(
        fixture
            .write_file(inode_number, u64::MAX, b"far")
            .expect_err("writes past the largest offset are rejected"),
        fuser::Errno::EFBIG,
    );
}

#[test]
fn opening_with_truncation_empties_a_file() {
    let mut fixture = open_new();
    let inode_number = fixture.create_regular_file("truncated");
    fixture.write_file(inode_number, 0, b"contents").expect("file is written");

    assert!(fixture
        .storage
        .open_file(inode_number, false, NOW, created_at())
        .expect("plain open succeeds")
        .is_none());
    let prepared = fixture
        .storage
        .open_file(inode_number, true, NOW, created_at())
        .expect("truncating open succeeds")
        .expect("truncating open commits");
    fixture.storage.finish_commit(prepared);
    assert_eq!(fixture.storage.getattr(inode_number).expect("file is there").attr.size, 0);
    assert_eq!(
        fixture
            .storage
            .read_file_event_payload_range(
                fixture.last_event_sequence(),
                FileEventPayloadPart::Overwritten,
                0,
                64,
            )
            .expect("lost bytes are readable"),
        b"contents"
    );
    assert!(fixture
        .storage
        .open_file(inode_number, true, NOW, created_at())
        .expect("open of an empty file succeeds")
        .is_none());
}

#[test]
fn links_count_names_and_the_last_name_deletes() {
    let mut fixture = open_new();
    let inode_number = fixture.create_regular_file("one");
    let linked = fixture.hard_link(inode_number, INODE_ROOT, "two").expect("link is created");
    assert_eq!(linked.attr.ino, inode_number);
    assert_eq!(linked.attr.nlink, 2);

    fixture.unlink(INODE_ROOT, "one").expect("first name is removed");
    assert_eq!(fixture.lookup(INODE_ROOT, "two").expect("second name stays").attr.nlink, 1);
    fixture.unlink(INODE_ROOT, "two").expect("second name is removed");
    assert_fuse_errno(
        fixture.storage.getattr(inode_number).expect_err("inode is gone"),
        fuser::Errno::ENOENT,
    );
}

#[test]
fn directories_count_their_subdirectories() {
    let mut fixture = open_new();
    let parent = fixture.create_directory(INODE_ROOT, "parent");
    let other = fixture.create_directory(INODE_ROOT, "other");
    fixture.create_directory(parent, "child");
    let links = |fixture: &Fixture, inode: u64| {
        fixture.storage.getattr(inode).expect("directory is there").attr.nlink
    };
    assert_eq!(links(&fixture, INODE_ROOT), 4);
    assert_eq!(links(&fixture, parent), 3);

    fixture.rename(parent, "child", other, "moved", false).expect("directory is moved");
    assert_eq!(links(&fixture, parent), 2);
    assert_eq!(links(&fixture, other), 3);
    assert_eq!(
        fixture.lookup(other, "moved").expect("moved directory is found").attr.kind,
        StoredNodeKind::Directory
    );
    fixture.rmdir(other, "moved").expect("moved directory is removed");
    assert_eq!(links(&fixture, other), 2);
}

#[test]
fn events_tell_paths_kinds_and_parents() {
    let mut fixture = open_new();
    let directory = fixture.create_directory(INODE_ROOT, "docs");
    let (entry, prepared) = fixture
        .storage
        .create_node_with_metadata(
            directory,
            b"note",
            CreateNodeKind::RegularFile,
            CreateNodeMetadata { uid: 7, gid: 8, mode: 0o666, umask: 0o022 },
            NOW,
            created_at(),
        )
        .expect("file is prepared");
    assert_eq!(entry.attr.perm, 0o644);
    assert_eq!(entry.attr.mtime, NOW);
    fixture.storage.finish_commit(prepared);

    let event = fixture
        .storage
        .get_event(fixture.last_event_sequence())
        .expect("event is readable")
        .expect("event exists");
    assert_eq!(event.kind(), EventKind::FileCreated);
    assert_eq!(event.path(), Some("/docs/note"));
    assert_eq!(event.file_identifier(), Some(FileIdentifier::new(entry.attr.ino)));
    assert_eq!(event.first_parent_sequence(), Some(EventSequence::new(1)));
    assert_eq!(
        event.branch_position(),
        Some(BranchPosition::new(BranchIdentifier::new(BRANCH_IDENTIFIER_INITIAL), 2))
    );
}

#[test]
fn attribute_flags_match_the_platform() {
    assert_eq!(XATTR_CREATE, libc::XATTR_CREATE);
    assert_eq!(XATTR_REPLACE, libc::XATTR_REPLACE);
}

#[test]
fn a_new_filesystem_has_a_name_a_root_and_a_branch() {
    let fixture = open_new();
    assert_eq!(fixture.storage.volume_name().expect("volume has a name"), "eventfs");
    assert_eq!(fixture.current_branch().name().as_str(), "main");
    let root = fixture.storage.getattr(INODE_ROOT).expect("root is there").attr;
    assert_eq!(root.kind, StoredNodeKind::Directory);
    assert_eq!(root.perm, INODE_MODE_ROOT);
    assert_eq!(root.nlink, 2);
    let event = fixture
        .storage
        .get_event(EventSequence::new(EVENT_SEQUENCE_INITIAL))
        .expect("first event is readable")
        .expect("first event exists");
    assert_eq!(event.kind(), EventKind::FilesystemInitialized);
}

#[test]
fn missing_tables_are_rejected_on_open() {
    let fixture = open_new();
    assert!(matches!(
        open_existing_database(fixture.storage.database, &vec!["filesystem_metadata".to_owned()]),
        Err(FilesystemError::Integrity)
    ));
}

#[test]
fn deleted_branch_names_are_not_given_again() {
    let mut fixture = open_new();
    let head = fixture.current_branch().head_position();
    let name = branch_name("once");
    fixture.create_branch(&name, head).expect("branch is created");
    fixture.delete_branch(&name).expect("branch is deleted");
    assert!(matches!(fixture.create_branch(&name, head), Err(FilesystemError::Integrity)));
    let listed = fixture
        .storage
        .list_branches(None, BranchPageLimit::new(5).expect("limit is valid"))
        .expect("branches are listed");
    assert_eq!(
        listed.records().iter().map(BranchRecord::status).collect::<Vec<_>>(),
        vec![BranchStatus::Open, BranchStatus::Deleted]
    );
}

#[test]
fn directory_listings_resume_after_as_many_entries() {
    let mut fixture = open_new();
    for name in ["c", "a", "b"] {
        fixture.create_regular_file(name);
    }
    let names = |offset: u64| -> Vec<String> {
        let entries = fixture.storage.readdir(INODE_ROOT, offset).expect("directory is listed");
        entries.iter().map(|entry| String::from_utf8_lossy(&entry.name).into_owned()).collect()
    };
    let all = names(0);
    assert_eq!(all, [".", "..", "a", "b", "c"]);
    for offset in 0..=all.len() {
        assert_eq!(names(offset as u64), all[offset..]);
    }
    assert!(names(9).is_empty());
}

#[test]
fn attributes_of_deleted_files_are_never_seen_again() {
    let mut fixture = open_new();
    let name = "user.eventfs.left";
    let kept = fixture.create_regular_file("kept");
    fixture.setxattr(kept, name, b"kept", 0).expect("attribute is set");
    let deleted = fixture.create_regular_file("deleted");
    fixture.setxattr(deleted, name, b"left", 0).expect("attribute is set");
    fixture.unlink(INODE_ROOT, "deleted").expect("file is removed");
    let head = fixture.current_branch().head_position();

    let mut fixture = reopen(fixture).expect("storage reopens");
    assert_fuse_errno(
        fixture.getxattr(deleted, name).expect_err("deleted file is gone"),
        fuser::Errno::ENOENT,
    );
    assert_eq!(fixture.getxattr(kept, name).expect("attribute stays"), b"kept");
    let created = fixture.create_regular_file("created");
    assert!(created > deleted);
    assert_fuse_errno(
        fixture.getxattr(created, name).expect_err("new file has no attributes"),
        fuser::Errno::NO_XATTR,
    );

    let fork = branch_name("fork");
    fixture.create_branch(&fork, head).expect("branch is created");
    fixture.switch_branch(&fork).expect("branch is active");
    assert_eq!(fixture.getxattr(kept, name).expect("attribute is forked"), b"kept");
    fixture
        .lookup(INODE_ROOT, "deleted")
        .expect_err("deleted file is not on the fork");
}

#[test]
fn switching_away_and_back_leaves_a_branch_as_it_was() {
    let mut fixture = open_new();
    let inode_number = fixture.create_regular_file("shared");
    fixture.write_file(inode_number, 0, b"main").expect("file is written");
    fixture.setxattr(inode_number, "user.eventfs.on", b"main", 0).expect("attribute is set");
    let home = fixture.current_branch();
    let before = active_branch_state(&fixture);

    let other = branch_name("other");
    fixture.create_branch(&other, home.head_position()).expect("branch is created");
    fixture.switch_branch(&other).expect("other branch is active");
    fixture.write_file(inode_number, 0, b"else").expect("other branch is written");
    fixture.unlink(INODE_ROOT, "shared").expect("other branch loses the file");
    fixture.create_directory(INODE_ROOT, "more");

    fixture.switch_branch(home.name()).expect("first branch is active again");
    assert_eq!(active_branch_state(&fixture), before);
    assert_eq!(fixture.read_file(inode_number, 0, 8).expect("file is read"), b"main");
}

#[test]
fn snapshots_are_found_again_at_their_own_positions() {
    let mut fixture = open_new();
    let inode_number = fixture.create_regular_file("snapshot");
    let file = FileIdentifier::new(inode_number);
    fixture.write_file(inode_number, 0, b"abcdef").expect("file is written");
    fixture.create_directory(INODE_ROOT, "later");
    let branch = fixture.current_branch();
    let storage = &fixture.storage;

    let snapshot = storage
        .file_snapshot_on_branch_at_or_before(branch.branch_identifier(), file, branch.head_position())
        .expect("snapshot is looked up")
        .expect("snapshot is found");
    assert_ne!(snapshot.branch_position(), branch.head_position());
    assert_eq!(
        storage.file_snapshot_on_branch_at_or_before(
            branch.branch_identifier(),
            file,
            snapshot.branch_position(),
        ),
        Ok(Some(snapshot))
    );
    assert_eq!(
        storage.file_snapshot_on_branch_at_or_before(
            BranchIdentifier::new(branch.branch_identifier().get() + 1),
            file,
            snapshot.branch_position(),
        ),
        Err(FilesystemError::Integrity)
    );

    let whole = storage.read_file_snapshot_range(&snapshot, 0, 64).expect("whole is read");
    assert_eq!(whole, b"abcdef");
    for offset in 0..8_u64 {
        for length in 0..8_u64 {
            let start = whole.len().min(offset as usize);
            let end = whole.len().min((offset + length) as usize);
            assert_eq!(
                storage
                    .read_file_snapshot_range(&snapshot, offset, length)
                    .expect("range is read"),
                &whole[start..end]
            );
        }
    }
}

#[test]
fn events_of_a_file_are_the_same_however_they_are_listed() {
    let mut fixture = open_new();
    let first = fixture.create_regular_file("first");
    let second = fixture.create_regular_file("second");
    for round in 0..4_u64 {
        fixture.write_file(first, round, b"one").expect("first file is written");
        fixture.write_file(second, round, b"two").expect("second file is written");
    }
    fixture.rename(INODE_ROOT, "first", INODE_ROOT, "moved", false).expect("file is renamed");
    let branch = fixture.current_branch().branch_identifier();
    for inode_number in [first, second] {
        let file = FileIdentifier::new(inode_number);
        let by_both = collect_all_branch_file_events(&fixture.storage, branch, file);
        let picked: Vec<EventRecord> = collect_all_branch_events(&fixture.storage, branch)
            .into_iter()
            .filter(|record| record.file_identifier() == Some(file))
            .collect();
        assert!(by_both.len() >= 5);
        assert_eq!(collect_all_file_events(&fixture.storage, file), by_both);
        assert_eq!(picked, by_both);
    }
}

#[test]
fn renames_take_a_link_from_what_they_replace() {
    let mut fixture = open_new();
    let moved = fixture.create_regular_file("moved");
    let replaced = fixture.create_regular_file("replaced");
    fixture.hard_link(replaced, INODE_ROOT, "other").expect("link is created");
    let links = |fixture: &Fixture, inode: u64| {
        fixture.storage.getattr(inode).map(|entry| entry.attr.nlink)
    };
    assert_eq!(links(&fixture, replaced), Ok(2));

    fixture.rename(INODE_ROOT, "moved", INODE_ROOT, "replaced", false).expect("file is replaced");
    assert_eq!(links(&fixture, replaced), Ok(1));
    assert_eq!(links(&fixture, moved), Ok(1));
    fixture.rename(INODE_ROOT, "replaced", INODE_ROOT, "other", false).expect("file is replaced");
    assert_fuse_errno(
        links(&fixture, replaced).expect_err("file without names is gone"),
        fuser::Errno::ENOENT,
    );

    fixture.hard_link(moved, INODE_ROOT, "twin").expect("link is created");
    fixture.rename(INODE_ROOT, "other", INODE_ROOT, "twin", false).expect("name joins its twin");
    assert_eq!(links(&fixture, moved), Ok(2));
    fixture.lookup(INODE_ROOT, "other").expect_err("old name is gone");
}

#[test]
fn only_other_open_branches_are_deleted() {
    let mut fixture = open_new();
    let main = branch_name("main");
    let side = branch_name("side");
    let head = fixture.current_branch().head_position();
    fixture.create_branch(&side, head).expect("branch is created");
    fixture.delete_branch(&main).expect_err("first branch stays");
    fixture.switch_branch(&side).expect("side branch is active");
    fixture.delete_branch(&side).expect_err("active branch stays");
    fixture.delete_branch(&main).expect_err("first branch stays");
    fixture.switch_branch(&main).expect("first branch is active");
    fixture.delete_branch(&side).expect("side branch is deleted");
    fixture.delete_branch(&side).expect_err("deleted branch is not deleted again");
    fixture.switch_branch(&side).expect_err("deleted branch is not active again");
}

#[test]
fn sequences_are_ordered_as_their_numbers() {
    for (low, high) in [(0, 1), (1, 2), (254, 256), (u64::MAX - 1, u64::MAX)] {
        assert!(EventSequence::new(low) < EventSequence::new(high));
        assert!(EventSequence::new(high) > EventSequence::new(low));
        assert!(EventSequence::new(low) <= EventSequence::new(low));
        assert_eq!(
            EventSequence::new(low).cmp(&EventSequence::new(high)),
            std::cmp::Ordering::Less
        );
    }
}

/// The names in the root directory and the contents of the regular files among them.
fn shown(fixture: &Fixture) -> Vec<(Vec<u8>, Option<Vec<u8>>)> {
    fixture
        .readdirplus(INODE_ROOT, 0)
        .expect("root directory is listed")
        .into_iter()
        .map(|entry| {
            let contents = fixture.read_file(entry.entry.attr.ino, 0, 4096).ok();
            (entry.name, contents)
        })
        .collect()
}

#[test]
fn every_committed_point_can_be_forked_and_shows_what_it_showed() {
    let mut fixture = open_new();
    let mut points = vec![(fixture.current_branch().head_position(), shown(&fixture))];
    let first = fixture.create_regular_file("first");
    points.push((fixture.current_branch().head_position(), shown(&fixture)));
    fixture.write_file(first, 0, b"one").expect("file is written");
    points.push((fixture.current_branch().head_position(), shown(&fixture)));
    fixture.create_directory(INODE_ROOT, "directory");
    points.push((fixture.current_branch().head_position(), shown(&fixture)));
    fixture.rename(INODE_ROOT, "first", INODE_ROOT, "renamed", false).expect("file is renamed");
    points.push((fixture.current_branch().head_position(), shown(&fixture)));
    fixture.write_file(first, 1, b"verwritten").expect("file is overwritten");
    points.push((fixture.current_branch().head_position(), shown(&fixture)));
    fixture.setattr_metadata(first, resized_to(2)).expect("file is cut off");
    points.push((fixture.current_branch().head_position(), shown(&fixture)));
    fixture.unlink(INODE_ROOT, "renamed").expect("file is removed");
    points.push((fixture.current_branch().head_position(), shown(&fixture)));

    let main = fixture.current_branch();
    for (index, (position, expected)) in points.iter().enumerate() {
        let name = branch_name(&format!("point-{index}"));
        let forked = fixture.create_branch(&name, *position).expect("every point can be forked");
        assert_eq!(forked.head_position().ordinal(), position.ordinal());
        fixture.switch_branch(&name).expect("fork is active");
        assert_eq!(&shown(&fixture), expected);
        fixture.create_regular_file("later");
        fixture.switch_branch(main.name()).expect("main is active");
        assert_eq!(shown(&fixture), points[points.len() - 1].1);
    }
    let fork = branch_name("point-2");
    fixture.switch_branch(&fork).expect("fork is active");
    assert_eq!(
        shown(&fixture).into_iter().map(|(name, _)| name).collect::<Vec<_>>(),
        vec![b".".to_vec(), b"..".to_vec(), b"first".to_vec(), b"later".to_vec()]
    );
}

#[test]
fn a_filesystem_opens_again_after_every_step() {
    let mut fixture = open_new();
    let mut steps = 0;
    let mut again = |fixture: Fixture| {
        let expected = (
            shown(&fixture),
            fixture.current_branch(),
            fixture.last_event_sequence(),
            fixture.storage.write_state,
            collect_all_events(&fixture.storage).len(),
        );
        let opened = reopen(fixture).expect("what was written passes every check");
        assert_eq!(
            (
                shown(&opened),
                opened.current_branch(),
                opened.last_event_sequence(),
                opened.storage.write_state,
                collect_all_events(&opened.storage).len(),
            ),
            expected
        );
        steps += 1;
        opened
    };
    fixture = again(fixture);
    let file = fixture.create_regular_file("file");
    fixture = again(fixture);
    fixture.write_file(file, 3, b"data").expect("file is written");
    fixture = again(fixture);
    fixture.hard_link(file, INODE_ROOT, "link").expect("file is linked");
    fixture = again(fixture);
    fixture.setxattr(file, "user.a", b"value", 0).expect("attribute is set");
    fixture = again(fixture);
    let main = fixture.current_branch();
    let side = branch_name("side");
    fixture.create_branch(&side, main.head_position()).expect("branch is created");
    fixture = again(fixture);
    fixture.switch_branch(&side).expect("branch is active");
    fixture = again(fixture);
    fixture.unlink(INODE_ROOT, "file").expect("name is removed");
    fixture = again(fixture);
    fixture.unlink(INODE_ROOT, "link").expect("file is removed");
    fixture = again(fixture);
    fixture.switch_branch(main.name()).expect("main is active");
    fixture = again(fixture);
    fixture.delete_branch(&side).expect("branch is deleted");
    fixture = again(fixture);
    fixture.setattr_metadata(file, resized_to(1)).expect("file is cut off");
    fixture = again(fixture);
    assert_eq!(fixture.getxattr(file, "user.a").expect("attribute is kept"), b"value");
    assert_eq!(steps, 12);
}

#[test]
fn snapshots_at_a_sequence_are_the_newest_and_are_found_again_at_their_position() {
    let mut fixture = open_new();
    let inode_number = fixture.create_regular_file("versions");
    let file = FileIdentifier::new(inode_number);
    let mut versions = vec![(fixture.last_event_sequence(), Vec::new())];
    for version in 0..6_u8 {
        fixture.write_file(inode_number, 0, &[version; 4]).expect("version is written");
        versions.push((fixture.last_event_sequence(), vec![version; 4]));
        fixture.create_regular_file(&format!("other-{version}"));
    }
    let last = fixture.last_event_sequence();
    let branch = fixture.current_branch();
    for sequence in versions[0].0.get()..=last.get() {
        let asked = EventSequence::new(sequence);
        let (newest, bytes) = versions
            .iter()
            .rev()
            .find(|(written, _)| written.get() <= sequence)
            .expect("file is there");
        let snapshot = fixture
            .storage
            .file_snapshot_at_or_before(file, asked)
            .expect("snapshots are readable")
            .expect("file has a snapshot");
        assert_eq!(snapshot.sequence(), *newest);
        assert_eq!(
            &fixture
                .storage
                .read_file_snapshot_range(&snapshot, 0, 64)
                .expect("snapshot is readable"),
            bytes
        );
        let again = fixture
            .storage
            .file_snapshot_on_branch_at_or_before(
                branch.branch_identifier(),
                file,
                snapshot.branch_position(),
            )
            .expect("snapshots are readable")
            .expect("snapshot is found again");
        assert_eq!(again, snapshot);
    }
    assert!(fixture
        .storage
        .file_snapshot_at_or_before(file, EventSequence::new(0))
        .expect("snapshots are readable")
        .is_none());

    let fork = branch_name("fork");
    fixture.create_branch(&fork, branch.head_position()).expect("branch is created");
    fixture.switch_branch(&fork).expect("branch is active");
    let inherited = fixture
        .storage
        .file_snapshot_at_or_before(file, last)
        .expect("snapshots are readable")
        .expect("the fork has the file in its first state");
    assert_eq!(inherited.branch_position(), fixture.current_branch().head_position());
    assert_eq!(
        fixture
            .storage
            .read_file_snapshot_range(&inherited, 1, 64)
            .expect("snapshot is readable"),
        vec![5_u8; 3]
    );
}

#[test]
fn switching_back_finds_a_branch_as_it_was_left() {
    let mut fixture = open_new();
    let file = fixture.create_regular_file("shared");
    fixture.write_file(file, 0, b"main text").expect("file is written");
    let main = fixture.current_branch();
    let left = active_branch_state(&fixture);
    for index in 0..3 {
        let name = branch_name(&format!("side-{index}"));
        fixture.create_branch(&name, main.head_position()).expect("branch is created");
        fixture.switch_branch(&name).expect("branch is active");
        fixture.write_file(file, 0, b"side").expect("file is overwritten");
        fixture.create_directory(INODE_ROOT, "directory");
        fixture.unlink(INODE_ROOT, "shared").expect("file is removed");
        fixture = reopen(fixture).expect("filesystem opens");
    }
    fixture.delete_branch(&branch_name("side-0")).expect("branch is deleted");
    let back = fixture.switch_branch(main.name()).expect("main is active");
    assert_eq!(back, main);
    assert_eq!(active_branch_state(&fixture), left);
    assert_eq!(fixture.read_file(file, 0, 64).expect("file is readable"), b"main text");
}

#[test]
fn events_have_every_sequence_from_the_first_to_the_last() {
    let mut fixture = open_new();
    let file = fixture.create_regular_file("file");
    fixture.write_file(file, 0, b"data").expect("file is written");
    let main = fixture.current_branch();
    let side = branch_name("side");
    fixture.create_branch(&side, main.head_position()).expect("branch is created");
    fixture.switch_branch(&side).expect("branch is active");
    fixture.rename(INODE_ROOT, "file", INODE_ROOT, "moved", false).expect("file is renamed");
    fixture.switch_branch(main.name()).expect("main is active");
    fixture.unlink(INODE_ROOT, "file").expect("file is removed");
    let last = fixture.last_event_sequence().get();
    assert_eq!(last, 4);
    for size in [1, 2, 3, 100] {
        let mut sequences = Vec::new();
        let mut after = None;
        loop {
            let page =
                fixture.storage.list_events(after, limit(size)).expect("event page is readable");
            sequences.extend(page.records().iter().map(|record| record.sequence().get()));
            match page.next_after() {
                Some(next_after) => after = Some(next_after),
                None => break,
            }
        }
        assert_eq!(sequences, (0..=last).collect::<Vec<_>>());
    }
}

#[test]
fn appends_past_several_full_manifests_stay_readable() {
    let mut fixture = open_new();
    let inode_number = fixture.create_regular_file("log");
    let mut expected = Vec::new();
    for index in 0..520_usize {
        let byte = (index % 251) as u8;
        fixture.write_file(inode_number, index as u64, &[byte]).expect("byte is appended");
        expected.push(byte);
    }
    assert_eq!(fixture.read_file(inode_number, 0, 1024).expect("file is readable"), expected);
    assert_eq!(
        fixture.read_file(inode_number, 250, 20).expect("file is readable"),
        expected[250..270]
    );
    fixture.write_file(inode_number, 600, b"end").expect("hole is left");
    let tail = fixture.read_file(inode_number, 518, 100).expect("file is readable");
    assert_eq!(tail.len(), 85);
    assert_eq!(tail[..2], expected[518..]);
    assert!(tail[2..82].iter().all(|byte| *byte == 0));
    assert_eq!(&tail[82..], b"end");
}
