//! Setting up a new filesystem, and checking and opening a stored one.

use vstd::prelude::*;
use vstd::utf8::encode_utf8;

use crate::branches::{branch_at, same_text, stored_branch, BRANCH_IDENTIFIER_INITIAL};
use crate::bytes::{bytes_equal, copy_bytes};
use crate::commit::{ActiveBranchState, ActiveView};
use crate::database::{
    push_bytes, push_row, Batch, BatchView, BranchRootView, BranchView, Database, Image,
    StoredBranch, StoredBranchRoot, StoredEvent, StoredEventView, WriteState,
};
use crate::error::FilesystemError;
use crate::filesystem::{
    BranchIdentifier, BranchPosition, BranchStatus, EventKind, EventRecord, EventRecordView,
    EventSequence,
};
use crate::hash::integrity_unless;
use crate::history::{branch_root_at_position, lemma_same_keys, record_at_key, root_of};
use crate::inode::{
    InodeView, StoredInode, StoredNodeKind, StoredTime, INODE_FIRST_ALLOCATED, INODE_MODE_ROOT,
    INODE_ROOT,
};
use crate::keys::{
    decode_u64, encode_branch_position_key, encode_namespace_inode_key, encode_u64, pair_key,
    u64_key, u64_of,
};
use crate::metadata::{
    active_branch_identifier_key, active_branch_identifier_key_bytes, last_event_sequence_key,
    last_event_sequence_key_bytes, next_branch_identifier_key, next_branch_identifier_key_bytes,
    next_inode_number_key, next_inode_number_key_bytes, number_at, read_metadata_string,
    read_metadata_u64, schema_version_key, schema_version_key_bytes, text_at, volume_name_key,
    volume_name_key_bytes,
};
use crate::namespace::{
    inode_views, MaterializedBranchState, MutationView, Namespace, StoredMutation,
};
use crate::persist::{
    encodable, namespace_state_for_identifier_in_database, put_namespace_state_in_database,
    state_plan, stored_state,
};
use crate::storage::{Storage, StorageView};
use crate::table::{listed_keys, lists_keys, Table};
use crate::trie::{namespace_root_in_database, node_puts, nodes_sound, root_at, TriePlan};

verus! {

/// Oldest layout of the stored tables that can be opened.
pub const STORAGE_SCHEMA_VERSION_BASELINE: u64 = 0;

/// Layout of the stored tables.
pub const STORAGE_SCHEMA_VERSION_CURRENT: u64 = 0;

/// Sequence of the event that sets a filesystem up.
pub const EVENT_SEQUENCE_INITIAL: u64 = 0;

/// The names of the tables that every filesystem has.
pub open spec fn table_names() -> Seq<Seq<char>> {
    seq![
        "events"@,
        "filesystem_metadata"@,
        "file_events"@,
        "branches"@,
        "branch_names"@,
        "branch_events"@,
        "branch_file_events"@,
        "content_chunks"@,
        "content_manifest_nodes"@,
        "namespace_nodes"@,
        "branch_roots"@,
        "file_snapshot_manifests"@,
        "event_payload_manifests"@,
    ]
}

/// The characters of texts.
pub open spec fn texts(names: Seq<&'static str>) -> Seq<Seq<char>> {
    Seq::new(names.len(), |i: int| names[i]@)
}

/// The characters of owned texts.
pub open spec fn owned_texts(names: Seq<String>) -> Seq<Seq<char>> {
    Seq::new(names.len(), |i: int| names[i]@)
}

/// Returns the names of the tables that every filesystem has.
pub fn required_column_family_names() -> (names: Vec<&'static str>)
    ensures
        texts(names@) == table_names(),
{
    let names: Vec<&'static str> = vec![
        "events",
        "filesystem_metadata",
        "file_events",
        "branches",
        "branch_names",
        "branch_events",
        "branch_file_events",
        "content_chunks",
        "content_manifest_nodes",
        "namespace_nodes",
        "branch_roots",
        "file_snapshot_manifests",
        "event_payload_manifests",
    ];
    proof {
        assert(texts(names@) =~= table_names());
    }
    names
}

/// Checks that a layout of the stored tables can be opened.
pub fn validate_supported_storage_schema_version(schema_version: u64) -> (result: Result<
    (),
    FilesystemError,
>)
    ensures
        result == integrity_unless(
            STORAGE_SCHEMA_VERSION_BASELINE <= schema_version <= STORAGE_SCHEMA_VERSION_CURRENT,
        ),
{
    if schema_version < STORAGE_SCHEMA_VERSION_BASELINE || schema_version
        > STORAGE_SCHEMA_VERSION_CURRENT {
        return Err(FilesystemError::Integrity);
    }
    Ok(())
}

/// Returns the names of the tables that a layout has.
pub fn required_column_family_names_for_schema(schema_version: u64) -> (names: Result<
    Vec<&'static str>,
    FilesystemError,
>)
    ensures
        match names {
            Ok(names) => STORAGE_SCHEMA_VERSION_BASELINE <= schema_version
                <= STORAGE_SCHEMA_VERSION_CURRENT && texts(names@) == table_names(),
            Err(error) => error == FilesystemError::Integrity && !(STORAGE_SCHEMA_VERSION_BASELINE
                <= schema_version <= STORAGE_SCHEMA_VERSION_CURRENT),
        },
{
    match validate_supported_storage_schema_version(schema_version) {
        Err(error) => Err(error),
        Ok(_) => Ok(required_column_family_names()),
    }
}

/// Tells whether a name is among names.
fn has_name(names: &Vec<String>, name: &str) -> (found: bool)
    ensures
        found == owned_texts(names@).contains(name@),
{
    let mut index: usize = 0;
    let ghost all = owned_texts(names@);
    while index < names.len()
        invariant
            index <= names@.len(),
            all == owned_texts(names@),
            forall|i: int| 0 <= i < index ==> all[i] != name@,
        decreases names@.len() - index,
    {
        if same_text(names[index].as_str(), name) {
            assert(all[index as int] == name@);
            return true;
        }
        index = index + 1;
    }
    false
}

/// Checks that all required tables are there.
pub fn validate_database_column_families(
    existing: &Vec<String>,
    required_column_families: &Vec<&'static str>,
) -> (result: Result<(), FilesystemError>)
    ensures
        result == integrity_unless(
            forall|i: int|
                0 <= i < required_column_families@.len() ==> owned_texts(existing@).contains(
                    #[trigger] texts(required_column_families@)[i],
                ),
        ),
{
    let ghost required = texts(required_column_families@);
    let mut index: usize = 0;
    while index < required_column_families.len()
        invariant
            index <= required_column_families@.len(),
            required == texts(required_column_families@),
            forall|i: int|
                0 <= i < index ==> owned_texts(existing@).contains(#[trigger] required[i]),
        decreases required_column_families@.len() - index,
    {
        if !has_name(existing, required_column_families[index]) {
            assert(!owned_texts(existing@).contains(required[index as int]));
            return Err(FilesystemError::Integrity);
        }
        index = index + 1;
    }
    Ok(())
}

/// Checks that the stored tables have a layout that can be opened and are all there. There is one
/// layout, so none has to be brought up to another.
pub fn migrate_database_to_current_schema(database: &Database, existing: &Vec<String>) -> (result:
    Result<(), FilesystemError>)
    ensures
        result == integrity_unless(
            number_at(database@.metadata, schema_version_key()) == Ok::<u64, FilesystemError>(
                STORAGE_SCHEMA_VERSION_CURRENT,
            ) && forall|i: int|
                0 <= i < table_names().len() ==> owned_texts(existing@).contains(
                    #[trigger] table_names()[i],
                ),
        ),
{
    let key = schema_version_key_bytes();
    match read_metadata_u64(&database.metadata, key.as_slice()) {
        Err(error) => {
            Err(error)
        },
        Ok(version) => match required_column_family_names_for_schema(version) {
            Err(error) => Err(error),
            Ok(required) => validate_database_column_families(existing, &required),
        },
    }
}

/// The root directory of a new filesystem.
pub open spec fn root_directory(uid: u32, gid: u32, now: StoredTime) -> InodeView {
    InodeView {
        kind: StoredNodeKind::Directory,
        size: 0,
        nlink: 2,
        uid,
        gid,
        mode: INODE_MODE_ROOT,
        rdev: 0,
        atime: now,
        mtime: now,
        ctime: now,
        parent: INODE_ROOT,
        name: Seq::empty(),
        symlink_target: None,
        content_manifest_identifier: None,
    }
}

/// The state of a new filesystem: the root directory alone.
pub open spec fn initial_namespace(root: InodeView) -> Namespace {
    Namespace {
        inodes: Map::empty().insert(u64_key(INODE_ROOT), root),
        ..Namespace::nothing()
    }
}

/// The first branch of a new filesystem.
pub open spec fn initial_branch(identifier: Seq<u8>) -> BranchView {
    BranchView {
        identifier: BRANCH_IDENTIFIER_INITIAL,
        name: "main"@,
        status: BranchStatus::Open,
        head_sequence: EVENT_SEQUENCE_INITIAL,
        head_ordinal: 0,
        namespace_identifier: identifier,
        fork_branch_identifier: None,
        fork_ordinal: None,
    }
}

/// The event that sets a filesystem up.
pub open spec fn initial_event(root: InodeView, created_at: time::UtcDateTime) -> StoredEventView {
    StoredEventView {
        record: EventRecordView::plain(
            EventSequence(EVENT_SEQUENCE_INITIAL),
            EventKind::FilesystemInitialized,
            created_at,
            None,
            None,
            None,
            None,
        ).on_branch(
            BranchIdentifier(BRANCH_IDENTIFIER_INITIAL),
            BranchPosition {
                branch_identifier: BranchIdentifier(BRANCH_IDENTIFIER_INITIAL),
                ordinal: 0,
            },
            EventSequence(EVENT_SEQUENCE_INITIAL),
        ),
        mutation: MutationView::nothing().with_inode(INODE_ROOT, root),
    }
}

/// The rows of a new filesystem whose state has a plan.
pub open spec fn initial_rows(
    plan: TriePlan,
    root: InodeView,
    created_at: time::UtcDateTime,
) -> BatchView {
    let position_key = pair_key(BRANCH_IDENTIFIER_INITIAL, 0);
    BatchView {
        nodes: node_puts(plan.nodes),
        metadata: seq![
            (schema_version_key(), u64_key(STORAGE_SCHEMA_VERSION_CURRENT)),
            (next_inode_number_key(), u64_key(INODE_FIRST_ALLOCATED)),
            (last_event_sequence_key(), u64_key(EVENT_SEQUENCE_INITIAL)),
            (next_branch_identifier_key(), u64_key(2)),
            (active_branch_identifier_key(), u64_key(BRANCH_IDENTIFIER_INITIAL)),
            (volume_name_key(), encode_utf8("eventfs"@)),
        ],
        events: seq![(u64_key(EVENT_SEQUENCE_INITIAL), initial_event(root, created_at))],
        branches: seq![(u64_key(BRANCH_IDENTIFIER_INITIAL), initial_branch(plan.identifier))],
        branch_names: seq![(encode_utf8("main"@), u64_key(BRANCH_IDENTIFIER_INITIAL))],
        branch_events: seq![(position_key, u64_key(EVENT_SEQUENCE_INITIAL))],
        branch_roots: seq![
            (
                position_key,
                BranchRootView {
                    sequence: EVENT_SEQUENCE_INITIAL,
                    namespace_identifier: plan.identifier,
                },
            ),
        ],
        ..BatchView::nothing()
    }
}

/// Prepares the rows of a new filesystem.
pub fn initialize_new_database(
    uid: u32,
    gid: u32,
    now: StoredTime,
    created_at: time::UtcDateTime,
) -> (batch: Result<Batch, FilesystemError>)
    ensures
        match batch {
            Ok(batch) => {
                let root = root_directory(uid, gid, now);
                let plan = state_plan(initial_namespace(root));
                &&& plan is Some
                &&& batch@ == initial_rows((plan->0).0, root, created_at)
                &&& nodes_sound((plan->0).0.nodes)
                &&& encodable(initial_namespace(root))
            },
            Err(error) => error == FilesystemError::Integrity && state_plan(
                initial_namespace(root_directory(uid, gid, now)),
            ) is None,
        },
{
    let branch = BranchIdentifier::new(BRANCH_IDENTIFIER_INITIAL);
    let sequence = EventSequence::new(EVENT_SEQUENCE_INITIAL);
    let record = EventRecord::new(
        sequence,
        EventKind::FilesystemInitialized,
        created_at,
        None,
        None,
        None,
        None,
    ).with_branch(branch, BranchPosition::new(branch, 0), sequence);
    let root = StoredInode {
        kind: StoredNodeKind::Directory,
        size: 0,
        nlink: 2,
        uid,
        gid,
        mode: INODE_MODE_ROOT,
        rdev: 0,
        atime: now,
        mtime: now,
        ctime: now,
        parent: INODE_ROOT,
        name: Vec::new(),
        symlink_target: None,
        content_manifest_identifier: None,
    };
    let ghost root_view = root_directory(uid, gid, now);
    proof {
        assert(root@ == root_view);
    }
    let mut state = MaterializedBranchState::new();
    state.inodes.insert(encode_namespace_inode_key(INODE_ROOT), root.clone());
    proof {
        assert(state@ =~= initial_namespace(root_view));
    }
    let mut batch = Batch::new();
    let (identifier, _roots) = match put_namespace_state_in_database(
        &mut batch.namespace_nodes,
        &state,
    ) {
        Err(error) => return Err(error),
        Ok(stored) => stored,
    };
    let ghost plan = (state_plan(initial_namespace(root_view))->0).0;
    proof {
        assert(batch@.nodes =~= node_puts(plan.nodes));
    }
    push_bytes(
        &mut batch.metadata,
        schema_version_key_bytes(),
        encode_u64(STORAGE_SCHEMA_VERSION_CURRENT),
    );
    push_bytes(
        &mut batch.metadata,
        next_inode_number_key_bytes(),
        encode_u64(INODE_FIRST_ALLOCATED),
    );
    push_bytes(
        &mut batch.metadata,
        last_event_sequence_key_bytes(),
        encode_u64(EVENT_SEQUENCE_INITIAL),
    );
    push_bytes(
        &mut batch.metadata,
        next_branch_identifier_key_bytes(),
        encode_u64(BRANCH_IDENTIFIER_INITIAL + 1),
    );
    push_bytes(
        &mut batch.metadata,
        active_branch_identifier_key_bytes(),
        encode_u64(BRANCH_IDENTIFIER_INITIAL),
    );
    push_bytes(
        &mut batch.metadata,
        volume_name_key_bytes(),
        copy_bytes("eventfs".as_bytes()),
    );
    let mut mutation = StoredMutation::default();
    mutation.put_inode(INODE_ROOT, &root);
    push_row(
        &mut batch.events,
        encode_u64(EVENT_SEQUENCE_INITIAL),
        StoredEvent { record, mutation },
    );
    push_row(
        &mut batch.branches,
        encode_u64(BRANCH_IDENTIFIER_INITIAL),
        StoredBranch {
            identifier: BRANCH_IDENTIFIER_INITIAL,
            name: "main".to_owned(),
            status: BranchStatus::Open,
            head_sequence: EVENT_SEQUENCE_INITIAL,
            head_ordinal: 0,
            namespace_identifier: copy_bytes(identifier.as_slice()),
            fork_branch_identifier: None,
            fork_ordinal: None,
        },
    );
    push_bytes(
        &mut batch.branch_names,
        copy_bytes("main".as_bytes()),
        encode_u64(BRANCH_IDENTIFIER_INITIAL),
    );
    push_bytes(
        &mut batch.branch_events,
        encode_branch_position_key(BRANCH_IDENTIFIER_INITIAL, 0),
        encode_u64(EVENT_SEQUENCE_INITIAL),
    );
    push_row(
        &mut batch.branch_roots,
        encode_branch_position_key(BRANCH_IDENTIFIER_INITIAL, 0),
        StoredBranchRoot { sequence: EVENT_SEQUENCE_INITIAL, namespace_identifier: identifier },
    );
    proof {
        assert(batch@ =~= initial_rows(plan, root_view, created_at));
    }
    Ok(batch)
}

/// The counters that the stored tables hold; `None` where one of them, the name of the filesystem or
/// the active branch cannot be read.
pub open spec fn stored_counters(image: Image) -> Option<WriteState> {
    match (
        number_at(image.metadata, next_inode_number_key()),
        number_at(image.metadata, last_event_sequence_key()),
        number_at(image.metadata, next_branch_identifier_key()),
        number_at(image.metadata, active_branch_identifier_key()),
        text_at(image.metadata, volume_name_key()),
    ) {
        (Ok(inode), Ok(sequence), Ok(branch), Ok(active), Ok(_)) => match branch_at(image, active) {
            None => None,
            Some(stored) => Some(
                WriteState {
                    next_inode_number: inode,
                    last_event_sequence: sequence,
                    next_branch_identifier: branch,
                    active_branch_identifier: active,
                    active_branch_head_sequence: stored.head_sequence,
                    active_branch_head_ordinal: stored.head_ordinal,
                },
            ),
        },
        _ => None,
    }
}

/// Reads the counters from the stored tables.
pub fn load_write_state(database: &Database) -> (state: Result<WriteState, FilesystemError>)
    ensures
        match state {
            Ok(state) => stored_counters(database@) == Some(state),
            Err(error) => error == FilesystemError::Integrity && stored_counters(
                database@,
            ) is None,
        },
{
    let inode_key = next_inode_number_key_bytes();
    let next_inode_number: u64 = match read_metadata_u64(
        &database.metadata,
        inode_key.as_slice(),
    ) {
        Err(error) => return Err(error),
        Ok(number) => number,
    };
    let sequence_key = last_event_sequence_key_bytes();
    let last_event_sequence: u64 = match read_metadata_u64(
        &database.metadata,
        sequence_key.as_slice(),
    ) {
        Err(error) => return Err(error),
        Ok(number) => number,
    };
    let branch_key = next_branch_identifier_key_bytes();
    let next_branch_identifier: u64 = match read_metadata_u64(
        &database.metadata,
        branch_key.as_slice(),
    ) {
        Err(error) => return Err(error),
        Ok(number) => number,
    };
    let active_key = active_branch_identifier_key_bytes();
    let active_branch_identifier: u64 = match read_metadata_u64(
        &database.metadata,
        active_key.as_slice(),
    ) {
        Err(error) => return Err(error),
        Ok(number) => number,
    };
    let name_key = volume_name_key_bytes();
    match read_metadata_string(&database.metadata, name_key.as_slice()) {
        Err(error) => return Err(error),
        Ok(_) => {},
    }
    match stored_branch(database, BranchIdentifier::new(active_branch_identifier)) {
        Err(error) => Err(error),
        Ok(branch) => Ok(
            WriteState {
                next_inode_number,
                last_event_sequence,
                next_branch_identifier,
                active_branch_identifier,
                active_branch_head_sequence: branch.head_sequence,
                active_branch_head_ordinal: branch.head_ordinal,
            },
        ),
    }
}

/// The filesystem that the stored tables hold; `None` where the counters, the active branch or its
/// state cannot be read.
pub open spec fn opened(image: Image) -> Option<StorageView> {
    match stored_counters(image) {
        None => None,
        Some(write) => match branch_at(image, write.active_branch_identifier) {
            None => None,
            Some(branch) => match (
                root_at(image.nodes, branch.namespace_identifier),
                stored_state(image.nodes, branch.namespace_identifier),
            ) {
                (Some(root), Some(namespace)) => Some(
                    StorageView { image, write, active: ActiveView { branch, root, namespace } },
                ),
                _ => None,
            },
        },
    }
}

/// Opens the filesystem that the stored tables hold.
pub fn open_database(database: Database) -> (storage: Result<Storage, FilesystemError>)
    ensures
        match storage {
            Ok(storage) => opened(database@) == Some(storage@),
            Err(error) => error == FilesystemError::Integrity && opened(database@) is None,
        },
{
    let write_state = match load_write_state(&database) {
        Err(error) => return Err(error),
        Ok(state) => state,
    };
    let branch = match stored_branch(
        &database,
        BranchIdentifier::new(write_state.active_branch_identifier),
    ) {
        Err(error) => return Err(error),
        Ok(branch) => branch.clone(),
    };
    let namespace_root = match namespace_root_in_database(
        &database.namespace_nodes,
        branch.namespace_identifier.as_slice(),
    ) {
        Err(error) => return Err(error),
        Ok(root) => root,
    };
    let namespace = match namespace_state_for_identifier_in_database(
        &database.namespace_nodes,
        branch.namespace_identifier.as_slice(),
    ) {
        Err(error) => return Err(error),
        Ok(namespace) => namespace,
    };
    Ok(
        Storage {
            database,
            write_state,
            active: ActiveBranchState::new(branch, namespace_root, namespace),
        },
    )
}

/// The larger of two numbers.
pub open spec fn larger(a: u64, b: u64) -> u64 {
    if a < b {
        b
    } else {
        a
    }
}

/// The largest number among keys, at least a given one; `None` where a key is no number.
pub open spec fn largest_key(keys: Seq<Seq<u8>>, least: u64) -> Option<u64>
    decreases keys.len(),
{
    if keys.len() == 0 {
        Some(least)
    } else {
        match largest_key(keys.drop_last(), least) {
            None => None,
            Some(largest) => if keys.last().len() == 8 {
                Some(larger(largest, u64_of(keys.last())))
            } else {
                None
            },
        }
    }
}

proof fn lemma_largest_key_fails(keys: Seq<Seq<u8>>, least: u64, count: int)
    requires
        0 <= count <= keys.len(),
        largest_key(keys.take(count), least) is None,
    ensures
        largest_key(keys, least) is None,
    decreases keys.len() - count,
{
    if count == keys.len() {
        assert(keys.take(count) =~= keys);
    } else {
        assert(keys.take(count + 1).drop_last() =~= keys.take(count));
        lemma_largest_key_fails(keys, least, count + 1);
    }
}

/// Finds the largest number among the keys of a table, at least a given one.
fn largest_table_key<V>(table: &Table<V>, least: u64) -> (largest: Result<u64, FilesystemError>)
    ensures
        match largest {
            Ok(largest) => largest_key(listed_keys(table@), least) == Some(largest),
            Err(error) => error == FilesystemError::Integrity && largest_key(
                listed_keys(table@),
                least,
            ) is None,
        },
{
    let total: usize = table.len();
    let ghost all = table.keys();
    proof {
        lemma_same_keys(table@, table@, all);
        assert(all.take(0) =~= Seq::<Seq<u8>>::empty());
    }
    let mut largest: u64 = least;
    let mut index: usize = 0;
    while index < total
        invariant
            index <= total,
            total == all.len(),
            all == table.keys(),
            all == listed_keys(table@),
            largest_key(all.take(index as int), least) == Some(largest),
        decreases total - index,
    {
        let key = table.key_at(index);
        proof {
            assert(all.take(index + 1).drop_last() =~= all.take(index as int));
            assert(all.take(index + 1).last() == key@);
        }
        match decode_u64(key) {
            Err(error) => {
                proof {
                    lemma_largest_key_fails(all, least, index + 1);
                }
                return Err(error);
            },
            Ok(number) => {
                if largest < number {
                    largest = number;
                }
            },
        }
        index = index + 1;
    }
    proof {
        assert(all.take(index as int) =~= all);
    }
    Ok(largest)
}

/// The largest inode number in the states of branches under the given keys, at least that of the root
/// directory; `None` where a state cannot be read.
pub open spec fn largest_inode(image: Image, keys: Seq<Seq<u8>>) -> Option<u64>
    decreases keys.len(),
{
    if keys.len() == 0 {
        Some(INODE_ROOT)
    } else {
        match (largest_inode(image, keys.drop_last()), image.branch_roots[keys.last()]) {
            (Some(largest), Some(root)) => match stored_state(
                image.nodes,
                root.namespace_identifier,
            ) {
                Some(state) => largest_key(listed_keys(state.inodes), largest),
                None => None,
            },
            _ => None,
        }
    }
}

proof fn lemma_largest_inode_fails(image: Image, keys: Seq<Seq<u8>>, count: int)
    requires
        0 <= count <= keys.len(),
        largest_inode(image, keys.take(count)) is None,
    ensures
        largest_inode(image, keys) is None,
    decreases keys.len() - count,
{
    if count == keys.len() {
        assert(keys.take(count) =~= keys);
    } else {
        assert(keys.take(count + 1).drop_last() =~= keys.take(count));
        lemma_largest_inode_fails(image, keys, count + 1);
    }
}

/// Finds the largest inode number in all states of all branches.
pub fn max_stored_inode_number(database: &Database) -> (largest: Result<u64, FilesystemError>)
    ensures
        match largest {
            Ok(largest) => largest_inode(database@, listed_keys(database@.branch_roots)) == Some(
                largest,
            ),
            Err(error) => error == FilesystemError::Integrity && largest_inode(
                database@,
                listed_keys(database@.branch_roots),
            ) is None,
        },
{
    let table = &database.branch_roots;
    let total: usize = table.len();
    let ghost image = database@;
    let ghost all = table.keys();
    proof {
        lemma_same_keys(table@, image.branch_roots, all);
        assert(all.take(0) =~= Seq::<Seq<u8>>::empty());
    }
    let mut largest: u64 = INODE_ROOT;
    let mut index: usize = 0;
    while index < total
        invariant
            index <= total,
            total == all.len(),
            table == &database.branch_roots,
            image == database@,
            all == table.keys(),
            lists_keys(all, table@),
            all == listed_keys(image.branch_roots),
            largest_inode(image, all.take(index as int)) == Some(largest),
        decreases total - index,
    {
        let ghost key = all[index as int];
        proof {
            assert(all.take(index + 1).drop_last() =~= all.take(index as int));
            assert(all.take(index + 1).last() == key);
            assert(image.branch_roots.contains_key(key));
            if largest_inode(image, all.take(index + 1)) is None {
                lemma_largest_inode_fails(image, all, index + 1);
            }
        }
        match table.value_at(index) {
            None => return Err(FilesystemError::Integrity),
            Some(root) => match namespace_state_for_identifier_in_database(
                &database.namespace_nodes,
                root.namespace_identifier.as_slice(),
            ) {
                Err(error) => return Err(error),
                Ok(state) => {
                    let inodes: usize = state.inodes.len();
                    proof {
                        lemma_same_keys(
                            state.inodes@,
                            inode_views(state.inodes@),
                            state.inodes.keys(),
                        );
                    }
                    match largest_table_key(&state.inodes, largest) {
                        Err(error) => return Err(error),
                        Ok(number) => {
                            largest = number;
                        },
                    }
                },
            },
        }
        index = index + 1;
    }
    proof {
        assert(all.take(index as int) =~= all);
    }
    Ok(largest)
}

/// Finds the largest branch number.
pub fn max_stored_branch_identifier(database: &Database) -> (largest: Result<u64, FilesystemError>)
    ensures
        match largest {
            Ok(largest) => largest_key(listed_keys(database@.branches), 0) == Some(largest),
            Err(error) => error == FilesystemError::Integrity && largest_key(
                listed_keys(database@.branches),
                0,
            ) is None,
        },
{
    let total: usize = database.branches.len();
    proof {
        lemma_same_keys(
            database.branches@,
            database@.branches,
            database.branches.keys(),
        );
    }
    largest_table_key(&database.branches, 0)
}

/// The counters are past every number that was given out.
pub open spec fn counters_fresh(
    image: Image,
    next_inode_number: u64,
    next_branch_identifier: u64,
) -> bool {
    let inode = largest_inode(image, listed_keys(image.branch_roots));
    let branch = largest_key(listed_keys(image.branches), 0);
    &&& next_inode_number >= INODE_FIRST_ALLOCATED
    &&& inode is Some && inode->0 < next_inode_number
    &&& branch is Some && branch->0 < next_branch_identifier
}

/// Checks that the counters are past every number that was given out.
pub fn validate_allocator_metadata(
    database: &Database,
    next_inode_number: u64,
    next_branch_identifier: u64,
) -> (result: Result<(), FilesystemError>)
    ensures
        result == integrity_unless(
            counters_fresh(database@, next_inode_number, next_branch_identifier),
        ),
{
    if next_inode_number < INODE_FIRST_ALLOCATED {
        return Err(FilesystemError::Integrity);
    }
    match max_stored_inode_number(database) {
        Err(error) => return Err(error),
        Ok(largest) => {
            if next_inode_number <= largest {
                return Err(FilesystemError::Integrity);
            }
        },
    }
    match max_stored_branch_identifier(database) {
        Err(error) => Err(error),
        Ok(largest) => {
            if next_branch_identifier <= largest {
                return Err(FilesystemError::Integrity);
            }
            Ok(())
        },
    }
}

/// The newest stored event is readable and has a sequence.
pub open spec fn newest_event_is(image: Image, sequence: u64) -> bool {
    let keys = listed_keys(image.events);
    &&& keys.len() > 0
    &&& record_at_key(image, keys.last()) is Some
    &&& u64_of(keys.last()) == sequence
}

/// Checks that the newest stored event is readable and has a sequence.
pub fn validate_last_event_sequence(database: &Database, last_event_sequence: u64) -> (result: Result<
    (),
    FilesystemError,
>)
    ensures
        result == integrity_unless(newest_event_is(database@, last_event_sequence)),
{
    let total: usize = database.events.len();
    let ghost all = database.events.keys();
    proof {
        lemma_same_keys(database.events@, database@.events, all);
    }
    if total == 0 {
        return Err(FilesystemError::Integrity);
    }
    let key = database.events.key_at(total - 1);
    proof {
        assert(all.last() == key@);
        assert(database@.events.contains_key(key@));
    }
    match decode_u64(key) {
        Err(error) => return Err(error),
        Ok(sequence) => {
            if sequence != last_event_sequence {
                return Err(FilesystemError::Integrity);
            }
        },
    }
    match database.events.value_at(total - 1) {
        None => Err(FilesystemError::Integrity),
        Some(event) => {
            if event.record.sequence().get() != last_event_sequence {
                return Err(FilesystemError::Integrity);
            }
            Ok(())
        },
    }
}

/// The active branch stands where its newest state says, and that state has a root directory.
pub open spec fn active_branch_sound(image: Image, number: u64) -> bool {
    match branch_at(image, number) {
        None => false,
        Some(branch) => {
            let position = BranchPosition {
                branch_identifier: BranchIdentifier(number),
                ordinal: branch.head_ordinal,
            };
            match (
                root_of(image, position),
                stored_state(image.nodes, branch.namespace_identifier),
            ) {
                (Some(root), Some(state)) => {
                    &&& root.sequence == branch.head_sequence
                    &&& root.namespace_identifier == branch.namespace_identifier
                    &&& state.inode(INODE_ROOT) is Some
                    &&& state.inode(INODE_ROOT)->0.kind == StoredNodeKind::Directory
                },
                _ => false,
            }
        },
    }
}

/// The stored tables hold a filesystem that may be opened.
pub open spec fn stored_soundly(image: Image) -> bool {
    match (
        number_at(image.metadata, schema_version_key()),
        number_at(image.metadata, next_inode_number_key()),
        number_at(image.metadata, last_event_sequence_key()),
        number_at(image.metadata, next_branch_identifier_key()),
        number_at(image.metadata, active_branch_identifier_key()),
    ) {
        (Ok(version), Ok(inode), Ok(sequence), Ok(branch), Ok(active)) => {
            &&& version == STORAGE_SCHEMA_VERSION_CURRENT
            &&& newest_event_is(image, sequence)
            &&& counters_fresh(image, inode, branch)
            &&& active_branch_sound(image, active)
        },
        _ => false,
    }
}

/// Checks that the active branch stands where its newest state says.
fn validate_active_branch(database: &Database, number: u64) -> (result: Result<(), FilesystemError>)
    ensures
        result == integrity_unless(active_branch_sound(database@, number)),
{
    let branch_identifier = BranchIdentifier::new(number);
    let branch = match stored_branch(database, branch_identifier) {
        Err(error) => return Err(error),
        Ok(branch) => branch,
    };
    let root = match branch_root_at_position(
        database,
        BranchPosition::new(branch_identifier, branch.head_ordinal),
    ) {
        Err(error) => return Err(error),
        Ok(root) => root,
    };
    if root.sequence != branch.head_sequence || !bytes_equal(
        root.namespace_identifier.as_slice(),
        branch.namespace_identifier.as_slice(),
    ) {
        return Err(FilesystemError::Integrity);
    }
    let state = match namespace_state_for_identifier_in_database(
        &database.namespace_nodes,
        branch.namespace_identifier.as_slice(),
    ) {
        Err(error) => return Err(error),
        Ok(state) => state,
    };
    match state.inode(INODE_ROOT) {
        None => Err(FilesystemError::Integrity),
        Some(inode) => {
            if inode.kind != StoredNodeKind::Directory {
                return Err(FilesystemError::Integrity);
            }
            Ok(())
        },
    }
}

/// Checks that the stored tables hold a filesystem that may be opened.
pub fn validate_existing_database(database: &Database) -> (result: Result<(), FilesystemError>)
    ensures
        result == integrity_unless(stored_soundly(database@)),
{
    let version_key = schema_version_key_bytes();
    match read_metadata_u64(&database.metadata, version_key.as_slice()) {
        Err(error) => return Err(error),
        Ok(version) => {
            if version != STORAGE_SCHEMA_VERSION_CURRENT {
                return Err(FilesystemError::Integrity);
            }
        },
    }
    let inode_key = next_inode_number_key_bytes();
    let next_inode_number: u64 = match read_metadata_u64(
        &database.metadata,
        inode_key.as_slice(),
    ) {
        Err(error) => return Err(error),
        Ok(number) => number,
    };
    let sequence_key = last_event_sequence_key_bytes();
    let last_event_sequence: u64 = match read_metadata_u64(
        &database.metadata,
        sequence_key.as_slice(),
    ) {
        Err(error) => return Err(error),
        Ok(number) => number,
    };
    match validate_last_event_sequence(database, last_event_sequence) {
        Err(error) => return Err(error),
        Ok(_) => {},
    }
    let branch_key = next_branch_identifier_key_bytes();
    let next_branch_identifier: u64 = match read_metadata_u64(
        &database.metadata,
        branch_key.as_slice(),
    ) {
        Err(error) => return Err(error),
        Ok(number) => number,
    };
    let active_key = active_branch_identifier_key_bytes();
    let active_branch_identifier: u64 = match read_metadata_u64(
        &database.metadata,
        active_key.as_slice(),
    ) {
        Err(error) => return Err(error),
        Ok(number) => number,
    };
    match validate_allocator_metadata(database, next_inode_number, next_branch_identifier) {
        Err(error) => return Err(error),
        Ok(_) => {},
    }
    validate_active_branch(database, active_branch_identifier)
}

/// Checks and opens the filesystem that stored tables with the given names hold.
pub fn open_existing_database(database: Database, existing: &Vec<String>) -> (storage: Result<
    Storage,
    FilesystemError,
>)
    ensures
        match storage {
            Ok(storage) => {
                &&& forall|i: int|
                    0 <= i < table_names().len() ==> owned_texts(existing@).contains(
                        #[trigger] table_names()[i],
                    )
                &&& stored_soundly(database@)
                &&& opened(database@) == Some(storage@)
            },
            Err(error) => error == FilesystemError::Integrity && !((forall|i: int|
                0 <= i < table_names().len() ==> owned_texts(existing@).contains(
                    #[trigger] table_names()[i],
                )) && stored_soundly(database@) && opened(database@) is Some),
        },
{
    match migrate_database_to_current_schema(&database, existing) {
        Err(error) => return Err(error),
        Ok(_) => {},
    }
    match validate_existing_database(&database) {
        Err(error) => return Err(error),
        Ok(_) => {},
    }
    open_database(database)
}

} // verus!
