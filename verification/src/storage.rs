//! The filesystem: the stored tables, the counters and the active branch, and the operations on them.
//! An operation that changes something prepares a commit, which is written out and then finished.

use vstd::prelude::*;

use crate::bytes::copy_bytes;
use crate::changes::{
    attribute_outcome, attribute_removal, attribute_setting, directory_of, entry_removal, inode_of,
    link_creation, node_creation, plan_attribute_removal, plan_attribute_setting, plan_attributes,
    plan_entry_removal, plan_link_creation, plan_node_creation, plan_rename, plan_symlink_creation,
    rename_change, require_inode, symlink_creation, AttributeOutcome, ChangeView, InodeChange,
    PlannedAttributes, PlannedChange,
};
use crate::chunks::{range_bytes, range_readable, read_manifest_range};
use crate::commit::{
    commit_event_with_payloads, commit_of, payload_manifests, payload_named, ActiveBranchCommit,
    ActiveBranchState, ActiveView, CommitEventPayloads, PayloadExtents,
};
use crate::database::{push_bytes, Batch, BatchView, BranchView, Database, Image, WriteState};
use crate::edit::all_sound;
use crate::error::{Errno, FilesystemError, FuseError};
use crate::extents::{data_cuts, is_partition};
use crate::filesystem::{BranchIdentifier, EventSequence};
use crate::inode::{
    attribute_name_error, attributes_of, access_allowed, has_attributes, inode_attr, may_access,
    reported_statistics, statistics_from_backing, validate_extended_attribute_inode,
    validate_extended_attribute_name, BackingFileSystemStatistics, CreateNodeKind,
    CreateNodeMetadata, FileAttr, FileSystemStatistics, InodeView, SetattrMetadata, StoredInode,
    StoredNodeKind, StoredTime, INODE_ROOT, XATTR_LIST_MAX_BYTES,
};
use crate::keys::{encode_u64, named_key, u64_key};
use crate::metadata::{
    next_inode_number_key, next_inode_number_key_bytes, number_at, read_metadata_string,
    read_metadata_u64, text_at, volume_name_key, volume_name_key_bytes,
};
use crate::namespace::{byte_views, lists_names, names_below, names_of, MutationView, Namespace};
use crate::persist::{active_mutation_plan, encodable, puts_encodable};
use crate::trie::{nodes_sound, RootView};
use crate::writes::{
    plan_resize, plan_write, resize_change, write_change, ContentChange, PlannedContent,
};

verus! {

/// Seconds for which attributes may be cached.
pub const FUSE_ATTRIBUTE_TTL_SECONDS: u64 = 1;

/// First offset of the entries of a directory after its dot entries.
pub const FUSE_DIRECTORY_ENTRY_FIRST_OFFSET: u64 = 3;

/// The filesystem.
#[derive(Debug, PartialEq, Eq)]
pub struct Storage {
    /// The stored tables.
    pub database: Database,
    /// The counters.
    pub write_state: WriteState,
    /// The active branch.
    pub active: ActiveBranchState,
}

/// The value of the filesystem.
pub ghost struct StorageView {
    pub image: Image,
    pub write: WriteState,
    pub active: ActiveView,
}

impl View for Storage {
    type V = StorageView;

    open spec fn view(&self) -> StorageView {
        StorageView {
            image: self.database@,
            write: self.write_state,
            active: self.active@,
        }
    }
}

/// A commit that was prepared and is to be written out and finished.
#[derive(Debug, PartialEq, Eq)]
pub struct PreparedCommit {
    /// What to write out.
    pub batch: Batch,
    /// Sequence of the event.
    pub event_sequence: EventSequence,
    /// The next inode number, where one was given out.
    pub next_inode_number: Option<u64>,
    /// The new head of the active branch.
    pub commit: ActiveBranchCommit,
}

/// The value of a prepared commit.
pub ghost struct PreparedView {
    pub batch: BatchView,
    pub sequence: EventSequence,
    pub next_inode_number: Option<u64>,
    pub branch: BranchView,
    pub root: RootView,
    pub mutation: MutationView,
}

impl View for PreparedCommit {
    type V = PreparedView;

    open spec fn view(&self) -> PreparedView {
        PreparedView {
            batch: self.batch@,
            sequence: self.event_sequence,
            next_inode_number: self.next_inode_number,
            branch: self.commit.branch@,
            root: self.commit.namespace_root@,
            mutation: self.commit.mutation@,
        }
    }
}

/// The attributes of an inode and how long they may be cached.
#[derive(Clone, Copy, Debug, PartialEq, Eq, Structural)]
pub struct EntrySnapshot {
    /// Seconds for which the attributes may be cached.
    pub ttl_seconds: u64,
    /// The attributes.
    pub attr: FileAttr,
}

/// The answer about an inode.
pub open spec fn answer_of(number: u64, inode: InodeView) -> EntrySnapshot {
    EntrySnapshot {
        ttl_seconds: FUSE_ATTRIBUTE_TTL_SECONDS,
        attr: attributes_of(number, inode),
    }
}

fn entry_answer(inode_number: u64, inode: &StoredInode) -> (entry: EntrySnapshot)
    ensures
        entry == answer_of(inode_number, inode@),
{
    EntrySnapshot {
        ttl_seconds: FUSE_ATTRIBUTE_TTL_SECONDS,
        attr: inode_attr(inode_number, inode),
    }
}

/// What is answered when the attributes of an inode are asked for.
pub open spec fn attributes_answer(namespace: Namespace, number: u64) -> Result<
    EntrySnapshot,
    FuseError,
> {
    match inode_of(namespace, number) {
        Ok(inode) => Ok(answer_of(number, inode)),
        Err(error) => Err(error),
    }
}

/// What is answered when a name is looked up in a directory.
pub open spec fn lookup_answer(namespace: Namespace, parent: u64, name: Seq<u8>) -> Result<
    EntrySnapshot,
    FuseError,
> {
    match namespace.entry(parent, name) {
        Some(entry) => attributes_answer(namespace, entry.inode),
        None => Err(FuseError::Errno(Errno::ENOENT)),
    }
}

/// What is answered when the target of a symbolic link is asked for.
pub open spec fn target_answer(namespace: Namespace, number: u64) -> Result<Seq<u8>, FuseError> {
    match inode_of(namespace, number) {
        Ok(inode) => if inode.kind != StoredNodeKind::Symlink {
            Err(FuseError::Errno(Errno::EINVAL))
        } else {
            match inode.symlink_target {
                Some(target) => Ok(target),
                None => Ok(Seq::empty()),
            }
        },
        Err(error) => Err(error),
    }
}

/// What is answered when access to an inode is asked for.
pub open spec fn access_answer(
    namespace: Namespace,
    number: u64,
    uid: u32,
    gid: u32,
    mask: i32,
) -> Result<(), FuseError> {
    match inode_of(namespace, number) {
        Ok(inode) => if may_access(inode, uid, gid, mask) {
            Ok(())
        } else {
            Err(FuseError::Errno(Errno::EACCES))
        },
        Err(error) => Err(error),
    }
}

/// What is answered when an extended attribute is asked for.
pub open spec fn attribute_answer(namespace: Namespace, number: u64, name: Seq<u8>) -> Result<
    Seq<u8>,
    FuseError,
> {
    match inode_of(namespace, number) {
        Ok(inode) => if !has_attributes(inode.kind) {
            Err(FuseError::Errno(Errno::ENOTSUP))
        } else if attribute_name_error(name) is Some {
            Err(attribute_name_error(name)->0)
        } else {
            match namespace.attribute(number, name) {
                Some(value) => Ok(value),
                None => Err(FuseError::Errno(Errno::NO_XATTR)),
            }
        },
        Err(error) => Err(error),
    }
}

/// What is answered when the names of the extended attributes are asked for.
pub open spec fn attribute_names_answer(namespace: Namespace, number: u64) -> Result<
    Seq<u8>,
    FuseError,
> {
    let list = attribute_list(names_of(namespace.attributes, number));
    match inode_of(namespace, number) {
        Ok(inode) => if !has_attributes(inode.kind) {
            Err(FuseError::Errno(Errno::ENOTSUP))
        } else if list.len() > XATTR_LIST_MAX_BYTES {
            Err(FuseError::Errno(Errno::E2BIG))
        } else {
            Ok(list)
        },
        Err(error) => Err(error),
    }
}

/// The row that records the next inode number.
pub open spec fn inode_counter_rows(next_inode_number: Option<u64>) -> BatchView {
    BatchView {
        metadata: match next_inode_number {
            Some(next) => seq![(next_inode_number_key(), u64_key(next))],
            None => Seq::empty(),
        },
        ..BatchView::nothing()
    }
}

impl StorageView {
    /// The commit of a change, with rows that are stored before it.
    pub open spec fn prepare(
        self,
        change: ChangeView,
        rows: BatchView,
        payload: PayloadExtents,
        manifest: Option<Seq<u8>>,
    ) -> Result<PreparedView, FuseError> {
        match commit_of(
            self.image,
            self.active,
            self.write.active_branch_identifier,
            change.event.sequence,
            change.event,
            payload,
            manifest,
            change.mutation,
        ) {
            None => Err(FuseError::Integrity),
            Some(commit) => Ok(
                PreparedView {
                    batch: rows.then_batch(commit.rows).then_batch(
                        inode_counter_rows(change.next_inode_number),
                    ),
                    sequence: change.event.sequence,
                    next_inode_number: change.next_inode_number,
                    branch: commit.active.branch,
                    root: commit.active.root,
                    mutation: change.mutation,
                },
            ),
        }
    }

    /// The commit of a change of names or attributes.
    pub open spec fn prepare_change(self, change: ChangeView) -> Result<PreparedView, FuseError> {
        self.prepare(change, BatchView::nothing(), PayloadExtents::Nothing, None)
    }

    /// The commit of a change of file contents.
    pub open spec fn prepare_content(self, content: ContentChange) -> Result<
        PreparedView,
        FuseError,
    > {
        self.prepare(
            content.change,
            content.rows,
            content.payload,
            Some(content.plan.identifier),
        )
    }

    /// The filesystem after a prepared commit was written out.
    pub open spec fn after(self, prepared: PreparedView) -> StorageView {
        let counted = self.write.after_event(prepared.sequence);
        StorageView {
            image: self.image.after(prepared.batch),
            write: match prepared.next_inode_number {
                Some(next) => WriteState { next_inode_number: next, ..counted },
                None => counted,
            },
            active: ActiveView {
                branch: prepared.branch,
                root: prepared.root,
                namespace: self.active.namespace.after(prepared.mutation),
            },
        }
    }

    /// A change of the state of the active branch is stored in nodes that decode back, as do the state
    /// and what the change stores.
    pub open spec fn stores_state(self, mutation: MutationView) -> bool {
        let stored = active_mutation_plan(
            self.image.nodes,
            self.active.root,
            self.active.namespace,
            mutation,
        );
        stored is Some && nodes_sound((stored->0).0.nodes) && encodable(self.active.namespace)
            && puts_encodable(mutation)
    }

    /// The state of the active branch.
    pub open spec fn namespace(self) -> Namespace {
        self.active.namespace
    }
}

/// The manifests that a change of file contents stores decode back.
pub open spec fn content_sound(content: ContentChange) -> bool {
    all_sound(content.plan.nodes) && all_sound(
        payload_manifests(content.change.event, content.payload),
    )
}

/// What preparing a commit gives.
pub open spec fn prepares(
    storage: StorageView,
    result: Result<PreparedCommit, FuseError>,
    expected: Result<PreparedView, FuseError>,
) -> bool {
    match result {
        Ok(prepared) => expected == Ok::<PreparedView, FuseError>(prepared@)
            && storage.stores_state(prepared@.mutation),
        Err(error) => expected == Err::<PreparedView, FuseError>(error),
    }
}

/// What an operation that answers with an inode expects: the answer and the commit.
pub open spec fn inode_commit(
    storage: StorageView,
    planned: Result<InodeChange, FuseError>,
) -> Result<(EntrySnapshot, PreparedView), FuseError> {
    match planned {
        Err(error) => Err(error),
        Ok(change) => match storage.prepare_change(change.change) {
            Err(error) => Err(error),
            Ok(prepared) => Ok((answer_of(change.number, change.inode), prepared)),
        },
    }
}

/// What an operation that answers with an inode gives.
pub open spec fn answers_inode(
    storage: StorageView,
    result: Result<(EntrySnapshot, PreparedCommit), FuseError>,
    expected: Result<(EntrySnapshot, PreparedView), FuseError>,
) -> bool {
    match result {
        Ok(pair) => expected == Ok::<(EntrySnapshot, PreparedView), FuseError>((pair.0, pair.1@))
            && storage.stores_state(pair.1@.mutation),
        Err(error) => expected == Err::<(EntrySnapshot, PreparedView), FuseError>(error),
    }
}

/// What an operation without an answer expects: the commit.
pub open spec fn plain_commit(
    storage: StorageView,
    planned: Result<ChangeView, FuseError>,
) -> Result<PreparedView, FuseError> {
    match planned {
        Err(error) => Err(error),
        Ok(change) => storage.prepare_change(change),
    }
}

impl Storage {
    /// Prepares the commit of a change, behind rows that are already in a batch.
    fn prepare(
        &self,
        batch: Batch,
        change: PlannedChange,
        payloads: CommitEventPayloads,
    ) -> (result: Result<PreparedCommit, FuseError>)
        ensures
            prepares(
                self@,
                result,
                self@.prepare(
                    change@,
                    batch@,
                    payloads.event_payload_extents@,
                    crate::bytes::optional_view(payloads.snapshot_content_manifest_identifier),
                ),
            ),
            result is Ok && payload_named(payloads.event_payload_extents@) ==> all_sound(
                payload_manifests(change@.event, payloads.event_payload_extents@),
            ),
    {
        let mut batch = batch;
        let ghost rows = batch@;
        let ghost view = change@;
        let event_sequence = change.event.sequence();
        let ghost commit = commit_of(
            self@.image,
            self@.active,
            self@.write.active_branch_identifier,
            event_sequence,
            view.event,
            payloads.event_payload_extents@,
            crate::bytes::optional_view(payloads.snapshot_content_manifest_identifier),
            view.mutation,
        );
        match commit_event_with_payloads(
            &self.database,
            &mut batch,
            &self.active,
            BranchIdentifier::new(self.write_state.active_branch_identifier),
            event_sequence,
            &change.event,
            payloads,
            change.mutation,
        ) {
            Err(error) => Err(error),
            Ok(active_commit) => {
                match change.next_inode_number {
                    Some(next) => {
                        push_bytes(
                            &mut batch.metadata,
                            next_inode_number_key_bytes(),
                            encode_u64(next),
                        );
                    },
                    None => {},
                }
                proof {
                    assert(batch@ =~= rows.then_batch(commit->0.rows).then_batch(
                        inode_counter_rows(view.next_inode_number),
                    ));
                }
                Ok(
                    PreparedCommit {
                        batch,
                        event_sequence,
                        next_inode_number: change.next_inode_number,
                        commit: active_commit,
                    },
                )
            },
        }
    }

    fn prepare_change(&self, change: PlannedChange) -> (result: Result<PreparedCommit, FuseError>)
        ensures
            prepares(self@, result, self@.prepare_change(change@)),
    {
        self.prepare(Batch::new(), change, CommitEventPayloads::none())
    }

    /// Finishes a commit that was written out: the tables, the counters and the active branch move on.
    pub fn finish_commit(&mut self, prepared: PreparedCommit)
        ensures
            final(self)@ == old(self)@.after(prepared@),
    {
        self.database.write(prepared.batch);
        self.write_state.record_committed_event(prepared.event_sequence);
        match prepared.next_inode_number {
            Some(next) => {
                self.write_state.record_committed_inode_number(next);
            },
            None => {},
        }
        self.active.apply_commit(prepared.commit);
    }

    /// Looks a name up in a directory.
    pub fn lookup(&self, parent: u64, name: &[u8]) -> (entry: Result<EntrySnapshot, FuseError>)
        ensures
            entry == (match self@.namespace().entry(parent, name@) {
                None => Err::<EntrySnapshot, FuseError>(FuseError::Errno(Errno::ENOENT)),
                Some(found) => match inode_of(self@.namespace(), found.inode) {
                    Err(error) => Err::<EntrySnapshot, FuseError>(error),
                    Ok(inode) => Ok::<EntrySnapshot, FuseError>(answer_of(found.inode, inode)),
                },
            }),
            entry == lookup_answer(self@.namespace(), parent, name@),
    {
        match self.active.namespace.directory_entry(parent, name) {
            None => Err(FuseError::Errno(Errno::ENOENT)),
            Some(entry) => self.getattr(entry.inode),
        }
    }

    /// Returns the attributes of an inode.
    pub fn getattr(&self, inode: u64) -> (entry: Result<EntrySnapshot, FuseError>)
        ensures
            entry == (match inode_of(self@.namespace(), inode) {
                Err(error) => Err::<EntrySnapshot, FuseError>(error),
                Ok(found) => Ok::<EntrySnapshot, FuseError>(answer_of(inode, found)),
            }),
            entry == attributes_answer(self@.namespace(), inode),
    {
        match self.active.namespace.inode(inode) {
            None => Err(FuseError::Errno(Errno::ENOENT)),
            Some(found) => Ok(entry_answer(inode, found)),
        }
    }

    /// Returns the target of a symbolic link.
    pub fn readlink(&self, inode: u64) -> (target: Result<Vec<u8>, FuseError>)
        ensures
            match target {
                Ok(target) => {
                    &&& inode_of(self@.namespace(), inode) is Ok
                    &&& inode_of(self@.namespace(), inode)->Ok_0.kind == StoredNodeKind::Symlink
                    &&& target@ == (match inode_of(
                        self@.namespace(),
                        inode,
                    )->Ok_0.symlink_target {
                        Some(bytes) => bytes,
                        None => Seq::empty(),
                    })
                },
                Err(error) => match inode_of(self@.namespace(), inode) {
                    Err(missing) => error == missing,
                    Ok(found) => found.kind != StoredNodeKind::Symlink && error
                        == FuseError::Errno(Errno::EINVAL),
                },
            },
            gives_bytes(target, target_answer(self@.namespace(), inode)),
    {
        match self.active.namespace.inode(inode) {
            None => Err(FuseError::Errno(Errno::ENOENT)),
            Some(found) => {
                if found.kind != StoredNodeKind::Symlink {
                    return Err(FuseError::Errno(Errno::EINVAL));
                }
                match &found.symlink_target {
                    Some(bytes) => Ok(copy_bytes(bytes.as_slice())),
                    None => Ok(Vec::new()),
                }
            },
        }
    }

    /// Prepares the creation of a node.
    pub fn create_node_with_metadata(
        &self,
        parent: u64,
        name: &[u8],
        kind: CreateNodeKind,
        metadata: CreateNodeMetadata,
        now: StoredTime,
        created_at: time::UtcDateTime,
    ) -> (result: Result<(EntrySnapshot, PreparedCommit), FuseError>)
        ensures
            answers_inode(
                self@,
                result,
                inode_commit(
                    self@,
                    node_creation(
                        self@.namespace(),
                        self@.write,
                        parent,
                        name@,
                        kind,
                        metadata,
                        now,
                        created_at,
                    ),
                ),
            ),
    {
        let (inode_number, inode, change) = match plan_node_creation(
            &self.active.namespace,
            self.write_state,
            parent,
            name,
            kind,
            metadata,
            now,
            created_at,
        ) {
            Err(error) => return Err(error),
            Ok(planned) => planned,
        };
        match self.prepare_change(change) {
            Err(error) => Err(error),
            Ok(prepared) => Ok((entry_answer(inode_number, &inode), prepared)),
        }
    }

    /// Prepares the creation of a symbolic link.
    pub fn create_symlink_with_metadata(
        &self,
        parent: u64,
        link_name: &[u8],
        target: &[u8],
        metadata: CreateNodeMetadata,
        now: StoredTime,
        created_at: time::UtcDateTime,
    ) -> (result: Result<(EntrySnapshot, PreparedCommit), FuseError>)
        ensures
            answers_inode(
                self@,
                result,
                inode_commit(
                    self@,
                    symlink_creation(
                        self@.namespace(),
                        self@.write,
                        parent,
                        link_name@,
                        target@,
                        metadata,
                        now,
                        created_at,
                    ),
                ),
            ),
    {
        let (inode_number, inode, change) = match plan_symlink_creation(
            &self.active.namespace,
            self.write_state,
            parent,
            link_name,
            target,
            metadata,
            now,
            created_at,
        ) {
            Err(error) => return Err(error),
            Ok(planned) => planned,
        };
        match self.prepare_change(change) {
            Err(error) => Err(error),
            Ok(prepared) => Ok((entry_answer(inode_number, &inode), prepared)),
        }
    }

    /// Prepares the removal of a name from a directory.
    pub fn remove_directory_entry(
        &self,
        parent: u64,
        name: &[u8],
        directory: bool,
        now: StoredTime,
        created_at: time::UtcDateTime,
    ) -> (result: Result<PreparedCommit, FuseError>)
        ensures
            prepares(
                self@,
                result,
                plain_commit(
                    self@,
                    entry_removal(
                        self@.namespace(),
                        self@.write,
                        parent,
                        name@,
                        directory,
                        now,
                        created_at,
                    ),
                ),
            ),
    {
        match plan_entry_removal(
            &self.active.namespace,
            self.write_state,
            parent,
            name,
            directory,
            now,
            created_at,
        ) {
            Err(error) => Err(error),
            Ok(change) => self.prepare_change(change),
        }
    }

    /// Prepares the removal of the name of anything but a directory.
    pub fn unlink(
        &self,
        parent: u64,
        name: &[u8],
        now: StoredTime,
        created_at: time::UtcDateTime,
    ) -> (result: Result<PreparedCommit, FuseError>)
        ensures
            prepares(
                self@,
                result,
                plain_commit(
                    self@,
                    entry_removal(
                        self@.namespace(),
                        self@.write,
                        parent,
                        name@,
                        false,
                        now,
                        created_at,
                    ),
                ),
            ),
    {
        self.remove_directory_entry(parent, name, false, now, created_at)
    }

    /// Prepares the removal of an empty directory.
    pub fn rmdir(
        &self,
        parent: u64,
        name: &[u8],
        now: StoredTime,
        created_at: time::UtcDateTime,
    ) -> (result: Result<PreparedCommit, FuseError>)
        ensures
            prepares(
                self@,
                result,
                plain_commit(
                    self@,
                    entry_removal(
                        self@.namespace(),
                        self@.write,
                        parent,
                        name@,
                        true,
                        now,
                        created_at,
                    ),
                ),
            ),
    {
        self.remove_directory_entry(parent, name, true, now, created_at)
    }

    /// Prepares a rename.
    pub fn rename(
        &self,
        parent: u64,
        name: &[u8],
        new_parent: u64,
        new_name: &[u8],
        no_replace: bool,
        now: StoredTime,
        created_at: time::UtcDateTime,
    ) -> (result: Result<PreparedCommit, FuseError>)
        ensures
            prepares(
                self@,
                result,
                plain_commit(
                    self@,
                    rename_change(
                        self@.namespace(),
                        self@.write,
                        parent,
                        name@,
                        new_parent,
                        new_name@,
                        no_replace,
                        now,
                        created_at,
                    ),
                ),
            ),
    {
        match plan_rename(
            &self.active.namespace,
            self.write_state,
            parent,
            name,
            new_parent,
            new_name,
            no_replace,
            now,
            created_at,
        ) {
            Err(error) => Err(error),
            Ok(change) => self.prepare_change(change),
        }
    }

    /// Prepares one more name for an inode.
    pub fn hard_link(
        &self,
        inode_number: u64,
        new_parent: u64,
        new_name: &[u8],
        now: StoredTime,
        created_at: time::UtcDateTime,
    ) -> (result: Result<(EntrySnapshot, PreparedCommit), FuseError>)
        ensures
            answers_inode(
                self@,
                result,
                inode_commit(
                    self@,
                    link_creation(
                        self@.namespace(),
                        self@.write,
                        inode_number,
                        new_parent,
                        new_name@,
                        now,
                        created_at,
                    ),
                ),
            ),
    {
        let (number, inode, change) = match plan_link_creation(
            &self.active.namespace,
            self.write_state,
            inode_number,
            new_parent,
            new_name,
            now,
            created_at,
        ) {
            Err(error) => return Err(error),
            Ok(planned) => planned,
        };
        match self.prepare_change(change) {
            Err(error) => Err(error),
            Ok(prepared) => Ok((entry_answer(number, &inode), prepared)),
        }
    }
}

/// What giving a regular file another size expects: the answer, and the commit where the size changes.
pub open spec fn resize_commit(
    storage: StorageView,
    number: u64,
    inode: InodeView,
    new_size: u64,
    created_at: time::UtcDateTime,
) -> Result<(EntrySnapshot, Option<PreparedView>), FuseError> {
    match resize_change(
        storage.image,
        storage.namespace(),
        storage.write,
        number,
        inode,
        new_size,
        created_at,
    ) {
        Err(error) => Err(error),
        Ok(None) => Ok((answer_of(number, inode), None)),
        Ok(Some(content)) => match storage.prepare_content(content) {
            Err(error) => Err(error),
            Ok(prepared) => Ok((answer_of(number, content.inode), Some(prepared))),
        },
    }
}

/// What an operation that may change nothing gives.
pub open spec fn answers_optionally(
    storage: StorageView,
    result: Result<(EntrySnapshot, Option<PreparedCommit>), FuseError>,
    expected: Result<(EntrySnapshot, Option<PreparedView>), FuseError>,
) -> bool {
    match result {
        Ok((entry, Some(prepared))) => expected == Ok::<
            (EntrySnapshot, Option<PreparedView>),
            FuseError,
        >((entry, Some(prepared@))) && storage.stores_state(prepared@.mutation),
        Ok((entry, None)) => expected == Ok::<(EntrySnapshot, Option<PreparedView>), FuseError>(
            (entry, None),
        ),
        Err(error) => expected == Err::<(EntrySnapshot, Option<PreparedView>), FuseError>(error),
    }
}

/// What a change of attributes expects.
pub open spec fn attributes_commit(
    storage: StorageView,
    number: u64,
    metadata: SetattrMetadata,
    now: StoredTime,
    created_at: time::UtcDateTime,
) -> Result<(EntrySnapshot, Option<PreparedView>), FuseError> {
    match attribute_outcome(
        storage.namespace(),
        storage.write,
        number,
        metadata,
        now,
        created_at,
    ) {
        Err(error) => Err(error),
        Ok(AttributeOutcome::Unchanged(inode)) => Ok((answer_of(number, inode), None)),
        Ok(AttributeOutcome::Resized(inode, size)) => resize_commit(
            storage,
            number,
            inode,
            size,
            created_at,
        ),
        Ok(AttributeOutcome::Changed(change)) => match storage.prepare_change(change.change) {
            Err(error) => Err(error),
            Ok(prepared) => Ok((answer_of(number, change.inode), Some(prepared))),
        },
    }
}

/// What opening a regular file expects: a commit where it is cut off and was not empty.
pub open spec fn open_commit(
    storage: StorageView,
    number: u64,
    truncate: bool,
    now: StoredTime,
    created_at: time::UtcDateTime,
) -> Result<Option<PreparedView>, FuseError> {
    match inode_of(storage.namespace(), number) {
        Err(error) => Err(error),
        Ok(inode) => if inode.kind != StoredNodeKind::RegularFile {
            Err(FuseError::Errno(Errno::EISDIR))
        } else if truncate && inode.size != 0 {
            match resize_commit(storage, number, inode.touched(now), 0, created_at) {
                Err(error) => Err(error),
                Ok((_, prepared)) => Ok(prepared),
            }
        } else {
            Ok(None)
        },
    }
}

/// What an operation without an answer that may change nothing gives.
pub open spec fn prepares_optionally(
    storage: StorageView,
    result: Result<Option<PreparedCommit>, FuseError>,
    expected: Result<Option<PreparedView>, FuseError>,
) -> bool {
    match result {
        Ok(Some(prepared)) => expected == Ok::<Option<PreparedView>, FuseError>(Some(prepared@))
            && storage.stores_state(prepared@.mutation),
        Ok(None) => expected == Ok::<Option<PreparedView>, FuseError>(None),
        Err(error) => expected == Err::<Option<PreparedView>, FuseError>(error),
    }
}

/// The bytes that reading a regular file gives: at most as many as are asked for, and none past its
/// end.
pub open spec fn read_result(
    image: Image,
    namespace: Namespace,
    number: u64,
    offset: u64,
    size: u32,
) -> Result<Seq<u8>, FuseError> {
    match inode_of(namespace, number) {
        Err(error) => Err(error),
        Ok(inode) => if inode.kind != StoredNodeKind::RegularFile {
            Err(FuseError::Errno(Errno::EISDIR))
        } else if offset >= inode.size || size == 0 {
            Ok(Seq::empty())
        } else if inode.content_manifest_identifier is None {
            Err(FuseError::Integrity)
        } else {
            let manifest = inode.content_manifest_identifier->0;
            let length = readable_length(inode.size, offset, size);
            if range_readable(image.manifests, image.chunks, manifest, offset, length) {
                Ok(range_bytes(image.manifests, image.chunks, manifest, offset, length))
            } else {
                Err(FuseError::Integrity)
            }
        },
    }
}

/// How many bytes can be read.
pub open spec fn readable_length(file_size: u64, offset: u64, size: u32) -> u64 {
    if size as u64 <= file_size - offset {
        size as u64
    } else {
        (file_size - offset) as u64
    }
}

/// What making bytes gives: the bytes, or an error.
pub open spec fn gives_bytes(
    result: Result<Vec<u8>, FuseError>,
    expected: Result<Seq<u8>, FuseError>,
) -> bool {
    match result {
        Ok(bytes) => expected == Ok::<Seq<u8>, FuseError>(bytes@),
        Err(error) => expected == Err::<Seq<u8>, FuseError>(error),
    }
}

/// How many bytes were written.
#[derive(Clone, Copy, Debug, PartialEq, Eq, Structural)]
pub struct FuseWrite {
    /// Number of bytes written.
    pub written: u32,
}

/// What a write expects.
pub open spec fn write_commit(
    storage: StorageView,
    number: u64,
    offset: u64,
    data: Seq<u8>,
    append: bool,
    clear_privileges: bool,
    now: StoredTime,
    created_at: time::UtcDateTime,
) -> Result<PreparedView, FuseError> {
    match write_change(
        storage.image,
        storage.namespace(),
        storage.write,
        number,
        offset,
        data,
        append,
        clear_privileges,
        now,
        created_at,
    ) {
        Err(error) => Err(error),
        Ok(content) => storage.prepare_content(content),
    }
}

/// An entry of a directory.
#[derive(Debug, PartialEq, Eq)]
pub struct DirectoryEntrySnapshot {
    /// The inode.
    pub inode: u64,
    /// Offset after the entry.
    pub offset: u64,
    /// Kind of file.
    pub kind: StoredNodeKind,
    /// Name.
    pub name: Vec<u8>,
}

/// The value of an entry of a directory.
pub ghost struct EntryView {
    pub inode: u64,
    pub offset: u64,
    pub kind: StoredNodeKind,
    pub name: Seq<u8>,
}

impl View for DirectoryEntrySnapshot {
    type V = EntryView;

    open spec fn view(&self) -> EntryView {
        EntryView { inode: self.inode, offset: self.offset, kind: self.kind, name: self.name@ }
    }
}

/// A place, counted from an offset, as far as numbers go.
pub open spec fn place_after(index: int, first: int) -> u64 {
    if index + first <= u64::MAX {
        (index + first) as u64
    } else {
        u64::MAX
    }
}

fn place_at(index: usize, first: u64) -> (place: u64)
    ensures
        place == place_after(index as int, first as int),
{
    match (index as u64).checked_add(first) {
        Some(place) => place,
        None => u64::MAX,
    }
}

/// The parent that a directory answers for its double dot: the root is its own.
pub open spec fn parent_of(number: u64, inode: InodeView) -> u64 {
    if number == INODE_ROOT {
        INODE_ROOT
    } else {
        inode.parent
    }
}

/// The dot entries of a directory after an offset.
pub open spec fn dot_entries(number: u64, inode: InodeView, offset: u64) -> Seq<EntryView> {
    let dot = EntryView {
        inode: number,
        offset: 1,
        kind: StoredNodeKind::Directory,
        name: seq![46u8],
    };
    let dots = EntryView {
        inode: parent_of(number, inode),
        offset: 2,
        kind: StoredNodeKind::Directory,
        name: seq![46u8, 46u8],
    };
    if offset == 0 {
        seq![dot, dots]
    } else if offset == 1 {
        seq![dots]
    } else {
        Seq::empty()
    }
}

/// The first entries of a directory after an offset, in name order. The entry at a place is left out
/// where the place is not past the offset.
pub open spec fn named_entries(
    namespace: Namespace,
    number: u64,
    offset: u64,
    count: nat,
) -> Seq<EntryView>
    decreases count,
{
    if count == 0 {
        Seq::empty()
    } else {
        let index = count - 1;
        let name = names_of(namespace.entries, number)[index];
        let entry = namespace.entries[named_key(number, name)];
        let front = named_entries(namespace, number, offset, index as nat);
        if place_after(index, FUSE_DIRECTORY_ENTRY_FIRST_OFFSET as int) > offset {
            front.push(
                EntryView {
                    inode: entry.inode,
                    offset: place_after(index, FUSE_DIRECTORY_ENTRY_FIRST_OFFSET + 1),
                    kind: entry.kind,
                    name,
                },
            )
        } else {
            front
        }
    }
}

/// The entries of a directory after an offset: the dot entries, then the others in name order.
pub open spec fn directory_listing(namespace: Namespace, number: u64, offset: u64) -> Result<
    Seq<EntryView>,
    FuseError,
> {
    match directory_of(namespace, number) {
        Err(error) => Err(error),
        Ok(inode) => Ok(
            dot_entries(number, inode, offset) + named_entries(
                namespace,
                number,
                offset,
                names_of(namespace.entries, number).len(),
            ),
        ),
    }
}

/// The values of entries.
pub open spec fn listed(entries: Seq<DirectoryEntrySnapshot>) -> Seq<EntryView> {
    Seq::new(entries.len(), |i: int| entries[i]@)
}

/// An entry of a directory with the attributes of its inode.
#[derive(Debug, PartialEq, Eq)]
pub struct DirectoryEntryPlusSnapshot {
    /// The inode.
    pub inode: u64,
    /// Offset after the entry.
    pub offset: u64,
    /// Name.
    pub name: Vec<u8>,
    /// The attributes.
    pub entry: EntrySnapshot,
}

/// The value of an entry of a directory with the attributes of its inode.
pub ghost struct EntryPlusView {
    pub inode: u64,
    pub offset: u64,
    pub name: Seq<u8>,
    pub entry: EntrySnapshot,
}

impl View for DirectoryEntryPlusSnapshot {
    type V = EntryPlusView;

    open spec fn view(&self) -> EntryPlusView {
        EntryPlusView {
            inode: self.inode,
            offset: self.offset,
            name: self.name@,
            entry: self.entry,
        }
    }
}

/// The values of entries with attributes.
pub open spec fn listed_plus(entries: Seq<DirectoryEntryPlusSnapshot>) -> Seq<EntryPlusView> {
    Seq::new(entries.len(), |i: int| entries[i]@)
}

/// The entries of a listing with the attributes of their inodes, up to the first whose inode is
/// missing.
pub open spec fn with_inodes(namespace: Namespace, entries: Seq<EntryView>) -> Seq<EntryPlusView>
    decreases entries.len(),
{
    if entries.len() == 0 {
        Seq::empty()
    } else {
        let front = with_inodes(namespace, entries.drop_last());
        let last = entries.last();
        if front.len() < entries.len() - 1 || namespace.inode(last.inode) is None {
            front
        } else {
            front.push(
                EntryPlusView {
                    inode: last.inode,
                    offset: last.offset,
                    name: last.name,
                    entry: answer_of(last.inode, namespace.inode(last.inode)->0),
                },
            )
        }
    }
}

/// The entries of a directory with attributes, up to the first whose inode is missing, and the error
/// that stands there.
#[derive(Debug, PartialEq, Eq)]
pub struct DirectoryPlusListing {
    /// The entries.
    pub entries: Vec<DirectoryEntryPlusSnapshot>,
    /// The error after them, if an inode is missing.
    pub error: Option<FuseError>,
}

/// The list of attribute names, each followed by a zero.
pub open spec fn attribute_list(names: Seq<Seq<u8>>) -> Seq<u8>
    decreases names.len(),
{
    if names.len() == 0 {
        Seq::empty()
    } else {
        attribute_list(names.drop_last()) + names.last().push(0)
    }
}

/// The bytes of a list of attribute names.
#[derive(Debug, PartialEq, Eq)]
pub struct ExtendedAttributeList {
    /// The bytes.
    pub bytes: Vec<u8>,
}

proof fn lemma_longer_list(names: Seq<Seq<u8>>, count: int)
    requires
        0 <= count <= names.len(),
    ensures
        attribute_list(names.take(count)).len() <= attribute_list(names).len(),
    decreases names.len() - count,
{
    if count == names.len() {
        assert(names.take(count) =~= names);
    } else {
        assert(names.take(count + 1).drop_last() =~= names.take(count));
        lemma_longer_list(names, count + 1);
    }
}

impl Storage {
    fn prepare_content(&self, planned: PlannedContent) -> (result: Result<PreparedCommit, FuseError>)
        ensures
            prepares(
                self@,
                result,
                self@.prepare(
                    planned.change@,
                    planned.batch@,
                    planned.payloads.event_payload_extents@,
                    crate::bytes::optional_view(
                        planned.payloads.snapshot_content_manifest_identifier,
                    ),
                ),
            ),
            result is Ok && payload_named(planned.payloads.event_payload_extents@) ==> all_sound(
                payload_manifests(planned.change@.event, planned.payloads.event_payload_extents@),
            ),
    {
        self.prepare(planned.batch, planned.change, planned.payloads)
    }

    /// Prepares another size of a regular file whose other attributes are given.
    pub fn commit_file_size_change(
        &self,
        inode_number: u64,
        inode: &StoredInode,
        new_size: u64,
        created_at: time::UtcDateTime,
    ) -> (result: Result<(EntrySnapshot, Option<PreparedCommit>), FuseError>)
        ensures
            answers_optionally(
                self@,
                result,
                resize_commit(self@, inode_number, inode@, new_size, created_at),
            ),
            result is Ok && (result->Ok_0).1 is Some ==> content_sound(
                resize_change(
                    self@.image,
                    self@.namespace(),
                    self@.write,
                    inode_number,
                    inode@,
                    new_size,
                    created_at,
                )->Ok_0->0,
            ),
    {
        match plan_resize(
            &self.database,
            &self.active.namespace,
            self.write_state,
            inode_number,
            inode,
            new_size,
            created_at,
        ) {
            Err(error) => Err(error),
            Ok(None) => Ok((entry_answer(inode_number, inode), None)),
            Ok(Some(planned)) => {
                let answer = entry_answer(inode_number, &planned.inode);
                match self.prepare_content(planned) {
                    Err(error) => Err(error),
                    Ok(prepared) => Ok((answer, Some(prepared))),
                }
            },
        }
    }

    /// Prepares a change of attributes.
    pub fn setattr_metadata(
        &self,
        inode_number: u64,
        metadata: SetattrMetadata,
        now: StoredTime,
        created_at: time::UtcDateTime,
    ) -> (result: Result<(EntrySnapshot, Option<PreparedCommit>), FuseError>)
        ensures
            answers_optionally(
                self@,
                result,
                attributes_commit(self@, inode_number, metadata, now, created_at),
            ),
            match attribute_outcome(
                self@.namespace(),
                self@.write,
                inode_number,
                metadata,
                now,
                created_at,
            ) {
                Ok(AttributeOutcome::Resized(inode, size)) => result is Ok && (result->Ok_0).1
                    is Some ==> content_sound(
                    resize_change(
                        self@.image,
                        self@.namespace(),
                        self@.write,
                        inode_number,
                        inode,
                        size,
                        created_at,
                    )->Ok_0->0,
                ),
                _ => true,
            },
    {
        match plan_attributes(
            &self.active.namespace,
            self.write_state,
            inode_number,
            metadata,
            now,
            created_at,
        ) {
            Err(error) => Err(error),
            Ok(PlannedAttributes::Unchanged(inode)) => Ok(
                (entry_answer(inode_number, &inode), None),
            ),
            Ok(PlannedAttributes::Resized(inode, size)) => self.commit_file_size_change(
                inode_number,
                &inode,
                size,
                created_at,
            ),
            Ok(PlannedAttributes::Changed(inode, change)) => match self.prepare_change(change) {
                Err(error) => Err(error),
                Ok(prepared) => Ok((entry_answer(inode_number, &inode), Some(prepared))),
            },
        }
    }

    /// Opens a regular file; prepares to cut it off where that is asked for and it is not empty.
    pub fn open_file(
        &self,
        inode_number: u64,
        truncate: bool,
        now: StoredTime,
        created_at: time::UtcDateTime,
    ) -> (result: Result<Option<PreparedCommit>, FuseError>)
        ensures
            prepares_optionally(
                self@,
                result,
                open_commit(self@, inode_number, truncate, now, created_at),
            ),
            result is Ok && result->Ok_0 is Some ==> content_sound(
                resize_change(
                    self@.image,
                    self@.namespace(),
                    self@.write,
                    inode_number,
                    self@.namespace().inode(inode_number)->0.touched(now),
                    0,
                    created_at,
                )->Ok_0->0,
            ),
    {
        let mut inode = match require_inode(&self.active.namespace, inode_number) {
            Err(error) => return Err(error),
            Ok(inode) => inode,
        };
        if inode.kind != StoredNodeKind::RegularFile {
            return Err(FuseError::Errno(Errno::EISDIR));
        }
        if truncate && inode.size != 0 {
            inode.mtime = now;
            inode.ctime = now;
            match self.commit_file_size_change(inode_number, &inode, 0, created_at) {
                Err(error) => Err(error),
                Ok((_, prepared)) => Ok(prepared),
            }
        } else {
            Ok(None)
        }
    }

    /// Reads a regular file.
    pub fn read_file(&self, inode_number: u64, offset: u64, size: u32) -> (bytes: Result<
        Vec<u8>,
        FuseError,
    >)
        ensures
            gives_bytes(
                bytes,
                read_result(self@.image, self@.namespace(), inode_number, offset, size),
            ),
    {
        match self.active.namespace.inode(inode_number) {
            None => Err(FuseError::Errno(Errno::ENOENT)),
            Some(inode) => {
                if inode.kind != StoredNodeKind::RegularFile {
                    return Err(FuseError::Errno(Errno::EISDIR));
                }
                if offset >= inode.size || size == 0 {
                    return Ok(Vec::new());
                }
                let readable: u64 = if size as u64 <= inode.size - offset {
                    size as u64
                } else {
                    inode.size - offset
                };
                match &inode.content_manifest_identifier {
                    None => Err(FuseError::Integrity),
                    Some(manifest) => match read_manifest_range(
                        &self.database.content_manifest_nodes,
                        &self.database.content_chunks,
                        manifest.as_slice(),
                        offset,
                        readable,
                    ) {
                        Err(_) => Err(FuseError::Integrity),
                        Ok(bytes) => Ok(bytes),
                    },
                }
            },
        }
    }

    /// Prepares the writing of data into a regular file.
    pub fn write_file_with_metadata(
        &self,
        inode_number: u64,
        offset: u64,
        data: &[u8],
        append: bool,
        clear_suid_sgid: bool,
        now: StoredTime,
        created_at: time::UtcDateTime,
    ) -> (result: Result<(FuseWrite, PreparedCommit), FuseError>)
        ensures
            ({
                let expected = write_commit(
                    self@,
                    inode_number,
                    offset,
                    data@,
                    append,
                    clear_suid_sgid,
                    now,
                    created_at,
                );
                match result {
                    Ok(pair) => {
                        &&& expected == Ok::<PreparedView, FuseError>(pair.1@)
                        &&& pair.0.written == data@.len() as u32
                        &&& self@.stores_state(pair.1@.mutation)
                        &&& content_sound(
                            write_change(
                                self@.image,
                                self@.namespace(),
                                self@.write,
                                inode_number,
                                offset,
                                data@,
                                append,
                                clear_suid_sgid,
                                now,
                                created_at,
                            )->Ok_0,
                        )
                        &&& data@.len() > 0 ==> is_partition(
                            data_cuts(data@),
                            data@.len() as int,
                        )
                    },
                    Err(error) => expected == Err::<PreparedView, FuseError>(error),
                }
            }),
    {
        match plan_write(
            &self.database,
            &self.active.namespace,
            self.write_state,
            inode_number,
            offset,
            data,
            append,
            clear_suid_sgid,
            now,
            created_at,
        ) {
            Err(error) => Err(error),
            Ok(planned) => match self.prepare_content(planned) {
                Err(error) => Err(error),
                Ok(prepared) => Ok((FuseWrite { written: data.len() as u32 }, prepared)),
            },
        }
    }

    /// Opens a directory.
    pub fn opendir(&self, inode_number: u64) -> (result: Result<(), FuseError>)
        ensures
            result == (match directory_of(self@.namespace(), inode_number) {
                Err(error) => Err::<(), FuseError>(error),
                Ok(_) => Ok::<(), FuseError>(()),
            }),
    {
        match self.active.namespace.inode(inode_number) {
            None => Err(FuseError::Errno(Errno::ENOENT)),
            Some(inode) => if inode.kind != StoredNodeKind::Directory {
                Err(FuseError::Errno(Errno::ENOTDIR))
            } else {
                Ok(())
            },
        }
    }

    /// Lists a directory after an offset.
    pub fn readdir(&self, inode_number: u64, offset: u64) -> (entries: Result<
        Vec<DirectoryEntrySnapshot>,
        FuseError,
    >)
        ensures
            match entries {
                Ok(entries) => directory_listing(self@.namespace(), inode_number, offset) == Ok::<
                    Seq<EntryView>,
                    FuseError,
                >(listed(entries@)),
                Err(error) => directory_listing(self@.namespace(), inode_number, offset) == Err::<
                    Seq<EntryView>,
                    FuseError,
                >(error),
            },
            entries is Ok ==> lists_names(
                names_of(self@.namespace().entries, inode_number),
                self@.namespace().entries,
                inode_number,
            ),
    {
        let ghost namespace = self@.namespace();
        let inode = match self.active.namespace.inode(inode_number) {
            None => return Err(FuseError::Errno(Errno::ENOENT)),
            Some(inode) => inode,
        };
        if inode.kind != StoredNodeKind::Directory {
            return Err(FuseError::Errno(Errno::ENOTDIR));
        }
        let mut entries: Vec<DirectoryEntrySnapshot> = Vec::new();
        if offset == 0 {
            let name: Vec<u8> = vec![46];
            proof {
                assert(name@ =~= seq![46u8]);
            }
            entries.push(
                DirectoryEntrySnapshot {
                    inode: inode_number,
                    offset: 1,
                    kind: StoredNodeKind::Directory,
                    name,
                },
            );
        }
        if offset <= 1 {
            let name: Vec<u8> = vec![46, 46];
            proof {
                assert(name@ =~= seq![46u8, 46u8]);
            }
            entries.push(
                DirectoryEntrySnapshot {
                    inode: if inode_number == INODE_ROOT {
                        INODE_ROOT
                    } else {
                        inode.parent
                    },
                    offset: 2,
                    kind: StoredNodeKind::Directory,
                    name,
                },
            );
        }
        let ghost dots = dot_entries(inode_number, inode@, offset);
        proof {
            assert(listed(entries@) =~= dots);
            assert(dots =~= dots + named_entries(namespace, inode_number, offset, 0));
        }
        let names = names_below(&self.active.namespace.directory_entries, inode_number);
        let ghost all = names_of(namespace.entries, inode_number);
        let mut i: usize = 0;
        while i < names.len()
            invariant
                i <= names@.len(),
                namespace == self@.namespace(),
                all == names_of(namespace.entries, inode_number),
                all == byte_views(names@),
                lists_names(all, namespace.entries, inode_number),
                listed(entries@) == dots + named_entries(
                    namespace,
                    inode_number,
                    offset,
                    i as nat,
                ),
            decreases names@.len() - i,
        {
            proof {
                assert(all[i as int] == names@[i as int]@);
                assert(namespace.entries.contains_key(named_key(inode_number, all[i as int])));
            }
            if place_at(i, FUSE_DIRECTORY_ENTRY_FIRST_OFFSET) > offset {
                match self.active.namespace.directory_entry(inode_number, names[i].as_slice()) {
                    Some(entry) => {
                        let ghost before = entries@;
                        entries.push(
                            DirectoryEntrySnapshot {
                                inode: entry.inode,
                                offset: place_at(i, FUSE_DIRECTORY_ENTRY_FIRST_OFFSET + 1),
                                kind: entry.kind,
                                name: copy_bytes(names[i].as_slice()),
                            },
                        );
                        proof {
                            assert(listed(entries@) =~= listed(before).push(entries@.last()@));
                            assert(listed(entries@) =~= dots + named_entries(
                                namespace,
                                inode_number,
                                offset,
                                (i + 1) as nat,
                            ));
                        }
                    },
                    None => {
                        assert(false);
                    },
                }
            }
            i = i + 1;
        }
        Ok(entries)
    }

    /// Lists a directory after an offset, with the attributes of each inode, up to one that is missing.
    pub fn readdirplus(&self, inode_number: u64, offset: u64) -> (listing: Result<
        DirectoryPlusListing,
        FuseError,
    >)
        ensures
            match listing {
                Ok(listing) => {
                    let plain = directory_listing(self@.namespace(), inode_number, offset);
                    &&& plain is Ok
                    &&& listed_plus(listing.entries@) == with_inodes(
                        self@.namespace(),
                        plain->Ok_0,
                    )
                    &&& listing.error == (if listing.entries@.len() < plain->Ok_0.len() {
                        Some(FuseError::Errno(Errno::ENOENT))
                    } else {
                        None
                    })
                },
                Err(error) => directory_listing(self@.namespace(), inode_number, offset) == Err::<
                    Seq<EntryView>,
                    FuseError,
                >(error),
            },
            listing is Ok ==> lists_names(
                names_of(self@.namespace().entries, inode_number),
                self@.namespace().entries,
                inode_number,
            ),
    {
        let plain = match self.readdir(inode_number, offset) {
            Err(error) => return Err(error),
            Ok(entries) => entries,
        };
        let ghost namespace = self@.namespace();
        let ghost all = listed(plain@);
        let mut entries: Vec<DirectoryEntryPlusSnapshot> = Vec::new();
        let mut i: usize = 0;
        proof {
            assert(all.take(0) =~= Seq::<EntryView>::empty());
            assert(listed_plus(entries@) =~= Seq::<EntryPlusView>::empty());
        }
        while i < plain.len()
            invariant
                i <= plain@.len(),
                namespace == self@.namespace(),
                all == listed(plain@),
                lists_names(
                    names_of(namespace.entries, inode_number),
                    namespace.entries,
                    inode_number,
                ),
                directory_listing(namespace, inode_number, offset) == Ok::<
                    Seq<EntryView>,
                    FuseError,
                >(all),
                listed_plus(entries@) == with_inodes(namespace, all.take(i as int)),
                entries@.len() == i,
            decreases plain@.len() - i,
        {
            let entry = &plain[i];
            proof {
                assert(all.take(i + 1).drop_last() =~= all.take(i as int));
                assert(all.take(i + 1).last() == entry@);
            }
            match self.active.namespace.inode(entry.inode) {
                None => {
                    proof {
                        lemma_listing_stops(namespace, all, i + 1);
                    }
                    return Ok(
                        DirectoryPlusListing {
                            entries,
                            error: Some(FuseError::Errno(Errno::ENOENT)),
                        },
                    );
                },
                Some(inode) => {
                    let ghost before = entries@;
                    entries.push(
                        DirectoryEntryPlusSnapshot {
                            inode: entry.inode,
                            offset: entry.offset,
                            name: copy_bytes(entry.name.as_slice()),
                            entry: entry_answer(entry.inode, inode),
                        },
                    );
                    proof {
                        assert(listed_plus(entries@) =~= listed_plus(before).push(
                            entries@.last()@,
                        ));
                    }
                },
            }
            i = i + 1;
        }
        proof {
            assert(all.take(i as int) =~= all);
        }
        Ok(DirectoryPlusListing { entries, error: None })
    }

    /// Checks that access is allowed.
    pub fn access(
        &self,
        inode_number: u64,
        request_uid: u32,
        request_gid: u32,
        mask: i32,
    ) -> (result: Result<(), FuseError>)
        ensures
            result == (match inode_of(self@.namespace(), inode_number) {
                Err(error) => Err::<(), FuseError>(error),
                Ok(inode) => if may_access(inode, request_uid, request_gid, mask) {
                    Ok::<(), FuseError>(())
                } else {
                    Err::<(), FuseError>(FuseError::Errno(Errno::EACCES))
                },
            }),
            result == access_answer(
                self@.namespace(),
                inode_number,
                request_uid,
                request_gid,
                mask,
            ),
    {
        match self.active.namespace.inode(inode_number) {
            None => Err(FuseError::Errno(Errno::ENOENT)),
            Some(inode) => if access_allowed(inode, request_uid, request_gid, mask) {
                Ok(())
            } else {
                Err(FuseError::Errno(Errno::EACCES))
            },
        }
    }

    /// Returns the statistics of the filesystem.
    pub fn statfs(&self, backing: BackingFileSystemStatistics) -> (statistics: Result<
        FileSystemStatistics,
        FuseError,
    >)
        ensures
            statistics == (match number_at(self@.image.metadata, next_inode_number_key()) {
                Err(_) => Err::<FileSystemStatistics, FuseError>(FuseError::Integrity),
                Ok(next) => reported_statistics(backing, next),
            }),
    {
        let key = next_inode_number_key_bytes();
        match read_metadata_u64(&self.database.metadata, key.as_slice()) {
            Err(_) => Err(FuseError::Integrity),
            Ok(next) => statistics_from_backing(backing, next),
        }
    }

    /// Prepares the setting of an extended attribute.
    pub fn setxattr(
        &self,
        inode_number: u64,
        name: &[u8],
        value: &[u8],
        flags: i32,
        now: StoredTime,
        created_at: time::UtcDateTime,
    ) -> (result: Result<Option<PreparedCommit>, FuseError>)
        ensures
            prepares_optionally(
                self@,
                result,
                match attribute_setting(
                    self@.namespace(),
                    self@.write,
                    inode_number,
                    name@,
                    value@,
                    flags,
                    now,
                    created_at,
                ) {
                    Err(error) => Err(error),
                    Ok(None) => Ok(None),
                    Ok(Some(change)) => match self@.prepare_change(change) {
                        Err(error) => Err(error),
                        Ok(prepared) => Ok(Some(prepared)),
                    },
                },
            ),
    {
        match plan_attribute_setting(
            &self.active.namespace,
            self.write_state,
            inode_number,
            name,
            value,
            flags,
            now,
            created_at,
        ) {
            Err(error) => Err(error),
            Ok(None) => Ok(None),
            Ok(Some(change)) => match self.prepare_change(change) {
                Err(error) => Err(error),
                Ok(prepared) => Ok(Some(prepared)),
            },
        }
    }

    /// Returns the value of an extended attribute.
    pub fn getxattr(&self, inode_number: u64, name: &[u8]) -> (value: Result<Vec<u8>, FuseError>)
        ensures
            gives_bytes(
                value,
                match inode_of(self@.namespace(), inode_number) {
                    Err(error) => Err(error),
                    Ok(inode) => if !has_attributes(inode.kind) {
                        Err(FuseError::Errno(Errno::ENOTSUP))
                    } else if attribute_name_error(name@) is Some {
                        Err(attribute_name_error(name@)->0)
                    } else {
                        match self@.namespace().attribute(inode_number, name@) {
                            Some(value) => Ok(value),
                            None => Err(FuseError::Errno(Errno::NO_XATTR)),
                        }
                    },
                },
            ),
            gives_bytes(value, attribute_answer(self@.namespace(), inode_number, name@)),
    {
        match self.active.namespace.inode(inode_number) {
            None => Err(FuseError::Errno(Errno::ENOENT)),
            Some(inode) => {
                match validate_extended_attribute_inode(inode) {
                    Err(error) => return Err(error),
                    Ok(_) => {},
                }
                let name_bytes = match validate_extended_attribute_name(name) {
                    Err(error) => return Err(error),
                    Ok(bytes) => bytes,
                };
                match self.active.namespace.extended_attribute(
                    inode_number,
                    name_bytes.as_slice(),
                ) {
                    Some(value) => Ok(copy_bytes(value.as_slice())),
                    None => Err(FuseError::Errno(Errno::NO_XATTR)),
                }
            },
        }
    }

    /// Lists the extended attributes of an inode, each name followed by a zero.
    pub fn listxattr(&self, inode_number: u64) -> (list: Result<ExtendedAttributeList, FuseError>)
        ensures
            ({
                let names = names_of(self@.namespace().attributes, inode_number);
                let expected = match inode_of(self@.namespace(), inode_number) {
                    Err(error) => Err::<Seq<u8>, FuseError>(error),
                    Ok(inode) => if !has_attributes(inode.kind) {
                        Err::<Seq<u8>, FuseError>(FuseError::Errno(Errno::ENOTSUP))
                    } else if attribute_list(names).len() > XATTR_LIST_MAX_BYTES {
                        Err::<Seq<u8>, FuseError>(FuseError::Errno(Errno::E2BIG))
                    } else {
                        Ok::<Seq<u8>, FuseError>(attribute_list(names))
                    },
                };
                match list {
                    Ok(list) => expected == Ok::<Seq<u8>, FuseError>(list.bytes@),
                    Err(error) => expected == Err::<Seq<u8>, FuseError>(error),
                }
            }),
            match list {
                Ok(list) => attribute_names_answer(self@.namespace(), inode_number) == Ok::<
                    Seq<u8>,
                    FuseError,
                >(list.bytes@),
                Err(error) => attribute_names_answer(self@.namespace(), inode_number) == Err::<
                    Seq<u8>,
                    FuseError,
                >(error),
            },
            list is Ok ==> lists_names(
                names_of(self@.namespace().attributes, inode_number),
                self@.namespace().attributes,
                inode_number,
            ),
    {
        match self.active.namespace.inode(inode_number) {
            None => return Err(FuseError::Errno(Errno::ENOENT)),
            Some(inode) => match validate_extended_attribute_inode(inode) {
                Err(error) => return Err(error),
                Ok(_) => {},
            },
        }
        let names = names_below(&self.active.namespace.extended_attributes, inode_number);
        let ghost all = names_of(self@.namespace().attributes, inode_number);
        proof {
            lemma_same_names(self.active.namespace.extended_attributes@, inode_number);
        }
        let mut bytes: Vec<u8> = Vec::new();
        let mut i: usize = 0;
        proof {
            assert(all.take(0) =~= Seq::<Seq<u8>>::empty());
        }
        while i < names.len()
            invariant
                i <= names@.len(),
                all == byte_views(names@),
                all == names_of(self@.namespace().attributes, inode_number),
                inode_of(self@.namespace(), inode_number) is Ok,
                has_attributes(inode_of(self@.namespace(), inode_number)->Ok_0.kind),
                bytes@ == attribute_list(all.take(i as int)),
                bytes@.len() <= XATTR_LIST_MAX_BYTES,
            decreases names@.len() - i,
        {
            proof {
                assert(all.take(i + 1).drop_last() =~= all.take(i as int));
                assert(all.take(i + 1).last() == names@[i as int]@);
                lemma_longer_list(all, i + 1);
            }
            crate::bytes::append_bytes(&mut bytes, names[i].as_slice());
            bytes.push(0);
            proof {
                assert(bytes@ =~= attribute_list(all.take(i + 1)));
            }
            if bytes.len() > XATTR_LIST_MAX_BYTES {
                return Err(FuseError::Errno(Errno::E2BIG));
            }
            i = i + 1;
        }
        proof {
            assert(all.take(i as int) =~= all);
        }
        Ok(ExtendedAttributeList { bytes })
    }

    /// Prepares the removal of an extended attribute.
    pub fn removexattr(
        &self,
        inode_number: u64,
        name: &[u8],
        now: StoredTime,
        created_at: time::UtcDateTime,
    ) -> (result: Result<PreparedCommit, FuseError>)
        ensures
            prepares(
                self@,
                result,
                plain_commit(
                    self@,
                    attribute_removal(
                        self@.namespace(),
                        self@.write,
                        inode_number,
                        name@,
                        now,
                        created_at,
                    ),
                ),
            ),
    {
        match plan_attribute_removal(
            &self.active.namespace,
            self.write_state,
            inode_number,
            name,
            now,
            created_at,
        ) {
            Err(error) => Err(error),
            Ok(change) => self.prepare_change(change),
        }
    }

    /// Returns the name of the filesystem.
    pub fn volume_name(&self) -> (name: Result<String, FilesystemError>)
        ensures
            match name {
                Ok(name) => text_at(self@.image.metadata, volume_name_key()) == Ok::<
                    Seq<char>,
                    FilesystemError,
                >(name@),
                Err(error) => text_at(self@.image.metadata, volume_name_key()) == Err::<
                    Seq<char>,
                    FilesystemError,
                >(error),
            },
    {
        let key = volume_name_key_bytes();
        read_metadata_string(&self.database.metadata, key.as_slice())
    }
}

proof fn lemma_listing_stops(namespace: Namespace, entries: Seq<EntryView>, count: int)
    requires
        0 < count <= entries.len(),
        with_inodes(namespace, entries.take(count)).len() < count,
    ensures
        with_inodes(namespace, entries) == with_inodes(namespace, entries.take(count)),
    decreases entries.len() - count,
{
    if count == entries.len() {
        assert(entries.take(count) =~= entries);
    } else {
        assert(entries.take(count + 1).drop_last() =~= entries.take(count));
        lemma_listing_stops(namespace, entries, count + 1);
    }
}

proof fn lemma_same_names(table: Map<Seq<u8>, Vec<u8>>, number: u64)
    requires
        lists_names(names_of(table, number), table, number),
    ensures
        names_of(table, number) == names_of(crate::hash::blobs(table), number),
        lists_names(
            names_of(crate::hash::blobs(table), number),
            crate::hash::blobs(table),
            number,
        ),
{
    let names = names_of(table, number);
    let map = crate::hash::blobs(table);
    assert(lists_names(names, map, number)) by {
        assert forall|i: int| 0 <= i < names.len() implies map.contains_key(
            named_key(number, #[trigger] names[i]),
        ) by {
            assert(table.contains_key(named_key(number, names[i])));
        }
        assert forall|name: Seq<u8>| map.contains_key(
            #[trigger] named_key(number, name),
        ) implies names.contains(name) by {
            assert(table.contains_key(named_key(number, name)));
        }
    }
    crate::namespace::lemma_names_of(names, map, number);
}

} // verus!
