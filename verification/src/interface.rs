//! What callers of the filesystem use: listings, history and branches, and walks that load one page at
//! a time.

use vstd::prelude::*;

use crate::branches::{
    branches_after, describes, describes_page, gives_record, PreparedBranch, PreparedDeletion,
};
use crate::database::BranchView;
use crate::error::FilesystemError;
use crate::filesystem::{
    BranchEventPage, BranchIdentifier, BranchName, BranchPage, BranchPageLimit, BranchPosition,
    BranchRecord, EventPage, EventPageLimit, EventRecord, EventRecordView, EventSequence,
    FileEventPayloadPart, FileIdentifier, FileSnapshot,
};
use crate::history::{
    branch_events_after, branch_file_events_after, branch_page, clipped, event_of, event_page,
    events_after, file_events_after, manifest_of_contents, manifest_of_part, part_length,
    reads_contents, record_views, snapshot_by_position, snapshot_by_sequence,
};
use crate::paging::{PageLoaded, PageStep, PagedRecords};
use crate::sessions::Filesystem;
use crate::storage::StorageView;

verus! {

/// A walk over all events, or over those of one file on the active branch.
pub struct EventWalk {
    /// The file, where the walk is over the events of one.
    pub file: Option<FileIdentifier>,
    /// Records to load at a time.
    pub limit: EventPageLimit,
    /// Where the walk is.
    pub pages: PagedRecords<EventSequence, EventRecord>,
}

/// A walk over the events of a branch, or over those of one file on it.
pub struct BranchEventWalk {
    /// The branch.
    pub branch: BranchIdentifier,
    /// The file, where the walk is over the events of one.
    pub file: Option<FileIdentifier>,
    /// Records to load at a time.
    pub limit: EventPageLimit,
    /// Where the walk is.
    pub pages: PagedRecords<BranchPosition, EventRecord>,
}

/// A walk over the branches.
pub struct BranchWalk {
    /// Records to load at a time.
    pub limit: BranchPageLimit,
    /// Where the walk is.
    pub pages: PagedRecords<BranchIdentifier, BranchRecord>,
}

/// A walk that has not handed out anything.
pub open spec fn unwalked<Cursor: Copy, Record>(pages: PagedRecords<Cursor, Record>) -> bool {
    pages.after is None && pages.remaining().len() == 0 && !pages.exhausted
}

/// The page that a walk over events loads next.
pub open spec fn event_walk_page(
    storage: StorageView,
    file: Option<FileIdentifier>,
    after: Option<EventSequence>,
    limit: nat,
) -> Option<(Seq<EventRecordView>, bool)> {
    match file {
        None => events_after(storage.image, after, limit),
        Some(file) => file_events_after(
            storage.image,
            BranchIdentifier(storage.write.active_branch_identifier),
            file,
            after,
            limit,
        ),
    }
}

/// The page that a walk over the events of a branch loads next.
pub open spec fn branch_event_walk_page(
    storage: StorageView,
    branch: BranchIdentifier,
    file: Option<FileIdentifier>,
    after: Option<BranchPosition>,
    limit: nat,
) -> Option<(Seq<EventRecordView>, bool)> {
    match file {
        None => branch_events_after(storage.image, branch, after, limit),
        Some(file) => branch_file_events_after(storage.image, branch, file, after, limit),
    }
}

/// What a walk hands out next: a record of the loaded page; else nothing where no page is left; else
/// the first record of the next page, nothing where it is empty, and an integrity error where it cannot
/// be read. After an error and after the last page the walk is over.
pub open spec fn walks<Cursor: Copy>(
    before: PagedRecords<Cursor, EventRecord>,
    after: PagedRecords<Cursor, EventRecord>,
    next: Option<Result<EventRecord, FilesystemError>>,
    page: Option<(Seq<EventRecordView>, Option<Cursor>)>,
) -> bool {
    if before.remaining().len() > 0 {
        &&& next == Some(Ok::<EventRecord, FilesystemError>(before.remaining()[0]))
        &&& after.remaining() == before.remaining().skip(1)
        &&& after.after == before.after
        &&& after.exhausted == before.exhausted
    } else if before.exhausted {
        next is None && after.remaining().len() == 0 && after.exhausted
    } else {
        match page {
            None => {
                &&& next == Some(
                    Err::<EventRecord, FilesystemError>(FilesystemError::Integrity),
                )
                &&& after.remaining().len() == 0
                &&& after.exhausted
            },
            Some((records, cursor)) => if records.len() == 0 {
                next is None && after.remaining().len() == 0 && after.exhausted
            } else {
                &&& next is Some
                &&& next->0 is Ok
                &&& next->0->Ok_0@ == records[0]
                &&& record_views(after.remaining()) == records.skip(1)
                &&& after.after == cursor
                &&& after.exhausted == cursor is None
            },
        }
    }
}

/// The records of a page of events and the cursor after it.
pub open spec fn sequence_cursor(page: Option<(Seq<EventRecordView>, bool)>) -> Option<
    (Seq<EventRecordView>, Option<EventSequence>),
> {
    match page {
        None => None,
        Some((records, more)) => Some(
            (
                records,
                if more && records.len() > 0 {
                    Some(records.last().sequence)
                } else {
                    None
                },
            ),
        ),
    }
}

/// The records of a page of events of a branch and the cursor after it.
pub open spec fn position_cursor(page: Option<(Seq<EventRecordView>, bool)>) -> Option<
    (Seq<EventRecordView>, Option<BranchPosition>),
> {
    match page {
        None => None,
        Some((records, more)) => Some(
            (
                records,
                if more && records.len() > 0 {
                    records.last().branch_position
                } else {
                    None
                },
            ),
        ),
    }
}

/// The records describe the branches.
pub open spec fn describe_all(records: Seq<BranchRecord>, branches: Seq<BranchView>) -> bool {
    &&& records.len() == branches.len()
    &&& forall|i: int| 0 <= i < records.len() ==> describes(#[trigger] records[i], branches[i])
}

/// What a walk over the branches hands out next.
pub open spec fn walks_branches(
    before: PagedRecords<BranchIdentifier, BranchRecord>,
    after: PagedRecords<BranchIdentifier, BranchRecord>,
    next: Option<Result<BranchRecord, FilesystemError>>,
    page: Option<(Seq<BranchView>, bool)>,
) -> bool {
    if before.remaining().len() > 0 {
        &&& next == Some(Ok::<BranchRecord, FilesystemError>(before.remaining()[0]))
        &&& after.remaining() == before.remaining().skip(1)
        &&& after.after == before.after
        &&& after.exhausted == before.exhausted
    } else if before.exhausted {
        next is None && after.remaining().len() == 0 && after.exhausted
    } else {
        match page {
            None => {
                &&& next == Some(
                    Err::<BranchRecord, FilesystemError>(FilesystemError::Integrity),
                )
                &&& after.remaining().len() == 0
                &&& after.exhausted
            },
            Some((branches, more)) => if branches.len() == 0 {
                next is None && after.remaining().len() == 0 && after.exhausted
            } else {
                &&& next is Some
                &&& next->0 is Ok
                &&& describes(next->0->Ok_0, branches[0])
                &&& describe_all(after.remaining(), branches.skip(1))
                &&& after.exhausted == !more
                &&& more ==> after.after == Some(BranchIdentifier(branches.last().identifier))
            },
        }
    }
}

proof fn lemma_first_record(records: Seq<EventRecord>)
    ensures
        records.len() > 0 ==> record_views(records)[0] == records[0]@ && record_views(
            records.skip(1),
        ) == record_views(records).skip(1),
{
    if records.len() > 0 {
        assert(record_views(records.skip(1)) =~= record_views(records).skip(1));
    }
}

/// Takes a loaded page in and hands out its first record.
fn walk_on<Cursor: Copy, Record>(
    pages: &mut PagedRecords<Cursor, Record>,
    page: Result<(Vec<Record>, Option<Cursor>), FilesystemError>,
) -> (next: Option<Result<Record, FilesystemError>>)
    requires
        old(pages).remaining().len() == 0,
    ensures
        match page {
            Err(error) => {
                &&& next == Some(Err::<Record, FilesystemError>(error))
                &&& final(pages).remaining().len() == 0
                &&& final(pages).exhausted
            },
            Ok(content) => if content.0@.len() == 0 {
                next is None && final(pages).remaining().len() == 0 && final(pages).exhausted
            } else {
                &&& next == Some(Ok::<Record, FilesystemError>(content.0@[0]))
                &&& final(pages).remaining() == content.0@.skip(1)
                &&& final(pages).after == content.1
                &&& final(pages).exhausted == content.1 is None
            },
        },
{
    match pages.page_loaded(page) {
        PageLoaded::Failed(error) => Some(Err(error)),
        PageLoaded::Done => None,
        PageLoaded::Continue => match pages.next_step() {
            PageStep::Yield(record) => Some(Ok(record)),
            _ => None,
        },
    }
}

impl Filesystem {
    /// Starts a walk over all events.
    pub fn events(&self, limit: EventPageLimit) -> (walk: EventWalk)
        ensures
            walk.file is None,
            walk.limit == limit,
            unwalked(walk.pages),
    {
        EventWalk { file: None, limit, pages: PagedRecords::new() }
    }

    /// Starts a walk over the events of a file on the active branch.
    pub fn file_events(&self, file_identifier: FileIdentifier, limit: EventPageLimit) -> (walk:
        EventWalk)
        ensures
            walk.file == Some(file_identifier),
            walk.limit == limit,
            unwalked(walk.pages),
    {
        EventWalk { file: Some(file_identifier), limit, pages: PagedRecords::new() }
    }

    /// Hands out the next event of a walk.
    pub fn next_event(&self, walk: &mut EventWalk) -> (next: Option<
        Result<EventRecord, FilesystemError>,
    >)
        ensures
            final(walk).file == old(walk).file,
            final(walk).limit == old(walk).limit,
            walks(
                old(walk).pages,
                final(walk).pages,
                next,
                sequence_cursor(
                    event_walk_page(
                        self.storage@,
                        old(walk).file,
                        old(walk).pages.after,
                        old(walk).limit@ as nat,
                    ),
                ),
            ),
    {
        match walk.pages.next_step() {
            PageStep::Yield(record) => Some(Ok(record)),
            PageStep::Done => None,
            PageStep::Load(after) => {
                let page = match walk.file {
                    None => self.storage.list_events(after, walk.limit),
                    Some(file) => self.storage.list_file_events(file, after, walk.limit),
                };
                match page {
                    Err(error) => walk_on(&mut walk.pages, Err(error)),
                    Ok(page) => {
                        proof {
                            lemma_first_record(page.records@);
                        }
                        walk_on(&mut walk.pages, Ok((page.records, page.next_after)))
                    },
                }
            },
        }
    }

    /// Starts a walk over the events of a branch.
    pub fn branch_events(&self, branch: BranchIdentifier, limit: EventPageLimit) -> (walk:
        BranchEventWalk)
        ensures
            walk.branch == branch,
            walk.file is None,
            walk.limit == limit,
            unwalked(walk.pages),
    {
        BranchEventWalk { branch, file: None, limit, pages: PagedRecords::new() }
    }

    /// Starts a walk over the events of a file on a branch.
    pub fn branch_file_events(
        &self,
        branch: BranchIdentifier,
        file_identifier: FileIdentifier,
        limit: EventPageLimit,
    ) -> (walk: BranchEventWalk)
        ensures
            walk.branch == branch,
            walk.file == Some(file_identifier),
            walk.limit == limit,
            unwalked(walk.pages),
    {
        BranchEventWalk {
            branch,
            file: Some(file_identifier),
            limit,
            pages: PagedRecords::new(),
        }
    }

    /// Hands out the next event of a walk over a branch.
    pub fn next_branch_event(&self, walk: &mut BranchEventWalk) -> (next: Option<
        Result<EventRecord, FilesystemError>,
    >)
        ensures
            final(walk).branch == old(walk).branch,
            final(walk).file == old(walk).file,
            final(walk).limit == old(walk).limit,
            walks(
                old(walk).pages,
                final(walk).pages,
                next,
                position_cursor(
                    branch_event_walk_page(
                        self.storage@,
                        old(walk).branch,
                        old(walk).file,
                        old(walk).pages.after,
                        old(walk).limit@ as nat,
                    ),
                ),
            ),
    {
        match walk.pages.next_step() {
            PageStep::Yield(record) => Some(Ok(record)),
            PageStep::Done => None,
            PageStep::Load(after) => {
                let page = match walk.file {
                    None => self.storage.list_branch_events(walk.branch, after, walk.limit),
                    Some(file) => self.storage.list_branch_file_events(
                        walk.branch,
                        file,
                        after,
                        walk.limit,
                    ),
                };
                match page {
                    Err(error) => walk_on(&mut walk.pages, Err(error)),
                    Ok(page) => {
                        proof {
                            lemma_first_record(page.records@);
                        }
                        walk_on(&mut walk.pages, Ok((page.records, page.next_after)))
                    },
                }
            },
        }
    }

    /// Starts a walk over the branches.
    pub fn branches(&self, limit: BranchPageLimit) -> (walk: BranchWalk)
        ensures
            walk.limit == limit,
            unwalked(walk.pages),
    {
        BranchWalk { limit, pages: PagedRecords::new() }
    }

    /// Hands out the next branch of a walk.
    pub fn next_branch(&self, walk: &mut BranchWalk) -> (next: Option<
        Result<BranchRecord, FilesystemError>,
    >)
        ensures
            final(walk).limit == old(walk).limit,
            walks_branches(
                old(walk).pages,
                final(walk).pages,
                next,
                branches_after(
                    self.storage@.image,
                    old(walk).pages.after,
                    old(walk).limit@ as nat,
                ),
            ),
    {
        match walk.pages.next_step() {
            PageStep::Yield(record) => Some(Ok(record)),
            PageStep::Done => None,
            PageStep::Load(after) => match self.storage.list_branches(after, walk.limit) {
                Err(error) => walk_on(&mut walk.pages, Err(error)),
                Ok(page) => walk_on(&mut walk.pages, Ok((page.records, page.next_after))),
            },
        }
    }

    /// Lists events after a sequence, in order.
    pub fn list_events(&self, after: Option<EventSequence>, limit: EventPageLimit) -> (page: Result<
        EventPage,
        FilesystemError,
    >)
        ensures
            match page {
                Ok(page) => {
                    let expected = events_after(self.storage@.image, after, limit@ as nat);
                    expected is Some && event_page(page, expected->0)
                },
                Err(error) => error == FilesystemError::Integrity && events_after(
                    self.storage@.image,
                    after,
                    limit@ as nat,
                ) is None,
            },
    {
        self.storage.list_events(after, limit)
    }

    /// Returns an event.
    pub fn get_event(&self, sequence: EventSequence) -> (event: Result<
        Option<EventRecord>,
        FilesystemError,
    >)
        ensures
            match event {
                Ok(Some(record)) => event_of(self.storage@.image, sequence.0) == Ok::<
                    Option<EventRecordView>,
                    FilesystemError,
                >(Some(record@)),
                Ok(None) => event_of(self.storage@.image, sequence.0) == Ok::<
                    Option<EventRecordView>,
                    FilesystemError,
                >(None),
                Err(error) => event_of(self.storage@.image, sequence.0) == Err::<
                    Option<EventRecordView>,
                    FilesystemError,
                >(error),
            },
    {
        self.storage.get_event(sequence)
    }

    /// Lists the events of a branch after a position, in order.
    pub fn list_branch_events(
        &self,
        branch: BranchIdentifier,
        after: Option<BranchPosition>,
        limit: EventPageLimit,
    ) -> (page: Result<BranchEventPage, FilesystemError>)
        ensures
            match page {
                Ok(page) => {
                    let expected = branch_events_after(self.storage@.image, branch, after, limit@ as nat);
                    expected is Some && branch_page(page, expected->0)
                },
                Err(error) => error == FilesystemError::Integrity && branch_events_after(
                    self.storage@.image,
                    branch,
                    after,
                    limit@ as nat,
                ) is None,
            },
    {
        self.storage.list_branch_events(branch, after, limit)
    }

    /// Lists the events of a file on a branch after a position, in order.
    pub fn list_branch_file_events(
        &self,
        branch: BranchIdentifier,
        file_identifier: FileIdentifier,
        after: Option<BranchPosition>,
        limit: EventPageLimit,
    ) -> (page: Result<BranchEventPage, FilesystemError>)
        ensures
            match page {
                Ok(page) => {
                    let expected = branch_file_events_after(
                        self.storage@.image,
                        branch,
                        file_identifier,
                        after,
                        limit@ as nat,
                    );
                    expected is Some && branch_page(page, expected->0)
                },
                Err(error) => error == FilesystemError::Integrity && branch_file_events_after(
                    self.storage@.image,
                    branch,
                    file_identifier,
                    after,
                    limit@ as nat,
                ) is None,
            },
    {
        self.storage.list_branch_file_events(branch, file_identifier, after, limit)
    }

    /// Lists the events of a file on the active branch after a sequence, in order.
    pub fn list_file_events(
        &self,
        file_identifier: FileIdentifier,
        after: Option<EventSequence>,
        limit: EventPageLimit,
    ) -> (page: Result<EventPage, FilesystemError>)
        ensures
            match page {
                Ok(page) => {
                    let expected = file_events_after(
                        self.storage@.image,
                        BranchIdentifier(self.storage@.write.active_branch_identifier),
                        file_identifier,
                        after,
                        limit@ as nat,
                    );
                    expected is Some && event_page(page, expected->0)
                },
                Err(error) => error == FilesystemError::Integrity && file_events_after(
                    self.storage@.image,
                    BranchIdentifier(self.storage@.write.active_branch_identifier),
                    file_identifier,
                    after,
                    limit@ as nat,
                ) is None,
            },
    {
        self.storage.list_file_events(file_identifier, after, limit)
    }

    /// Finds the newest snapshot of a file on the active branch at or before a sequence.
    pub fn file_snapshot_at_or_before(
        &self,
        file_identifier: FileIdentifier,
        sequence: EventSequence,
    ) -> (snapshot: Result<Option<FileSnapshot>, FilesystemError>)
        ensures
            snapshot == snapshot_by_sequence(
                self.storage@.image,
                BranchIdentifier(self.storage@.write.active_branch_identifier),
                file_identifier,
                sequence.0,
            ),
    {
        self.storage.file_snapshot_at_or_before(file_identifier, sequence)
    }

    /// Finds the newest snapshot of a file on a branch at or before a position of that branch.
    pub fn file_snapshot_on_branch_at_or_before(
        &self,
        branch: BranchIdentifier,
        file_identifier: FileIdentifier,
        position: BranchPosition,
    ) -> (snapshot: Result<Option<FileSnapshot>, FilesystemError>)
        ensures
            snapshot == (if position.branch_identifier != branch {
                Err(FilesystemError::Integrity)
            } else {
                snapshot_by_position(self.storage@.image, branch, file_identifier, position)
            }),
    {
        self.storage.file_snapshot_on_branch_at_or_before(branch, file_identifier, position)
    }

    /// Reads a range of a file as a snapshot has it, up to the end of the file there.
    pub fn read_file_snapshot_range(
        &self,
        snapshot: &FileSnapshot,
        offset: u64,
        length: u64,
    ) -> (bytes: Result<Vec<u8>, FilesystemError>)
        ensures
            reads_contents(
                bytes,
                self.storage@.image,
                manifest_of_contents(
                    self.storage@.image,
                    snapshot.file_identifier,
                    snapshot.branch_position,
                ),
                offset,
                clipped(snapshot.file_size, offset, length),
            ),
    {
        self.storage.read_file_snapshot_range(snapshot, offset, length)
    }

    /// Reads a range of the bytes that an event overwrote or wrote, up to their end. An event that is
    /// not there has none.
    pub fn read_file_event_payload_range(
        &self,
        sequence: EventSequence,
        part: FileEventPayloadPart,
        offset: u64,
        length: u64,
    ) -> (bytes: Result<Vec<u8>, FilesystemError>)
        ensures
            match event_of(self.storage@.image, sequence.0) {
                Err(error) => bytes == Err::<Vec<u8>, FilesystemError>(error),
                Ok(None) => bytes is Ok && bytes->Ok_0@ == Seq::<u8>::empty(),
                Ok(Some(record)) => reads_contents(
                    bytes,
                    self.storage@.image,
                    manifest_of_part(self.storage@.image, sequence.0, part),
                    offset,
                    clipped(
                        match part_length(record, part) {
                            Some(whole) => whole,
                            None => 0,
                        },
                        offset,
                        length,
                    ),
                ),
            },
    {
        self.storage.read_file_event_payload_range(sequence, part, offset, length)
    }

    /// Describes the active branch.
    pub fn current_branch(&self) -> (record: Result<BranchRecord, FilesystemError>)
        ensures
            gives_record(record, Some(self.storage@.active.branch)),
    {
        self.storage.current_branch()
    }

    /// Lists branches after a number, in order, the deleted ones too.
    pub fn list_branches(&self, after: Option<BranchIdentifier>, limit: BranchPageLimit) -> (page:
        Result<BranchPage, FilesystemError>)
        ensures
            match page {
                Ok(page) => {
                    let expected = branches_after(self.storage@.image, after, limit@ as nat);
                    expected is Some && describes_page(page, expected->0)
                },
                Err(error) => error == FilesystemError::Integrity && branches_after(
                    self.storage@.image,
                    after,
                    limit@ as nat,
                ) is None,
            },
    {
        self.storage.list_branches(after, limit)
    }

    /// Prepares the creation of a branch that starts at a position of another.
    pub fn create_branch(&self, name: &BranchName, from: BranchPosition) -> (prepared: Result<
        PreparedBranch,
        FilesystemError,
    >)
        ensures
            match prepared {
                Ok(prepared) => self.storage@.branch_creation(name@, from) == Some(prepared@)
                    && describes(prepared.record, prepared@.branch),
                Err(error) => error == FilesystemError::Integrity && self.storage@.branch_creation(
                    name@,
                    from,
                ) is None,
            },
    {
        self.storage.create_branch(name, from)
    }

    /// Prepares the deletion of a branch.
    pub fn delete_branch(&self, name: &BranchName) -> (prepared: Result<
        PreparedDeletion,
        FilesystemError,
    >)
        ensures
            match prepared {
                Ok(prepared) => self.storage@.branch_deletion(name@) == Some(prepared.batch@),
                Err(error) => error == FilesystemError::Integrity && self.storage@.branch_deletion(
                    name@,
                ) is None,
            },
    {
        self.storage.delete_branch(name)
    }
}

} // verus!
