//! The public values of the filesystem: identifiers, positions, event and branch records, and pages
//! of them.

use std::cmp::Ordering;

use vstd::prelude::*;
use vstd::std_specs::cmp::PartialOrdIs;

use crate::error::ConfigurationError;

verus! {

/// The outside type of event creation times: a UTC date and time. It is carried through and never
/// looked into.
#[verifier::external_type_specification]
#[verifier::external_body]
pub struct ExUtcDateTime(time::UtcDateTime);

/// Strictly ordered event sequence number.
#[derive(Clone, Copy, Debug, PartialEq, Eq, Ord, Hash, Structural)]
pub struct EventSequence(pub u64);

impl PartialOrd for EventSequence {
    fn partial_cmp(&self, other: &Self) -> (order: Option<Ordering>) {
        if self.0 < other.0 {
            Some(Ordering::Less)
        } else if self.0 == other.0 {
            Some(Ordering::Equal)
        } else {
            Some(Ordering::Greater)
        }
    }
}

impl vstd::std_specs::cmp::PartialOrdSpecImpl for EventSequence {
    open spec fn obeys_partial_cmp_spec() -> bool {
        true
    }

    open spec fn partial_cmp_spec(&self, other: &Self) -> Option<Ordering> {
        if self.0 < other.0 {
            Some(Ordering::Less)
        } else if self.0 == other.0 {
            Some(Ordering::Equal)
        } else {
            Some(Ordering::Greater)
        }
    }
}

/// Sequences are ordered as their numbers are.
pub proof fn lemma_sequences_follow_numbers(a: u64, b: u64)
    ensures
        EventSequence(a).is_lt(&EventSequence(b)) <==> a < b,
        EventSequence(a).is_gt(&EventSequence(b)) <==> a > b,
{
}

impl EventSequence {
    /// Creates an event sequence from its numeric value.
    pub fn new(value: u64) -> (sequence: Self)
        ensures
            sequence.0 == value,
    {
        EventSequence(value)
    }

    /// Returns the numeric sequence value.
    pub fn get(self) -> (value: u64)
        ensures
            value == self.0,
    {
        self.0
    }
}

/// Maximum number of event records returned by one listing call; never zero.
#[derive(Clone, Copy, Debug, PartialEq, Eq, PartialOrd, Ord, Hash)]
pub struct EventPageLimit {
    value: u64,
}

impl EventPageLimit {
    #[verifier::type_invariant]
    spec fn valid(self) -> bool {
        self.value != 0
    }

    /// The numeric value of the limit.
    pub closed spec fn view(self) -> u64 {
        self.value
    }

    /// Creates an event page limit and rejects zero.
    pub fn new(value: u64) -> (limit: Result<Self, ConfigurationError>)
        ensures
            value == 0 ==> limit == Err::<Self, ConfigurationError>(ConfigurationError::ZeroValue),
            value != 0 ==> limit is Ok && limit->Ok_0@ == value,
    {
        if value == 0 {
            return Err(ConfigurationError::ZeroValue);
        }
        Ok(EventPageLimit { value })
    }

    /// Returns the page limit value.
    pub fn get(self) -> (value: u64)
        ensures
            value == self@,
            value > 0,
    {
        proof {
            use_type_invariant(self);
        }
        self.value
    }
}

/// Maximum number of branch records returned by one listing call; never zero.
#[derive(Clone, Copy, Debug, PartialEq, Eq, PartialOrd, Ord, Hash)]
pub struct BranchPageLimit {
    value: u64,
}

impl BranchPageLimit {
    #[verifier::type_invariant]
    spec fn valid(self) -> bool {
        self.value != 0
    }

    /// The numeric value of the limit.
    pub closed spec fn view(self) -> u64 {
        self.value
    }

    /// Creates a branch page limit and rejects zero.
    pub fn new(value: u64) -> (limit: Result<Self, ConfigurationError>)
        ensures
            value == 0 ==> limit == Err::<Self, ConfigurationError>(ConfigurationError::ZeroValue),
            value != 0 ==> limit is Ok && limit->Ok_0@ == value,
    {
        if value == 0 {
            return Err(ConfigurationError::ZeroValue);
        }
        Ok(BranchPageLimit { value })
    }

    /// Returns the page limit value.
    pub fn get(self) -> (value: u64)
        ensures
            value == self@,
            value > 0,
    {
        proof {
            use_type_invariant(self);
        }
        self.value
    }
}

/// Stable identifier for a regular file.
#[derive(Clone, Copy, Debug, PartialEq, Eq, PartialOrd, Ord, Hash, Structural)]
pub struct FileIdentifier(pub u64);

impl FileIdentifier {
    /// Creates a file identifier from its numeric value.
    pub fn new(value: u64) -> (identifier: Self)
        ensures
            identifier.0 == value,
    {
        FileIdentifier(value)
    }

    /// Returns the numeric file identifier value.
    pub fn get(self) -> (value: u64)
        ensures
            value == self.0,
    {
        self.0
    }
}

/// Stable identifier for a branch.
#[derive(Clone, Copy, Debug, PartialEq, Eq, PartialOrd, Ord, Hash, Structural)]
pub struct BranchIdentifier(pub u64);

impl BranchIdentifier {
    /// Creates a branch identifier from its numeric value.
    pub fn new(value: u64) -> (identifier: Self)
        ensures
            identifier.0 == value,
    {
        BranchIdentifier(value)
    }

    /// Returns the numeric branch identifier value.
    pub fn get(self) -> (value: u64)
        ensures
            value == self.0,
    {
        self.0
    }
}

/// Name of a branch; never empty.
#[derive(Debug, PartialEq, Eq, PartialOrd, Ord, Hash)]
pub struct BranchName {
    text: String,
}

impl BranchName {
    #[verifier::type_invariant]
    spec fn valid(self) -> bool {
        self.text@.len() > 0
    }

    /// The characters of the name.
    pub closed spec fn view(self) -> Seq<char> {
        self.text@
    }

    /// Creates a branch name and rejects empty names.
    pub fn new(value: String) -> (name: Result<Self, ConfigurationError>)
        ensures
            value@.len() == 0 ==> name == Err::<Self, ConfigurationError>(
                ConfigurationError::EmptyValue,
            ),
            value@.len() > 0 ==> name is Ok && name->Ok_0@ == value@,
    {
        if value.as_str().is_empty() {
            return Err(ConfigurationError::EmptyValue);
        }
        Ok(BranchName { text: value })
    }

    /// Returns the branch name as text.
    pub fn as_str(&self) -> (text: &str)
        ensures
            text@ == self@,
            text@.len() > 0,
    {
        proof {
            use_type_invariant(self);
        }
        self.text.as_str()
    }
}

impl Clone for BranchName {
    fn clone(&self) -> (name: Self)
        ensures
            name@ == self@,
    {
        proof {
            use_type_invariant(self);
        }
        BranchName { text: self.text.clone() }
    }
}

/// Branch lifecycle state.
#[derive(Clone, Copy, Debug, PartialEq, Eq, PartialOrd, Ord, Hash, Structural)]
pub enum BranchStatus {
    /// Branch can be switched to and extended.
    Open,
    /// Branch ref was deleted and is retained only for historical integrity.
    Deleted,
}

/// Position of an event on one branch.
#[derive(Clone, Copy, Debug, PartialEq, Eq, PartialOrd, Ord, Hash, Structural)]
pub struct BranchPosition {
    /// The branch.
    pub branch_identifier: BranchIdentifier,
    /// The branch-local ordinal.
    pub ordinal: u64,
}

impl BranchPosition {
    /// Creates the position of an ordinal on a branch.
    pub fn new(branch_identifier: BranchIdentifier, ordinal: u64) -> (position: Self)
        ensures
            position.branch_identifier == branch_identifier,
            position.ordinal == ordinal,
    {
        BranchPosition { branch_identifier, ordinal }
    }

    /// Returns the branch identifier for this position.
    pub fn branch_identifier(&self) -> (identifier: BranchIdentifier)
        ensures
            identifier == self.branch_identifier,
    {
        self.branch_identifier
    }

    /// Returns the branch-local ordinal.
    pub fn ordinal(&self) -> (ordinal: u64)
        ensures
            ordinal == self.ordinal,
    {
        self.ordinal
    }
}

/// Branch metadata exposed by branch listing.
#[derive(Clone, Debug, PartialEq, Eq)]
pub struct BranchRecord {
    /// The branch.
    pub branch_identifier: BranchIdentifier,
    /// Its name.
    pub name: BranchName,
    /// Its lifecycle state.
    pub status: BranchStatus,
    /// Position of its newest event.
    pub head_position: BranchPosition,
    /// Sequence of its newest event.
    pub head_sequence: EventSequence,
}

impl BranchRecord {
    /// Creates a branch record.
    pub fn new(
        branch_identifier: BranchIdentifier,
        name: BranchName,
        status: BranchStatus,
        head_position: BranchPosition,
        head_sequence: EventSequence,
    ) -> (record: Self)
        ensures
            record.branch_identifier == branch_identifier,
            record.name == name,
            record.status == status,
            record.head_position == head_position,
            record.head_sequence == head_sequence,
    {
        BranchRecord { branch_identifier, name, status, head_position, head_sequence }
    }

    /// Returns the branch identifier.
    pub fn branch_identifier(&self) -> (identifier: BranchIdentifier)
        ensures
            identifier == self.branch_identifier,
    {
        self.branch_identifier
    }

    /// Returns the branch name.
    pub fn name(&self) -> (name: &BranchName)
        ensures
            *name == self.name,
    {
        &self.name
    }

    /// Returns the branch lifecycle state.
    pub fn status(&self) -> (status: BranchStatus)
        ensures
            status == self.status,
    {
        self.status
    }

    /// Returns the current branch head position.
    pub fn head_position(&self) -> (position: BranchPosition)
        ensures
            position == self.head_position,
    {
        self.head_position
    }

    /// Returns the global event sequence at the branch head.
    pub fn head_sequence(&self) -> (sequence: EventSequence)
        ensures
            sequence == self.head_sequence,
    {
        self.head_sequence
    }
}

/// Page of branch records.
#[derive(Clone, Debug, PartialEq, Eq)]
pub struct BranchPage {
    /// The records of the page.
    pub records: Vec<BranchRecord>,
    /// Cursor of the next page, when there is one.
    pub next_after: Option<BranchIdentifier>,
}

impl BranchPage {
    /// Creates a page.
    pub fn new(records: Vec<BranchRecord>, next_after: Option<BranchIdentifier>) -> (page: Self)
        ensures
            page.records == records,
            page.next_after == next_after,
    {
        BranchPage { records, next_after }
    }

    /// Returns the branch records in this page.
    pub fn records(&self) -> (records: &[BranchRecord])
        ensures
            records@ == self.records@,
    {
        self.records.as_slice()
    }

    /// Returns the branch records owned by this page.
    pub fn into_records(self) -> (records: Vec<BranchRecord>)
        ensures
            records == self.records,
    {
        self.records
    }

    /// Returns the next branch cursor when another page exists.
    pub fn next_after(&self) -> (cursor: Option<BranchIdentifier>)
        ensures
            cursor == self.next_after,
    {
        self.next_after
    }
}

/// Persisted metadata for one regular file at a committed branch position.
#[derive(Clone, Copy, Debug, PartialEq, Eq, Structural)]
pub struct FileSnapshot {
    /// The regular file.
    pub file_identifier: FileIdentifier,
    /// Sequence of the event that the snapshot was taken at.
    pub sequence: EventSequence,
    /// Branch position of that event.
    pub branch_position: BranchPosition,
    /// Size of the file there.
    pub file_size: u64,
}

impl FileSnapshot {
    /// Creates a snapshot.
    pub fn new(
        file_identifier: FileIdentifier,
        sequence: EventSequence,
        branch_position: BranchPosition,
        file_size: u64,
    ) -> (snapshot: Self)
        ensures
            snapshot == (FileSnapshot { file_identifier, sequence, branch_position, file_size }),
    {
        FileSnapshot { file_identifier, sequence, branch_position, file_size }
    }

    /// Returns the regular file identifier captured by this snapshot.
    pub fn file_identifier(&self) -> (identifier: FileIdentifier)
        ensures
            identifier == self.file_identifier,
    {
        self.file_identifier
    }

    /// Returns the source event sequence captured by this snapshot.
    pub fn sequence(&self) -> (sequence: EventSequence)
        ensures
            sequence == self.sequence,
    {
        self.sequence
    }

    /// Returns the branch position captured by this snapshot.
    pub fn branch_position(&self) -> (position: BranchPosition)
        ensures
            position == self.branch_position,
    {
        self.branch_position
    }

    /// Returns the file size captured by this snapshot.
    pub fn file_size(&self) -> (size: u64)
        ensures
            size == self.file_size,
    {
        self.file_size
    }
}

/// Payload part stored for one committed file event.
#[derive(Clone, Copy, Debug, PartialEq, Eq, PartialOrd, Ord, Hash, Structural)]
pub enum FileEventPayloadPart {
    /// Bytes overwritten by a write.
    Overwritten,
    /// Bytes written by a write.
    Written,
}

/// Kind of committed filesystem event.
#[derive(Clone, Copy, Debug, PartialEq, Eq, PartialOrd, Ord, Hash, Structural)]
pub enum EventKind {
    /// Filesystem initialization event.
    FilesystemInitialized,
    /// Special node creation event.
    NodeCreated,
    /// Directory creation event.
    DirectoryCreated,
    /// Regular file creation event.
    FileCreated,
    /// Regular file write event.
    FileWritten,
    /// Node unlink event.
    NodeUnlinked,
    /// Directory removal event.
    DirectoryRemoved,
    /// Node rename event.
    NodeRenamed,
    /// Hard link creation event.
    HardLinkCreated,
    /// Symbolic link creation event.
    SymbolicLinkCreated,
    /// Extended attribute set event.
    ExtendedAttributeSet,
    /// Extended attribute removal event.
    ExtendedAttributeRemoved,
    /// Regular file range zeroing event.
    FileRangeZeroed,
    /// Regular file contents exchange event.
    FileContentsExchanged,
    /// Volume rename event.
    VolumeRenamed,
    /// Permission, ownership or time change event.
    MetadataChanged,
}

/// What an event says of the file contents that it changed.
#[derive(Clone, Copy, Debug, PartialEq, Eq, Structural)]
pub enum EventPayload {
    /// Nothing.
    Nothing,
    /// Sizes and byte counts of a write.
    FileWrite {
        /// File size before the write.
        old_file_size: u64,
        /// File size after the write.
        new_file_size: u64,
        /// Number of bytes overwritten.
        overwritten_byte_length: u64,
        /// Number of bytes written.
        written_byte_length: u64,
    },
    /// Sizes of a size change.
    FileSizeChange {
        /// File size before the change.
        old_file_size: u64,
        /// File size after the change.
        new_file_size: u64,
    },
    /// Sizes of two exchanged files.
    FileExchange {
        /// Size of the first file.
        primary_file_size: u64,
        /// Size of the second file.
        secondary_file_size: u64,
    },
}

/// Schema version written into every event record.
pub const EVENT_RECORD_SCHEMA_VERSION: u64 = 9;

/// Committed filesystem event exposed by event listing.
#[derive(Debug, PartialEq, Eq)]
pub struct EventRecord {
    /// Version of the record layout.
    pub schema_version: u64,
    /// The event sequence.
    pub sequence: EventSequence,
    /// The event kind.
    pub kind: EventKind,
    /// When the event was created.
    pub created_at: time::UtcDateTime,
    /// The affected regular file.
    pub file_identifier: Option<FileIdentifier>,
    /// The second affected regular file.
    pub secondary_file_identifier: Option<FileIdentifier>,
    /// The branch of the event.
    pub branch_identifier: Option<BranchIdentifier>,
    /// The position of the event on its branch.
    pub branch_position: Option<BranchPosition>,
    /// The event before it on its branch.
    pub first_parent_sequence: Option<EventSequence>,
    /// The affected path.
    pub path: Option<String>,
    /// The second affected path.
    pub secondary_path: Option<String>,
    /// The affected byte offset.
    pub offset: Option<u64>,
    /// The affected byte length.
    pub byte_length: Option<u64>,
    /// What the event says of file contents.
    pub payload: EventPayload,
}

/// The value of an event record, with its paths as characters.
pub ghost struct EventRecordView {
    pub schema_version: u64,
    pub sequence: EventSequence,
    pub kind: EventKind,
    pub created_at: time::UtcDateTime,
    pub file_identifier: Option<FileIdentifier>,
    pub secondary_file_identifier: Option<FileIdentifier>,
    pub branch_identifier: Option<BranchIdentifier>,
    pub branch_position: Option<BranchPosition>,
    pub first_parent_sequence: Option<EventSequence>,
    pub path: Option<Seq<char>>,
    pub secondary_path: Option<Seq<char>>,
    pub offset: Option<u64>,
    pub byte_length: Option<u64>,
    pub payload: EventPayload,
}

/// The characters of an optional text.
pub open spec fn optional_text(text: Option<String>) -> Option<Seq<char>> {
    match text {
        None => None,
        Some(inner) => Some(inner@),
    }
}

impl View for EventRecord {
    type V = EventRecordView;

    open spec fn view(&self) -> EventRecordView {
        EventRecordView {
            schema_version: self.schema_version,
            sequence: self.sequence,
            kind: self.kind,
            created_at: self.created_at,
            file_identifier: self.file_identifier,
            secondary_file_identifier: self.secondary_file_identifier,
            branch_identifier: self.branch_identifier,
            branch_position: self.branch_position,
            first_parent_sequence: self.first_parent_sequence,
            path: optional_text(self.path),
            secondary_path: optional_text(self.secondary_path),
            offset: self.offset,
            byte_length: self.byte_length,
            payload: self.payload,
        }
    }
}

impl EventRecordView {
    /// A record that belongs to no branch and carries no payload.
    pub open spec fn plain(
        sequence: EventSequence,
        kind: EventKind,
        created_at: time::UtcDateTime,
        file_identifier: Option<FileIdentifier>,
        path: Option<Seq<char>>,
        offset: Option<u64>,
        byte_length: Option<u64>,
    ) -> EventRecordView {
        EventRecordView {
            schema_version: EVENT_RECORD_SCHEMA_VERSION,
            sequence,
            kind,
            created_at,
            file_identifier,
            secondary_file_identifier: None,
            branch_identifier: None,
            branch_position: None,
            first_parent_sequence: None,
            path,
            secondary_path: None,
            offset,
            byte_length,
            payload: EventPayload::Nothing,
        }
    }

    /// The record placed on a branch.
    pub open spec fn on_branch(
        self,
        branch_identifier: BranchIdentifier,
        branch_position: BranchPosition,
        first_parent_sequence: EventSequence,
    ) -> EventRecordView {
        EventRecordView {
            branch_identifier: Some(branch_identifier),
            branch_position: Some(branch_position),
            first_parent_sequence: Some(first_parent_sequence),
            ..self
        }
    }

    /// The record with a payload.
    pub open spec fn carrying(self, payload: EventPayload) -> EventRecordView {
        EventRecordView { payload, ..self }
    }

    /// The number of overwritten bytes that a write event states.
    pub open spec fn overwritten_length(self) -> Option<u64> {
        match self.payload {
            EventPayload::FileWrite { overwritten_byte_length, .. } => Some(overwritten_byte_length),
            _ => None,
        }
    }

    /// The number of written bytes that a write event states.
    pub open spec fn written_length(self) -> Option<u64> {
        match self.payload {
            EventPayload::FileWrite { written_byte_length, .. } => Some(written_byte_length),
            _ => None,
        }
    }
}

/// Copies an optional text.
pub fn copy_optional_text(text: &Option<String>) -> (copy: Option<String>)
    ensures
        optional_text(copy) == optional_text(*text),
{
    match text {
        None => None,
        Some(inner) => Some(inner.clone()),
    }
}

impl EventRecord {
    /// Creates a record that belongs to no branch yet and carries no payload.
    pub fn new(
        sequence: EventSequence,
        kind: EventKind,
        created_at: time::UtcDateTime,
        file_identifier: Option<FileIdentifier>,
        path: Option<String>,
        offset: Option<u64>,
        byte_length: Option<u64>,
    ) -> (record: Self)
        ensures
            record@ == EventRecordView::plain(
                sequence,
                kind,
                created_at,
                file_identifier,
                optional_text(path),
                offset,
                byte_length,
            ),
    {
        EventRecord {
            schema_version: EVENT_RECORD_SCHEMA_VERSION,
            sequence,
            kind,
            created_at,
            file_identifier,
            secondary_file_identifier: None,
            branch_identifier: None,
            branch_position: None,
            first_parent_sequence: None,
            path,
            secondary_path: None,
            offset,
            byte_length,
            payload: EventPayload::Nothing,
        }
    }

    /// Adds a second affected file.
    pub fn with_secondary_file(
        self,
        file_identifier: FileIdentifier,
        path: Option<String>,
    ) -> (record: Self)
        ensures
            record@ == (EventRecordView {
                secondary_file_identifier: Some(file_identifier),
                secondary_path: optional_text(path),
                ..self@
            }),
    {
        let mut record = self;
        record.secondary_file_identifier = Some(file_identifier);
        record.secondary_path = path;
        record
    }

    /// Sets the payload.
    pub fn with_payload(self, payload: EventPayload) -> (record: Self)
        ensures
            record@ == self@.carrying(payload),
    {
        let mut record = self;
        record.payload = payload;
        record
    }

    /// Places the event on a branch.
    pub fn with_branch(
        self,
        branch_identifier: BranchIdentifier,
        branch_position: BranchPosition,
        first_parent_sequence: EventSequence,
    ) -> (record: Self)
        ensures
            record@ == self@.on_branch(branch_identifier, branch_position, first_parent_sequence),
    {
        let mut record = self;
        record.branch_identifier = Some(branch_identifier);
        record.branch_position = Some(branch_position);
        record.first_parent_sequence = Some(first_parent_sequence);
        record
    }

    /// Returns the payload.
    pub fn payload(&self) -> (payload: EventPayload)
        ensures
            payload == self.payload,
    {
        self.payload
    }

    /// Returns the event sequence.
    pub fn sequence(&self) -> (sequence: EventSequence)
        ensures
            sequence == self.sequence,
    {
        self.sequence
    }

    /// Returns the event kind.
    pub fn kind(&self) -> (kind: EventKind)
        ensures
            kind == self.kind,
    {
        self.kind
    }

    /// Returns the UTC time when the event was created.
    pub fn created_at(&self) -> (time: time::UtcDateTime)
        ensures
            time == self.created_at,
    {
        self.created_at
    }

    /// Returns the affected regular file identifier, when applicable.
    pub fn file_identifier(&self) -> (identifier: Option<FileIdentifier>)
        ensures
            identifier == self.file_identifier,
    {
        self.file_identifier
    }

    /// Returns the secondary affected regular file identifier, when applicable.
    pub fn secondary_file_identifier(&self) -> (identifier: Option<FileIdentifier>)
        ensures
            identifier == self.secondary_file_identifier,
    {
        self.secondary_file_identifier
    }

    /// Returns the branch identifier, when the event belongs to a branch.
    pub fn branch_identifier(&self) -> (identifier: Option<BranchIdentifier>)
        ensures
            identifier == self.branch_identifier,
    {
        self.branch_identifier
    }

    /// Returns the branch-local position, when the event belongs to a branch.
    pub fn branch_position(&self) -> (position: Option<BranchPosition>)
        ensures
            position == self.branch_position,
    {
        self.branch_position
    }

    /// Returns the first parent sequence, when the event belongs to a branch.
    pub fn first_parent_sequence(&self) -> (sequence: Option<EventSequence>)
        ensures
            sequence == self.first_parent_sequence,
    {
        self.first_parent_sequence
    }

    /// Returns the affected path, when applicable.
    pub fn path(&self) -> (path: Option<&str>)
        ensures
            path is Some == self.path is Some,
            path is Some ==> path->0@ == self.path->0@,
    {
        match &self.path {
            None => None,
            Some(text) => Some(text.as_str()),
        }
    }

    /// Returns the secondary affected path, when applicable.
    pub fn secondary_path(&self) -> (path: Option<&str>)
        ensures
            path is Some == self.secondary_path is Some,
            path is Some ==> path->0@ == self.secondary_path->0@,
    {
        match &self.secondary_path {
            None => None,
            Some(text) => Some(text.as_str()),
        }
    }

    /// Returns the affected byte offset, when applicable.
    pub fn offset(&self) -> (offset: Option<u64>)
        ensures
            offset == self.offset,
    {
        self.offset
    }

    /// Returns the affected byte length, when applicable.
    pub fn byte_length(&self) -> (length: Option<u64>)
        ensures
            length == self.byte_length,
    {
        self.byte_length
    }

    /// Returns the old file size for file write events.
    pub fn old_file_size(&self) -> (size: Option<u64>)
        ensures
            size == (match self.payload {
                EventPayload::FileWrite { old_file_size, .. } => Some(old_file_size),
                _ => None,
            }),
    {
        match self.payload {
            EventPayload::FileWrite { old_file_size, .. } => Some(old_file_size),
            _ => None,
        }
    }

    /// Returns the new file size for file write events.
    pub fn new_file_size(&self) -> (size: Option<u64>)
        ensures
            size == (match self.payload {
                EventPayload::FileWrite { new_file_size, .. } => Some(new_file_size),
                _ => None,
            }),
    {
        match self.payload {
            EventPayload::FileWrite { new_file_size, .. } => Some(new_file_size),
            _ => None,
        }
    }

    /// Returns the number of bytes overwritten by a file write event.
    pub fn overwritten_byte_length(&self) -> (length: Option<u64>)
        ensures
            length == self@.overwritten_length(),
    {
        match self.payload {
            EventPayload::FileWrite { overwritten_byte_length, .. } => Some(overwritten_byte_length),
            _ => None,
        }
    }

    /// Returns the number of bytes written by a file write event.
    pub fn written_byte_length(&self) -> (length: Option<u64>)
        ensures
            length == self@.written_length(),
    {
        match self.payload {
            EventPayload::FileWrite { written_byte_length, .. } => Some(written_byte_length),
            _ => None,
        }
    }
}

impl Clone for EventRecord {
    fn clone(&self) -> (record: Self)
        ensures
            record@ == self@,
    {
        EventRecord {
            schema_version: self.schema_version,
            sequence: self.sequence,
            kind: self.kind,
            created_at: self.created_at,
            file_identifier: self.file_identifier,
            secondary_file_identifier: self.secondary_file_identifier,
            branch_identifier: self.branch_identifier,
            branch_position: self.branch_position,
            first_parent_sequence: self.first_parent_sequence,
            path: copy_optional_text(&self.path),
            secondary_path: copy_optional_text(&self.secondary_path),
            offset: self.offset,
            byte_length: self.byte_length,
            payload: self.payload,
        }
    }
}

/// Page of committed filesystem events.
#[derive(Clone, Debug, PartialEq, Eq)]
pub struct EventPage {
    /// The records of the page.
    pub records: Vec<EventRecord>,
    /// Cursor of the next page, when there is one.
    pub next_after: Option<EventSequence>,
}

impl EventPage {
    /// Creates a page.
    pub fn new(records: Vec<EventRecord>, next_after: Option<EventSequence>) -> (page: Self)
        ensures
            page.records == records,
            page.next_after == next_after,
    {
        EventPage { records, next_after }
    }

    /// Returns the event records in this page.
    pub fn records(&self) -> (records: &[EventRecord])
        ensures
            records@ == self.records@,
    {
        self.records.as_slice()
    }

    /// Returns the event records owned by this page.
    pub fn into_records(self) -> (records: Vec<EventRecord>)
        ensures
            records == self.records,
    {
        self.records
    }

    /// Returns the next event cursor when another page exists.
    pub fn next_after(&self) -> (cursor: Option<EventSequence>)
        ensures
            cursor == self.next_after,
    {
        self.next_after
    }
}

/// Page of committed filesystem events ordered by branch position.
#[derive(Clone, Debug, PartialEq, Eq)]
pub struct BranchEventPage {
    /// The records of the page.
    pub records: Vec<EventRecord>,
    /// Cursor of the next page, when there is one.
    pub next_after: Option<BranchPosition>,
}

impl BranchEventPage {
    /// Creates a page.
    pub fn new(records: Vec<EventRecord>, next_after: Option<BranchPosition>) -> (page: Self)
        ensures
            page.records == records,
            page.next_after == next_after,
    {
        BranchEventPage { records, next_after }
    }

    /// Returns the event records in this page.
    pub fn records(&self) -> (records: &[EventRecord])
        ensures
            records@ == self.records@,
    {
        self.records.as_slice()
    }

    /// Returns the event records owned by this page.
    pub fn into_records(self) -> (records: Vec<EventRecord>)
        ensures
            records == self.records,
    {
        self.records
    }

    /// Returns the next branch cursor when another page exists.
    pub fn next_after(&self) -> (cursor: Option<BranchPosition>)
        ensures
            cursor == self.next_after,
    {
        self.next_after
    }
}

} // verus!
