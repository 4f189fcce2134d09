//! Listing events, and reading what files held at past events.

use vstd::prelude::*;

use crate::bytes::{bytes_before, bytes_equal, has_prefix, starts_with};
use crate::chunks::{read_manifest_range, reads_range};
use crate::commit::{EVENT_PAYLOAD_PART_OVERWRITTEN, EVENT_PAYLOAD_PART_WRITTEN};
use crate::database::{
    BranchRootView, Database, Image, SnapshotView, StoredBranchRoot, StoredSnapshotMetadata,
};
use crate::error::FilesystemError;
use crate::filesystem::{
    BranchEventPage, BranchIdentifier, BranchPosition, EventPage, EventPageLimit, EventRecord,
    EventRecordView, EventSequence, FileEventPayloadPart, FileIdentifier, FileSnapshot,
};
use crate::inode::StoredNodeKind;
use crate::keys::{
    decode_branch_file_position_key, decode_branch_position_ordinal, decode_u64, decoded_ordinal,
    decoded_triple, decoded_u64, encode_branch_file_position_key, encode_branch_file_prefix,
    encode_branch_position_key, encode_event_payload_manifest_key, encode_file_sequence_key,
    encode_u64, pair_key, part_key, triple_key, u64_key, u64_of,
};
use crate::manifest::{empty_content_manifest_identifier, empty_identifier};
use crate::persist::{namespace_state_for_identifier_in_database, stored_state};
use crate::storage::Storage;
use crate::table::{lemma_listed_keys, listed_keys, lists_keys, Table};

verus! {

/// The keys that do not come before a start.
pub open spec fn keys_from(keys: Seq<Seq<u8>>, start: Seq<u8>) -> Seq<Seq<u8>>
    decreases keys.len(),
{
    if keys.len() == 0 || !bytes_before(keys[0], start) {
        keys
    } else {
        keys_from(keys.skip(1), start)
    }
}

/// The keys up to the first that does not start with a prefix.
pub open spec fn run_of(keys: Seq<Seq<u8>>, prefix: Seq<u8>) -> Seq<Seq<u8>>
    decreases keys.len(),
{
    if keys.len() == 0 || !has_prefix(keys[0], prefix) {
        Seq::empty()
    } else {
        seq![keys[0]] + run_of(keys.skip(1), prefix)
    }
}

/// The keys that come at or before an end.
pub open spec fn keys_up_to(keys: Seq<Seq<u8>>, end: Seq<u8>) -> Seq<Seq<u8>>
    decreases keys.len(),
{
    if keys.len() == 0 || !bytes_before(end, keys.last()) {
        keys
    } else {
        keys_up_to(keys.drop_last(), end)
    }
}

pub proof fn lemma_keys_from(keys: Seq<Seq<u8>>, start: Seq<u8>, index: int)
    requires
        0 <= index <= keys.len(),
        forall|i: int| 0 <= i < index ==> bytes_before(#[trigger] keys[i], start),
        index < keys.len() ==> !bytes_before(keys[index], start),
    ensures
        keys_from(keys, start) == keys.skip(index),
    decreases keys.len(),
{
    if index == 0 {
        assert(keys.skip(0) =~= keys);
    } else {
        assert(bytes_before(keys[0], start));
        let rest = keys.skip(1);
        assert forall|i: int| 0 <= i < index - 1 implies bytes_before(#[trigger] rest[i], start) by {
            assert(rest[i] == keys[i + 1]);
        }
        lemma_keys_from(rest, start, index - 1);
        assert(rest.skip(index - 1) =~= keys.skip(index));
    }
}

proof fn lemma_keys_up_to(keys: Seq<Seq<u8>>, end: Seq<u8>, count: int)
    requires
        0 <= count <= keys.len(),
        forall|i: int| count <= i < keys.len() ==> bytes_before(end, #[trigger] keys[i]),
        count > 0 ==> !bytes_before(end, keys[count - 1]),
    ensures
        keys_up_to(keys, end) == keys.take(count),
    decreases keys.len(),
{
    if count == keys.len() {
        assert(keys.take(count) =~= keys);
    } else {
        assert(bytes_before(end, keys[keys.len() - 1]));
        let rest = keys.drop_last();
        assert forall|i: int| count <= i < rest.len() implies bytes_before(
            end,
            #[trigger] rest[i],
        ) by {
            assert(rest[i] == keys[i]);
        }
        lemma_keys_up_to(rest, end, count);
        assert(rest.take(count) =~= keys.take(count));
    }
}

/// Finds the first place of a table at or after a key.
pub fn seek<V>(table: &Table<V>, start: &[u8]) -> (index: usize)
    ensures
        index <= table.keys().len(),
        table.keys() == listed_keys(table@),
        lists_keys(table.keys(), table@),
        keys_from(listed_keys(table@), start@) == listed_keys(table@).skip(index as int),
{
    let index: usize = table.lower_bound(start);
    proof {
        lemma_listed_keys(table.keys(), table@);
        lemma_keys_from(table.keys(), start@, index as int);
    }
    index
}

/// Counts the places of a table at or before a key.
fn seek_back<V>(table: &Table<V>, end: &[u8]) -> (count: usize)
    ensures
        count <= table.keys().len(),
        table.keys() == listed_keys(table@),
        lists_keys(table.keys(), table@),
        keys_up_to(listed_keys(table@), end@) == listed_keys(table@).take(count as int),
{
    let index: usize = table.lower_bound(end);
    let total: usize = table.len();
    let ghost keys = table.keys();
    let count: usize = if index < total && bytes_equal(table.key_at(index), end) {
        index + 1
    } else {
        index
    };
    proof {
        lemma_listed_keys(keys, table@);
        assert forall|i: int| count <= i < keys.len() implies bytes_before(
            end@,
            #[trigger] keys[i],
        ) by {
            if i == index {
                crate::bytes::lemma_bytes_before_total(end@, keys[i]);
            } else {
                assert(bytes_before(keys[index as int], keys[i]));
                crate::bytes::lemma_bytes_before_total(end@, keys[index as int]);
                if end@ != keys[index as int] {
                    crate::bytes::lemma_bytes_before_transitive(
                        end@,
                        keys[index as int],
                        keys[i],
                    );
                }
            }
        }
        if count > 0 {
            if count == index {
                crate::bytes::lemma_bytes_before_asymmetric(keys[count - 1], end@);
            } else {
                crate::bytes::lemma_bytes_before_irreflexive(end@);
            }
        }
        lemma_keys_up_to(keys, end@, count as int);
    }
    count
}

/// The first items of a page, if all of them are there, and whether more follow.
pub open spec fn page_of<T>(items: Seq<Option<T>>, limit: nat) -> Option<(Seq<T>, bool)> {
    let count = if items.len() < limit {
        items.len()
    } else {
        limit
    };
    if forall|i: int| 0 <= i < count ==> (#[trigger] items[i]) is Some {
        Some((Seq::new(count, |i: int| items[i]->0), items.len() > limit))
    } else {
        None
    }
}

/// The values of records.
pub open spec fn record_views(records: Seq<EventRecord>) -> Seq<EventRecordView> {
    Seq::new(records.len(), |i: int| records[i]@)
}

/// The record under a key of the event table: the key is its sequence.
pub open spec fn record_at_key(image: Image, key: Seq<u8>) -> Option<EventRecordView> {
    if key.len() == 8 && image.events.contains_key(key) && image.events[key] is Some
        && image.events[key]->0.record.sequence.0 == u64_of(key) {
        Some(image.events[key]->0.record)
    } else {
        None
    }
}

/// The event with a sequence: `Ok(None)` where there is none.
pub open spec fn event_of(image: Image, sequence: u64) -> Result<
    Option<EventRecordView>,
    FilesystemError,
> {
    if !image.events.contains_key(u64_key(sequence)) {
        Ok(None)
    } else {
        match image.events[u64_key(sequence)] {
            None => Err(FilesystemError::Integrity),
            Some(event) => if event.record.sequence.0 == sequence {
                Ok(Some(event.record))
            } else {
                Err(FilesystemError::Integrity)
            },
        }
    }
}

/// The event with a sequence, which must be there.
pub open spec fn present_event(image: Image, sequence: u64) -> Option<EventRecordView> {
    match event_of(image, sequence) {
        Ok(Some(record)) => Some(record),
        _ => None,
    }
}

/// Looks an event up.
pub fn find_event<'a>(database: &'a Database, sequence: EventSequence) -> (event: Result<
    Option<&'a EventRecord>,
    FilesystemError,
>)
    ensures
        match event {
            Ok(Some(record)) => event_of(database@, sequence.0) == Ok::<
                Option<EventRecordView>,
                FilesystemError,
            >(Some(record@)),
            Ok(None) => event_of(database@, sequence.0) == Ok::<
                Option<EventRecordView>,
                FilesystemError,
            >(None),
            Err(error) => event_of(database@, sequence.0) == Err::<
                Option<EventRecordView>,
                FilesystemError,
            >(error),
        },
{
    let key = encode_u64(sequence.get());
    match database.events.get(key.as_slice()) {
        None => Ok(None),
        Some(None) => Err(FilesystemError::Integrity),
        Some(Some(event)) => {
            if event.record.sequence().get() != sequence.get() {
                return Err(FilesystemError::Integrity);
            }
            Ok(Some(&event.record))
        },
    }
}

/// What a listing of events gives: records and the sequence of the last where more follow.
pub open spec fn event_page(page: EventPage, expected: (Seq<EventRecordView>, bool)) -> bool {
    &&& record_views(page.records@) == expected.0
    &&& page.next_after == (if expected.1 && expected.0.len() > 0 {
        Some(expected.0.last().sequence)
    } else {
        None
    })
}

/// The page of events after a sequence.
pub open spec fn events_after(image: Image, after: Option<EventSequence>, limit: nat) -> Option<
    (Seq<EventRecordView>, bool),
> {
    if after is Some && (after->0).0 == u64::MAX {
        Some((Seq::empty(), false))
    } else {
        let start: u64 = match after {
            Some(sequence) => (sequence.0 + 1) as u64,
            None => 0,
        };
        let keys = keys_from(listed_keys(image.events), u64_key(start));
        page_of(Seq::new(keys.len(), |i: int| record_at_key(image, keys[i])), limit)
    }
}

/// Maps with the same keys list them in the same order.
pub proof fn lemma_same_keys<V, W>(a: Map<Seq<u8>, V>, b: Map<Seq<u8>, W>, keys: Seq<Seq<u8>>)
    requires
        forall|key: Seq<u8>| #[trigger] a.contains_key(key) == b.contains_key(key),
        lists_keys(keys, a),
    ensures
        lists_keys(keys, b),
        listed_keys(a) == keys,
        listed_keys(b) == keys,
{
    assert(lists_keys(keys, b)) by {
        assert forall|i: int| 0 <= i < keys.len() implies b.contains_key(#[trigger] keys[i]) by {
            assert(a.contains_key(keys[i]));
        }
        assert forall|key: Seq<u8>| #[trigger] b.contains_key(key) implies keys.contains(key) by {
            assert(a.contains_key(key));
        }
    }
    lemma_listed_keys(keys, a);
    lemma_listed_keys(keys, b);
}

impl Storage {
    /// Returns the sequence of the newest event.
    pub fn last_event_sequence(&self) -> (sequence: Result<EventSequence, FilesystemError>)
        ensures
            sequence == (match crate::metadata::number_at(
                self@.image.metadata,
                crate::metadata::last_event_sequence_key(),
            ) {
                Ok(number) => Ok::<EventSequence, FilesystemError>(EventSequence(number)),
                Err(error) => Err::<EventSequence, FilesystemError>(error),
            }),
    {
        let key = crate::metadata::last_event_sequence_key_bytes();
        match crate::metadata::read_metadata_u64(&self.database.metadata, key.as_slice()) {
            Ok(number) => Ok(EventSequence::new(number)),
            Err(error) => Err(error),
        }
    }

    /// Lists events after a sequence, in order.
    pub fn list_events(&self, after: Option<EventSequence>, limit: EventPageLimit) -> (page: Result<
        EventPage,
        FilesystemError,
    >)
        ensures
            match page {
                Ok(page) => {
                    let expected = events_after(self@.image, after, limit@ as nat);
                    expected is Some && event_page(page, expected->0)
                },
                Err(error) => error == FilesystemError::Integrity && events_after(
                    self@.image,
                    after,
                    limit@ as nat,
                ) is None,
            },
    {
        let start: u64 = match after {
            Some(sequence) => match sequence.get().checked_add(1) {
                Some(start) => start,
                None => {
                    let records: Vec<EventRecord> = Vec::new();
                    proof {
                        assert(record_views(records@) =~= Seq::<EventRecordView>::empty());
                    }
                    return Ok(EventPage::new(records, None));
                },
            },
            None => 0,
        };
        let limit_value: u64 = limit.get();
        let start_key = encode_u64(start);
        let first: usize = seek(&self.database.events, start_key.as_slice());
        let total: usize = self.database.events.len();
        let ghost image = self@.image;
        let ghost all = self.database.events.keys();
        proof {
            lemma_same_keys(self.database.events@, image.events, all);
        }
        let ghost keys = keys_from(listed_keys(image.events), u64_key(start));
        let ghost items = Seq::new(keys.len(), |i: int| record_at_key(image, keys[i]));
        let mut records: Vec<EventRecord> = Vec::new();
        let mut index: usize = first;
        while index < total && (records.len() as u64) < limit_value
            invariant
                first <= index <= total,
                total == all.len(),
                all == self.database.events.keys(),
                lists_keys(all, self.database.events@),
                image == self@.image,
                limit_value == limit@,
                limit_value > 0,
                keys == all.skip(first as int),
                items == Seq::new(keys.len(), |i: int| record_at_key(image, keys[i])),
                events_after(image, after, limit@ as nat) == page_of(items, limit@ as nat),
                records@.len() == index - first,
                records@.len() <= limit_value,
                forall|i: int| 0 <= i < records@.len() ==> (#[trigger] items[i]) is Some,
                forall|i: int| 0 <= i < records@.len() ==> (#[trigger] records@[i])@ == items[i]->0,
            decreases total - index,
        {
            let key = self.database.events.key_at(index);
            let row = self.database.events.value_at(index);
            let ghost place = index - first;
            proof {
                assert(keys[place] == all[index as int]);
                assert(items[place] == record_at_key(image, key@));
                assert(image.events.contains_key(key@));
            }
            let sequence: u64 = match decode_u64(key) {
                Err(error) => {
                    assert(items[place] is None);
                    return Err(error);
                },
                Ok(sequence) => sequence,
            };
            match row {
                None => {
                    assert(items[place] is None);
                    return Err(FilesystemError::Integrity);
                },
                Some(event) => {
                    if event.record.sequence().get() != sequence {
                        assert(items[place] is None);
                        return Err(FilesystemError::Integrity);
                    }
                    records.push(event.record.clone());
                },
            }
            index = index + 1;
        }
        let next_after: Option<EventSequence> = if index < total && records.len() > 0 {
            Some(records[records.len() - 1].sequence())
        } else {
            None
        };
        proof {
            let expected = page_of(items, limit@ as nat)->0;
            assert(record_views(records@) =~= expected.0);
        }
        Ok(EventPage::new(records, next_after))
    }

    /// Returns an event.
    pub fn get_event(&self, sequence: EventSequence) -> (event: Result<
        Option<EventRecord>,
        FilesystemError,
    >)
        ensures
            match event {
                Ok(Some(record)) => event_of(self@.image, sequence.0) == Ok::<
                    Option<EventRecordView>,
                    FilesystemError,
                >(Some(record@)),
                Ok(None) => event_of(self@.image, sequence.0) == Ok::<
                    Option<EventRecordView>,
                    FilesystemError,
                >(None),
                Err(error) => event_of(self@.image, sequence.0) == Err::<
                    Option<EventRecordView>,
                    FilesystemError,
                >(error),
            },
    {
        match find_event(&self.database, sequence) {
            Err(error) => Err(error),
            Ok(None) => Ok(None),
            Ok(Some(record)) => Ok(Some(record.clone())),
        }
    }
}

/// The first position to list after a position of a branch.
pub open spec fn position_start(branch: BranchIdentifier, after: Option<BranchPosition>) -> Result<
    u64,
    FilesystemError,
> {
    match after {
        None => Ok(0),
        Some(position) => if position.branch_identifier != branch || position.ordinal == u64::MAX {
            Err(FilesystemError::Integrity)
        } else {
            Ok((position.ordinal + 1) as u64)
        },
    }
}

/// Returns the first position to list after a position of a branch.
pub fn branch_position_start(branch: BranchIdentifier, after: Option<BranchPosition>) -> (start:
    Result<u64, FilesystemError>)
    ensures
        start == position_start(branch, after),
{
    match after {
        None => Ok(0),
        Some(position) => {
            if position.branch_identifier().get() != branch.get() {
                return Err(FilesystemError::Integrity);
            }
            match position.ordinal().checked_add(1) {
                Some(start) => Ok(start),
                None => Err(FilesystemError::Integrity),
            }
        },
    }
}

/// A record lies at a position of a branch.
pub open spec fn lies_at(record: EventRecordView, branch: BranchIdentifier, ordinal: u64) -> bool {
    &&& record.branch_identifier == Some(branch)
    &&& record.branch_position == Some(BranchPosition { branch_identifier: branch, ordinal })
}

/// Checks that a record lies at a position of a branch.
pub fn validate_branch_event_record(
    record: &EventRecord,
    branch: BranchIdentifier,
    ordinal: u64,
) -> (result: Result<(), FilesystemError>)
    ensures
        result == crate::hash::integrity_unless(lies_at(record@, branch, ordinal)),
{
    match (record.branch_identifier(), record.branch_position()) {
        (Some(identifier), Some(position)) => {
            if identifier.get() == branch.get() && position.branch_identifier().get()
                == branch.get() && position.ordinal() == ordinal {
                Ok(())
            } else {
                Err(FilesystemError::Integrity)
            }
        },
        _ => Err(FilesystemError::Integrity),
    }
}

/// Checks that a record lies at a position of a branch and is about a file.
pub fn validate_branch_file_event_record(
    record: &EventRecord,
    branch: BranchIdentifier,
    file_identifier: FileIdentifier,
    ordinal: u64,
) -> (result: Result<(), FilesystemError>)
    ensures
        result == crate::hash::integrity_unless(
            lies_at(record@, branch, ordinal) && record@.file_identifier == Some(file_identifier),
        ),
{
    match validate_branch_event_record(record, branch, ordinal) {
        Err(error) => return Err(error),
        Ok(_) => {},
    }
    match record.file_identifier() {
        Some(identifier) => {
            if identifier.get() == file_identifier.get() {
                Ok(())
            } else {
                Err(FilesystemError::Integrity)
            }
        },
        None => Err(FilesystemError::Integrity),
    }
}

/// The sequence stored in an index row.
pub open spec fn indexed_sequence(value: Seq<u8>) -> Option<u64> {
    match decoded_u64(value) {
        Ok(sequence) => Some(sequence),
        Err(_) => None,
    }
}

/// The record that a row of the branch index names: it lies where the key says.
pub open spec fn branch_event_at(image: Image, branch: BranchIdentifier, key: Seq<u8>) -> Option<
    EventRecordView,
> {
    match (decoded_ordinal(key), indexed_sequence(image.branch_events[key])) {
        (Ok(ordinal), Some(sequence)) => match present_event(image, sequence) {
            Some(record) => if lies_at(record, branch, ordinal) {
                Some(record)
            } else {
                None
            },
            None => None,
        },
        _ => None,
    }
}

/// The record that a row of the index of a file on a branch names: it lies where the key says and is
/// about the file.
pub open spec fn branch_file_event_at(
    image: Image,
    branch: BranchIdentifier,
    file: FileIdentifier,
    key: Seq<u8>,
) -> Option<EventRecordView> {
    match (decoded_triple(key), indexed_sequence(image.branch_file_events[key])) {
        (Ok((key_branch, key_file, ordinal)), Some(sequence)) => match present_event(
            image,
            sequence,
        ) {
            Some(record) => if key_branch == branch.0 && key_file == file.0 && lies_at(
                record,
                branch,
                ordinal,
            ) && record.file_identifier == Some(file) {
                Some(record)
            } else {
                None
            },
            None => None,
        },
        _ => None,
    }
}

/// The page of the events of a branch after a position.
pub open spec fn branch_events_after(
    image: Image,
    branch: BranchIdentifier,
    after: Option<BranchPosition>,
    limit: nat,
) -> Option<(Seq<EventRecordView>, bool)> {
    match position_start(branch, after) {
        Err(_) => None,
        Ok(start) => {
            let keys = run_of(
                keys_from(listed_keys(image.branch_events), pair_key(branch.0, start)),
                u64_key(branch.0),
            );
            page_of(Seq::new(keys.len(), |i: int| branch_event_at(image, branch, keys[i])), limit)
        },
    }
}

/// The page of the events of a file on a branch after a position.
pub open spec fn branch_file_events_after(
    image: Image,
    branch: BranchIdentifier,
    file: FileIdentifier,
    after: Option<BranchPosition>,
    limit: nat,
) -> Option<(Seq<EventRecordView>, bool)> {
    match position_start(branch, after) {
        Err(_) => None,
        Ok(start) => {
            let keys = run_of(
                keys_from(
                    listed_keys(image.branch_file_events),
                    triple_key(branch.0, file.0, start),
                ),
                pair_key(branch.0, file.0),
            );
            page_of(
                Seq::new(
                    keys.len(),
                    |i: int| branch_file_event_at(image, branch, file, keys[i]),
                ),
                limit,
            )
        },
    }
}

/// What a listing of the events of a branch gives: records and the position of the last where more
/// follow.
pub open spec fn branch_page(page: BranchEventPage, expected: (Seq<EventRecordView>, bool)) -> bool {
    &&& record_views(page.records@) == expected.0
    &&& page.next_after == (if expected.1 && expected.0.len() > 0 {
        expected.0.last().branch_position
    } else {
        None
    })
}

proof fn lemma_run_extends(keys: Seq<Seq<u8>>, prefix: Seq<u8>, first: int, index: int)
    requires
        0 <= first <= index < keys.len(),
        run_of(keys.skip(first), prefix) == keys.subrange(first, index) + run_of(
            keys.skip(index),
            prefix,
        ),
        has_prefix(keys[index], prefix),
    ensures
        run_of(keys.skip(first), prefix) == keys.subrange(first, index + 1) + run_of(
            keys.skip(index + 1),
            prefix,
        ),
        run_of(keys.skip(first), prefix).len() > index - first,
        run_of(keys.skip(first), prefix)[index - first] == keys[index],
{
    assert(keys.skip(index)[0] == keys[index]);
    assert(keys.skip(index).skip(1) =~= keys.skip(index + 1));
    assert(keys.subrange(first, index) + (seq![keys[index]] + run_of(
        keys.skip(index + 1),
        prefix,
    )) =~= keys.subrange(first, index + 1) + run_of(keys.skip(index + 1), prefix));
}

/// Reads the record that a row of the branch index names.
fn read_branch_event(
    database: &Database,
    branch: BranchIdentifier,
    key: &[u8],
    value: &Vec<u8>,
) -> (record: Result<EventRecord, FilesystemError>)
    requires
        database@.branch_events.contains_key(key@),
        database@.branch_events[key@] == value@,
    ensures
        match record {
            Ok(record) => branch_event_at(database@, branch, key@) == Some(record@),
            Err(error) => error == FilesystemError::Integrity && branch_event_at(
                database@,
                branch,
                key@,
            ) is None,
        },
{
    let ordinal: u64 = match decode_branch_position_ordinal(key) {
        Err(error) => return Err(error),
        Ok(ordinal) => ordinal,
    };
    let sequence: u64 = match decode_u64(value.as_slice()) {
        Err(error) => return Err(error),
        Ok(sequence) => sequence,
    };
    match find_event(database, EventSequence::new(sequence)) {
        Err(error) => Err(error),
        Ok(None) => Err(FilesystemError::Integrity),
        Ok(Some(record)) => match validate_branch_event_record(record, branch, ordinal) {
            Err(error) => Err(error),
            Ok(_) => Ok(record.clone()),
        },
    }
}

/// Reads the record that a row of the index of a file on a branch names.
fn read_branch_file_event(
    database: &Database,
    branch: BranchIdentifier,
    file_identifier: FileIdentifier,
    key: &[u8],
    value: &Vec<u8>,
) -> (record: Result<EventRecord, FilesystemError>)
    requires
        database@.branch_file_events.contains_key(key@),
        database@.branch_file_events[key@] == value@,
    ensures
        match record {
            Ok(record) => branch_file_event_at(database@, branch, file_identifier, key@) == Some(
                record@,
            ),
            Err(error) => error == FilesystemError::Integrity && branch_file_event_at(
                database@,
                branch,
                file_identifier,
                key@,
            ) is None,
        },
{
    let (key_branch, key_file, ordinal) = match decode_branch_file_position_key(key) {
        Err(error) => return Err(error),
        Ok(decoded) => decoded,
    };
    let sequence: u64 = match decode_u64(value.as_slice()) {
        Err(error) => return Err(error),
        Ok(sequence) => sequence,
    };
    if key_branch != branch.get() || key_file != file_identifier.get() {
        return Err(FilesystemError::Integrity);
    }
    match find_event(database, EventSequence::new(sequence)) {
        Err(error) => Err(error),
        Ok(None) => Err(FilesystemError::Integrity),
        Ok(Some(record)) => match validate_branch_file_event_record(
            record,
            branch,
            file_identifier,
            ordinal,
        ) {
            Err(error) => Err(error),
            Ok(_) => Ok(record.clone()),
        },
    }
}

impl Storage {
    /// Lists the events of a branch after a position, in order.
    pub fn list_branch_events(
        &self,
        branch: BranchIdentifier,
        after: Option<BranchPosition>,
        limit: EventPageLimit,
    ) -> (page: Result<BranchEventPage, FilesystemError>)
        ensures
            match page {
                Ok(page) => {
                    let expected = branch_events_after(self@.image, branch, after, limit@ as nat);
                    expected is Some && branch_page(page, expected->0)
                },
                Err(error) => error == FilesystemError::Integrity && branch_events_after(
                    self@.image,
                    branch,
                    after,
                    limit@ as nat,
                ) is None,
            },
    {
        let start: u64 = match branch_position_start(branch, after) {
            Err(error) => return Err(error),
            Ok(start) => start,
        };
        let limit_value: u64 = limit.get();
        let prefix = encode_u64(branch.get());
        let start_key = encode_branch_position_key(branch.get(), start);
        let table = &self.database.branch_events;
        let first: usize = seek(table, start_key.as_slice());
        let total: usize = table.len();
        let ghost image = self@.image;
        let ghost all = table.keys();
        proof {
            lemma_same_keys(table@, image.branch_events, all);
        }
        let ghost keys = run_of(all.skip(first as int), prefix@);
        let ghost items = Seq::new(keys.len(), |i: int| branch_event_at(image, branch, keys[i]));
        let mut records: Vec<EventRecord> = Vec::new();
        let mut index: usize = first;
        proof {
            assert(all.subrange(first as int, first as int) + keys =~= keys);
        }
        while index < total && starts_with(table.key_at(index), prefix.as_slice()) && (
        records.len() as u64) < limit_value
            invariant
                first <= index <= total,
                total == all.len(),
                table == &self.database.branch_events,
                all == table.keys(),
                lists_keys(all, table@),
                image == self@.image,
                limit_value == limit@,
                limit_value > 0,
                keys == run_of(all.skip(first as int), prefix@),
                keys == all.subrange(first as int, index as int) + run_of(
                    all.skip(index as int),
                    prefix@,
                ),
                items == Seq::new(keys.len(), |i: int| branch_event_at(image, branch, keys[i])),
                branch_events_after(image, branch, after, limit@ as nat) == page_of(
                    items,
                    limit@ as nat,
                ),
                records@.len() == index - first,
                records@.len() <= limit_value,
                forall|i: int| 0 <= i < records@.len() ==> (#[trigger] items[i]) is Some,
                forall|i: int| 0 <= i < records@.len() ==> (#[trigger] records@[i])@ == items[i]->0,
            decreases total - index,
        {
            let key = table.key_at(index);
            let ghost place = index - first;
            proof {
                lemma_run_extends(all, prefix@, first as int, index as int);
                assert(items[place] == branch_event_at(image, branch, key@));
            }
            match read_branch_event(&self.database, branch, key, table.value_at(index)) {
                Err(error) => {
                    assert(items[place] is None);
                    return Err(error);
                },
                Ok(record) => {
                    records.push(record);
                },
            }
            index = index + 1;
        }
        let more = index < total && starts_with(table.key_at(index), prefix.as_slice());
        proof {
            if more {
                lemma_run_extends(all, prefix@, first as int, index as int);
            } else {
                if index < total {
                    assert(all.skip(index as int)[0] == all[index as int]);
                }
                assert(run_of(all.skip(index as int), prefix@).len() == 0);
            }
        }
        let next_after: Option<BranchPosition> = if more && records.len() > 0 {
            records[records.len() - 1].branch_position()
        } else {
            None
        };
        proof {
            let expected = page_of(items, limit@ as nat)->0;
            assert(record_views(records@) =~= expected.0);
        }
        Ok(BranchEventPage::new(records, next_after))
    }

    /// Lists the events of a file on a branch after a position, in order.
    pub fn list_branch_file_events(
        &self,
        branch: BranchIdentifier,
        file_identifier: FileIdentifier,
        after: Option<BranchPosition>,
        limit: EventPageLimit,
    ) -> (page: Result<BranchEventPage, FilesystemError>)
        ensures
            match page {
                Ok(page) => {
                    let expected = branch_file_events_after(
                        self@.image,
                        branch,
                        file_identifier,
                        after,
                        limit@ as nat,
                    );
                    expected is Some && branch_page(page, expected->0)
                },
                Err(error) => error == FilesystemError::Integrity && branch_file_events_after(
                    self@.image,
                    branch,
                    file_identifier,
                    after,
                    limit@ as nat,
                ) is None,
            },
    {
        let start: u64 = match branch_position_start(branch, after) {
            Err(error) => return Err(error),
            Ok(start) => start,
        };
        let limit_value: u64 = limit.get();
        let prefix = encode_branch_file_prefix(branch.get(), file_identifier.get());
        let start_key = encode_branch_file_position_key(
            branch.get(),
            file_identifier.get(),
            start,
        );
        let table = &self.database.branch_file_events;
        let first: usize = seek(table, start_key.as_slice());
        let total: usize = table.len();
        let ghost image = self@.image;
        let ghost all = table.keys();
        proof {
            lemma_same_keys(table@, image.branch_file_events, all);
        }
        let ghost keys = run_of(all.skip(first as int), prefix@);
        let ghost items = Seq::new(
            keys.len(),
            |i: int| branch_file_event_at(image, branch, file_identifier, keys[i]),
        );
        let mut records: Vec<EventRecord> = Vec::new();
        let mut index: usize = first;
        proof {
            assert(all.subrange(first as int, first as int) + keys =~= keys);
        }
        while index < total && starts_with(table.key_at(index), prefix.as_slice()) && (
        records.len() as u64) < limit_value
            invariant
                first <= index <= total,
                total == all.len(),
                table == &self.database.branch_file_events,
                all == table.keys(),
                lists_keys(all, table@),
                image == self@.image,
                limit_value == limit@,
                limit_value > 0,
                keys == run_of(all.skip(first as int), prefix@),
                keys == all.subrange(first as int, index as int) + run_of(
                    all.skip(index as int),
                    prefix@,
                ),
                items == Seq::new(
                    keys.len(),
                    |i: int| branch_file_event_at(image, branch, file_identifier, keys[i]),
                ),
                branch_file_events_after(image, branch, file_identifier, after, limit@ as nat)
                    == page_of(items, limit@ as nat),
                records@.len() == index - first,
                records@.len() <= limit_value,
                forall|i: int| 0 <= i < records@.len() ==> (#[trigger] items[i]) is Some,
                forall|i: int| 0 <= i < records@.len() ==> (#[trigger] records@[i])@ == items[i]->0,
            decreases total - index,
        {
            let key = table.key_at(index);
            let ghost place = index - first;
            proof {
                lemma_run_extends(all, prefix@, first as int, index as int);
                assert(items[place] == branch_file_event_at(
                    image,
                    branch,
                    file_identifier,
                    key@,
                ));
            }
            match read_branch_file_event(
                &self.database,
                branch,
                file_identifier,
                key,
                table.value_at(index),
            ) {
                Err(error) => {
                    assert(items[place] is None);
                    return Err(error);
                },
                Ok(record) => {
                    records.push(record);
                },
            }
            index = index + 1;
        }
        let more = index < total && starts_with(table.key_at(index), prefix.as_slice());
        proof {
            if more {
                lemma_run_extends(all, prefix@, first as int, index as int);
            } else {
                if index < total {
                    assert(all.skip(index as int)[0] == all[index as int]);
                }
                assert(run_of(all.skip(index as int), prefix@).len() == 0);
            }
        }
        let next_after: Option<BranchPosition> = if more && records.len() > 0 {
            records[records.len() - 1].branch_position()
        } else {
            None
        };
        proof {
            let expected = page_of(items, limit@ as nat)->0;
            assert(record_views(records@) =~= expected.0);
        }
        Ok(BranchEventPage::new(records, next_after))
    }
}

/// The record that a row of the index of a file on a branch names, if the file's own index has the
/// event too.
pub open spec fn file_event_at(
    image: Image,
    branch: BranchIdentifier,
    file: FileIdentifier,
    key: Seq<u8>,
) -> Option<EventRecordView> {
    match branch_file_event_at(image, branch, file, key) {
        None => None,
        Some(record) => {
            let index_key = pair_key(file.0, record.sequence.0);
            if image.file_events.contains_key(index_key) && image.file_events[index_key].len() == 0 {
                Some(record)
            } else {
                None
            }
        },
    }
}

/// The events of a file that a page takes: those after a sequence, up to a limit, and whether one
/// more follows. All rows up to there must be sound.
pub open spec fn file_walk(
    items: Seq<Option<EventRecordView>>,
    minimum: Option<EventSequence>,
    limit: nat,
    taken: Seq<EventRecordView>,
) -> Option<(Seq<EventRecordView>, bool)>
    decreases items.len(),
{
    if items.len() == 0 {
        Some((taken, false))
    } else {
        match items[0] {
            None => None,
            Some(record) => if minimum is Some && record.sequence.0 <= (minimum->0).0 {
                file_walk(items.skip(1), minimum, limit, taken)
            } else if taken.len() == limit {
                Some((taken, true))
            } else {
                file_walk(items.skip(1), minimum, limit, taken.push(record))
            },
        }
    }
}

/// Where a listing of the events of a file starts: after an event of the branch at the next position,
/// else at the first position with the sequences up to the given one left out.
pub open spec fn file_start(
    image: Image,
    branch: BranchIdentifier,
    after: Option<EventSequence>,
) -> Option<(u64, Option<EventSequence>)> {
    match after {
        None => Some((0, None)),
        Some(sequence) => match event_of(image, sequence.0) {
            Err(_) => None,
            Ok(Some(record)) => if record.branch_identifier == Some(branch) {
                match record.branch_position {
                    Some(position) => if position.branch_identifier == branch && position.ordinal
                        < u64::MAX {
                        Some(((position.ordinal + 1) as u64, None))
                    } else {
                        None
                    },
                    None => None,
                }
            } else {
                Some((0, Some(sequence)))
            },
            Ok(None) => Some((0, Some(sequence))),
        },
    }
}

/// The page of the events of a file on a branch after a sequence.
pub open spec fn file_events_after(
    image: Image,
    branch: BranchIdentifier,
    file: FileIdentifier,
    after: Option<EventSequence>,
    limit: nat,
) -> Option<(Seq<EventRecordView>, bool)> {
    if after is Some && (after->0).0 == u64::MAX {
        Some((Seq::empty(), false))
    } else {
        match file_start(image, branch, after) {
            None => None,
            Some((start, minimum)) => {
                let keys = run_of(
                    keys_from(
                        listed_keys(image.branch_file_events),
                        triple_key(branch.0, file.0, start),
                    ),
                    pair_key(branch.0, file.0),
                );
                file_walk(
                    Seq::new(keys.len(), |i: int| file_event_at(image, branch, file, keys[i])),
                    minimum,
                    limit,
                    Seq::empty(),
                )
            },
        }
    }
}

/// Finds where a listing of the events of a file starts.
fn find_file_start(
    database: &Database,
    branch: BranchIdentifier,
    after: Option<EventSequence>,
) -> (start: Result<(u64, Option<EventSequence>), FilesystemError>)
    ensures
        match start {
            Ok(start) => file_start(database@, branch, after) == Some(start),
            Err(error) => error == FilesystemError::Integrity && file_start(
                database@,
                branch,
                after,
            ) is None,
        },
{
    match after {
        None => Ok((0, None)),
        Some(sequence) => match find_event(database, sequence) {
            Err(error) => Err(error),
            Ok(None) => Ok((0, Some(sequence))),
            Ok(Some(record)) => {
                let on_branch = match record.branch_identifier() {
                    Some(identifier) => identifier.get() == branch.get(),
                    None => false,
                };
                if !on_branch {
                    return Ok((0, Some(sequence)));
                }
                match record.branch_position() {
                    None => Err(FilesystemError::Integrity),
                    Some(position) => {
                        if position.branch_identifier().get() != branch.get() {
                            return Err(FilesystemError::Integrity);
                        }
                        match position.ordinal().checked_add(1) {
                            None => Err(FilesystemError::Integrity),
                            Some(start) => Ok((start, None)),
                        }
                    },
                }
            },
        },
    }
}

/// Checks that the index of a file has an event.
pub fn validate_file_event_index(
    database: &Database,
    file_identifier: FileIdentifier,
    sequence: EventSequence,
) -> (result: Result<(), FilesystemError>)
    ensures
        result == crate::hash::integrity_unless(
            database@.file_events.contains_key(pair_key(file_identifier.0, sequence.0))
                && database@.file_events[pair_key(file_identifier.0, sequence.0)].len() == 0,
        ),
{
    let key = encode_file_sequence_key(file_identifier.get(), sequence.get());
    match database.file_events.get(key.as_slice()) {
        None => Err(FilesystemError::Integrity),
        Some(value) => {
            if value.len() != 0 {
                Err(FilesystemError::Integrity)
            } else {
                Ok(())
            }
        },
    }
}

/// Reads the record that a row of the index of a file on a branch names, and checks the file's own
/// index.
fn read_file_event(
    database: &Database,
    branch: BranchIdentifier,
    file_identifier: FileIdentifier,
    key: &[u8],
    value: &Vec<u8>,
) -> (record: Result<EventRecord, FilesystemError>)
    requires
        database@.branch_file_events.contains_key(key@),
        database@.branch_file_events[key@] == value@,
    ensures
        match record {
            Ok(record) => file_event_at(database@, branch, file_identifier, key@) == Some(record@),
            Err(error) => error == FilesystemError::Integrity && file_event_at(
                database@,
                branch,
                file_identifier,
                key@,
            ) is None,
        },
{
    match read_branch_file_event(database, branch, file_identifier, key, value) {
        Err(error) => Err(error),
        Ok(record) => match validate_file_event_index(database, file_identifier, record.sequence()) {
            Err(error) => Err(error),
            Ok(_) => Ok(record),
        },
    }
}

impl Storage {
    /// Returns the number of the active branch.
    pub fn active_branch_identifier(&self) -> (branch: BranchIdentifier)
        ensures
            branch == BranchIdentifier(self@.write.active_branch_identifier),
    {
        BranchIdentifier::new(self.write_state.active_branch_identifier)
    }

    /// Lists the events of a file on the active branch after a sequence, in order.
    pub fn list_file_events(
        &self,
        file_identifier: FileIdentifier,
        after: Option<EventSequence>,
        limit: EventPageLimit,
    ) -> (page: Result<EventPage, FilesystemError>)
        ensures
            match page {
                Ok(page) => {
                    let expected = file_events_after(
                        self@.image,
                        BranchIdentifier(self@.write.active_branch_identifier),
                        file_identifier,
                        after,
                        limit@ as nat,
                    );
                    expected is Some && event_page(page, expected->0)
                },
                Err(error) => error == FilesystemError::Integrity && file_events_after(
                    self@.image,
                    BranchIdentifier(self@.write.active_branch_identifier),
                    file_identifier,
                    after,
                    limit@ as nat,
                ) is None,
            },
    {
        let branch = self.active_branch_identifier();
        match after {
            Some(sequence) => {
                if sequence.get() == u64::MAX {
                    let records: Vec<EventRecord> = Vec::new();
                    proof {
                        assert(record_views(records@) =~= Seq::<EventRecordView>::empty());
                    }
                    return Ok(EventPage::new(records, None));
                }
            },
            None => {},
        }
        let (start, minimum) = match find_file_start(&self.database, branch, after) {
            Err(error) => return Err(error),
            Ok(found) => found,
        };
        let limit_value: u64 = limit.get();
        let prefix = encode_branch_file_prefix(branch.get(), file_identifier.get());
        let start_key = encode_branch_file_position_key(
            branch.get(),
            file_identifier.get(),
            start,
        );
        let table = &self.database.branch_file_events;
        let first: usize = seek(table, start_key.as_slice());
        let total: usize = table.len();
        let ghost image = self@.image;
        let ghost all = table.keys();
        proof {
            lemma_same_keys(table@, image.branch_file_events, all);
        }
        let ghost keys = run_of(all.skip(first as int), prefix@);
        let ghost items = Seq::new(
            keys.len(),
            |i: int| file_event_at(image, branch, file_identifier, keys[i]),
        );
        let ghost expected = file_events_after(
            image,
            branch,
            file_identifier,
            after,
            limit@ as nat,
        );
        let mut records: Vec<EventRecord> = Vec::new();
        let mut index: usize = first;
        let mut more = false;
        proof {
            assert(all.subrange(first as int, first as int) + keys =~= keys);
            assert(items.skip(0) =~= items);
            assert(record_views(records@) =~= Seq::<EventRecordView>::empty());
        }
        while !more && index < total && starts_with(table.key_at(index), prefix.as_slice())
            invariant
                first <= index <= total,
                total == all.len(),
                table == &self.database.branch_file_events,
                all == table.keys(),
                lists_keys(all, table@),
                image == self@.image,
                limit_value == limit@,
                limit_value > 0,
                keys == run_of(all.skip(first as int), prefix@),
                keys == all.subrange(first as int, index as int) + run_of(
                    all.skip(index as int),
                    prefix@,
                ),
                items == Seq::new(
                    keys.len(),
                    |i: int| file_event_at(image, branch, file_identifier, keys[i]),
                ),
                expected == file_events_after(
                    self@.image,
                    BranchIdentifier(self@.write.active_branch_identifier),
                    file_identifier,
                    after,
                    limit@ as nat,
                ),
                records@.len() <= limit_value,
                more ==> expected == Some((record_views(records@), true)) && records@.len() > 0,
                !more ==> expected == file_walk(
                    items.skip(index - first),
                    minimum,
                    limit@ as nat,
                    record_views(records@),
                ),
            decreases
                total - index,
                (if more {
                    0int
                } else {
                    1int
                }),
        {
            let key = table.key_at(index);
            let ghost place = index - first;
            let ghost rest = items.skip(place);
            proof {
                lemma_run_extends(all, prefix@, first as int, index as int);
                assert(items[place] == file_event_at(image, branch, file_identifier, key@));
                assert(rest[0] == items[place]);
                assert(rest.skip(1) =~= items.skip(place + 1));
            }
            match read_file_event(
                &self.database,
                branch,
                file_identifier,
                key,
                table.value_at(index),
            ) {
                Err(error) => {
                    return Err(error);
                },
                Ok(record) => {
                    let skipped = match minimum {
                        Some(sequence) => record.sequence().get() <= sequence.get(),
                        None => false,
                    };
                    if skipped {
                        index = index + 1;
                    } else if records.len() as u64 == limit_value {
                        more = true;
                    } else {
                        let ghost before = record_views(records@);
                        let ghost value = record@;
                        records.push(record);
                        proof {
                            assert(record_views(records@) =~= before.push(value));
                        }
                        index = index + 1;
                    }
                },
            }
        }
        proof {
            if !more {
                if index < total {
                    assert(all.skip(index as int)[0] == all[index as int]);
                }
                assert(run_of(all.skip(index as int), prefix@).len() == 0);
                assert(items.skip(index - first).len() == 0);
            }
        }
        let next_after: Option<EventSequence> = if more && records.len() > 0 {
            Some(records[records.len() - 1].sequence())
        } else {
            None
        };
        Ok(EventPage::new(records, next_after))
    }
}

/// The snapshot that a row of the snapshot table stands for.
pub open spec fn snapshot_at(
    image: Image,
    branch: BranchIdentifier,
    file: FileIdentifier,
    key: Seq<u8>,
) -> Option<FileSnapshot> {
    match (decoded_triple(key), image.snapshots[key]) {
        (Ok((key_branch, key_file, ordinal)), Some(metadata)) => if key_branch == branch.0
            && key_file == file.0 {
            Some(
                FileSnapshot {
                    file_identifier: file,
                    sequence: EventSequence(metadata.sequence),
                    branch_position: BranchPosition { branch_identifier: branch, ordinal },
                    file_size: metadata.file_size,
                },
            )
        } else {
            None
        },
        _ => None,
    }
}

/// What a file was in a state of a branch: `Ok(None)` where it was no regular file there.
pub open spec fn snapshot_in_root(image: Image, file: FileIdentifier, root: BranchRootView) -> Result<
    Option<SnapshotView>,
    FilesystemError,
> {
    match stored_state(image.nodes, root.namespace_identifier) {
        None => Err(FilesystemError::Integrity),
        Some(state) => match state.inode(file.0) {
            None => Ok(None),
            Some(inode) => if inode.kind != StoredNodeKind::RegularFile {
                Ok(None)
            } else {
                Ok(
                    Some(
                        SnapshotView {
                            file_size: inode.size,
                            sequence: root.sequence,
                            content_manifest_identifier: match inode.content_manifest_identifier {
                                Some(manifest) => manifest,
                                None => empty_identifier(),
                            },
                        },
                    ),
                )
            },
        },
    }
}

/// The newest of the given states of a branch, at or before a sequence where one is given, that has a
/// file as a regular file.
pub open spec fn root_walk(
    image: Image,
    branch: BranchIdentifier,
    file: FileIdentifier,
    newest: Option<u64>,
    keys: Seq<Seq<u8>>,
) -> Result<Option<FileSnapshot>, FilesystemError>
    decreases keys.len(),
{
    if keys.len() == 0 || !has_prefix(keys.last(), u64_key(branch.0)) {
        Ok(None)
    } else {
        match (decoded_ordinal(keys.last()), image.branch_roots[keys.last()]) {
            (Ok(ordinal), Some(root)) => if newest is Some && root.sequence > newest->0 {
                root_walk(image, branch, file, newest, keys.drop_last())
            } else {
                match snapshot_in_root(image, file, root) {
                    Err(error) => Err(error),
                    Ok(None) => root_walk(image, branch, file, newest, keys.drop_last()),
                    Ok(Some(metadata)) => Ok(
                        Some(
                            FileSnapshot {
                                file_identifier: file,
                                sequence: EventSequence(metadata.sequence),
                                branch_position: BranchPosition {
                                    branch_identifier: branch,
                                    ordinal,
                                },
                                file_size: metadata.file_size,
                            },
                        ),
                    ),
                }
            },
            _ => Err(FilesystemError::Integrity),
        }
    }
}

/// The newest snapshot of a file on a branch at or before a position: the newest row of the snapshot
/// table, else what the states of the branch have of the file.
pub open spec fn snapshot_by_position(
    image: Image,
    branch: BranchIdentifier,
    file: FileIdentifier,
    position: BranchPosition,
) -> Result<Option<FileSnapshot>, FilesystemError> {
    let keys = keys_up_to(listed_keys(image.snapshots), triple_key(
        branch.0,
        file.0,
        position.ordinal,
    ));
    if keys.len() > 0 && has_prefix(keys.last(), pair_key(branch.0, file.0)) {
        match snapshot_at(image, branch, file, keys.last()) {
            Some(snapshot) => Ok(Some(snapshot)),
            None => Err(FilesystemError::Integrity),
        }
    } else {
        root_walk(
            image,
            position.branch_identifier,
            file,
            None,
            keys_up_to(
                listed_keys(image.branch_roots),
                pair_key(position.branch_identifier.0, position.ordinal),
            ),
        )
    }
}

/// The newest of the given rows of the snapshot table at or before a sequence, if there is one.
pub open spec fn snapshot_walk(
    image: Image,
    branch: BranchIdentifier,
    file: FileIdentifier,
    newest: u64,
    keys: Seq<Seq<u8>>,
) -> Result<Option<FileSnapshot>, FilesystemError>
    decreases keys.len(),
{
    if keys.len() == 0 || !has_prefix(keys.last(), pair_key(branch.0, file.0)) {
        Ok(None)
    } else {
        match snapshot_at(image, branch, file, keys.last()) {
            None => Err(FilesystemError::Integrity),
            Some(snapshot) => if snapshot.sequence.0 <= newest {
                Ok(Some(snapshot))
            } else {
                snapshot_walk(image, branch, file, newest, keys.drop_last())
            },
        }
    }
}

/// The newest snapshot of a file on a branch at or before a sequence: the newest such row of the
/// snapshot table, else what the states of the branch have of the file.
pub open spec fn snapshot_by_sequence(
    image: Image,
    branch: BranchIdentifier,
    file: FileIdentifier,
    newest: u64,
) -> Result<Option<FileSnapshot>, FilesystemError> {
    match snapshot_walk(
        image,
        branch,
        file,
        newest,
        keys_up_to(listed_keys(image.snapshots), triple_key(branch.0, file.0, u64::MAX)),
    ) {
        Err(error) => Err(error),
        Ok(Some(snapshot)) => Ok(Some(snapshot)),
        Ok(None) => root_walk(
            image,
            branch,
            file,
            Some(newest),
            keys_up_to(listed_keys(image.branch_roots), pair_key(branch.0, u64::MAX)),
        ),
    }
}

/// Reads a row of the snapshot table.
fn read_snapshot(
    database: &Database,
    branch: BranchIdentifier,
    file_identifier: FileIdentifier,
    key: &[u8],
    row: &Option<StoredSnapshotMetadata>,
) -> (snapshot: Result<FileSnapshot, FilesystemError>)
    requires
        database@.snapshots.contains_key(key@),
        database@.snapshots[key@] == crate::database::row_view(*row),
    ensures
        match snapshot {
            Ok(snapshot) => snapshot_at(database@, branch, file_identifier, key@) == Some(snapshot),
            Err(error) => error == FilesystemError::Integrity && snapshot_at(
                database@,
                branch,
                file_identifier,
                key@,
            ) is None,
        },
{
    let (key_branch, key_file, ordinal) = match crate::keys::decode_file_snapshot_manifest_key(key) {
        Err(error) => return Err(error),
        Ok(decoded) => decoded,
    };
    if key_branch != branch.get() || key_file != file_identifier.get() {
        return Err(FilesystemError::Integrity);
    }
    match row {
        None => Err(FilesystemError::Integrity),
        Some(metadata) => Ok(
            FileSnapshot::new(
                file_identifier,
                EventSequence::new(metadata.sequence),
                BranchPosition::new(branch, ordinal),
                metadata.file_size,
            ),
        ),
    }
}

/// The value of an optional snapshot.
pub open spec fn optional_snapshot(metadata: Option<StoredSnapshotMetadata>) -> Option<SnapshotView> {
    match metadata {
        None => None,
        Some(metadata) => Some(metadata@),
    }
}

/// Finds what a file was in a state of a branch.
pub fn snapshot_metadata_from_branch_root(
    database: &Database,
    file_identifier: FileIdentifier,
    root: &StoredBranchRoot,
) -> (metadata: Result<Option<StoredSnapshotMetadata>, FilesystemError>)
    ensures
        match metadata {
            Ok(metadata) => snapshot_in_root(database@, file_identifier, root@) == Ok::<
                Option<SnapshotView>,
                FilesystemError,
            >(optional_snapshot(metadata)),
            Err(error) => snapshot_in_root(database@, file_identifier, root@) == Err::<
                Option<SnapshotView>,
                FilesystemError,
            >(error),
        },
{
    let state = match namespace_state_for_identifier_in_database(
        &database.namespace_nodes,
        root.namespace_identifier.as_slice(),
    ) {
        Err(error) => return Err(error),
        Ok(state) => state,
    };
    match state.inode(file_identifier.get()) {
        None => Ok(None),
        Some(inode) => {
            if inode.kind != StoredNodeKind::RegularFile {
                return Ok(None);
            }
            let manifest = match &inode.content_manifest_identifier {
                Some(manifest) => crate::bytes::copy_bytes(manifest.as_slice()),
                None => empty_content_manifest_identifier(),
            };
            Ok(
                Some(
                    StoredSnapshotMetadata {
                        file_size: inode.size,
                        sequence: root.sequence,
                        content_manifest_identifier: manifest,
                    },
                ),
            )
        },
    }
}

/// Walks the states of a branch back to the newest that has a file.
fn walk_roots(
    database: &Database,
    branch: BranchIdentifier,
    file_identifier: FileIdentifier,
    newest: Option<u64>,
    end: &[u8],
) -> (snapshot: Result<Option<FileSnapshot>, FilesystemError>)
    ensures
        snapshot == root_walk(
            database@,
            branch,
            file_identifier,
            newest,
            keys_up_to(listed_keys(database@.branch_roots), end@),
        ),
{
    let prefix = encode_u64(branch.get());
    let table = &database.branch_roots;
    let mut count: usize = seek_back(table, end);
    let ghost image = database@;
    let ghost all = table.keys();
    proof {
        lemma_same_keys(table@, image.branch_roots, all);
    }
    let ghost expected = root_walk(
        image,
        branch,
        file_identifier,
        newest,
        all.take(count as int),
    );
    while count > 0 && starts_with(table.key_at(count - 1), prefix.as_slice())
        invariant
            count <= all.len(),
            table == &database.branch_roots,
            all == table.keys(),
            lists_keys(all, table@),
            image == database@,
            prefix@ == u64_key(branch.0),
            expected == root_walk(
                database@,
                branch,
                file_identifier,
                newest,
                keys_up_to(listed_keys(database@.branch_roots), end@),
            ),
            expected == root_walk(image, branch, file_identifier, newest, all.take(count as int)),
        decreases count,
    {
        let key = table.key_at(count - 1);
        let row = table.value_at(count - 1);
        let ghost keys = all.take(count as int);
        proof {
            assert(keys.last() == key@);
            assert(keys.drop_last() =~= all.take(count - 1));
            assert(image.branch_roots.contains_key(key@));
        }
        let ordinal: u64 = match decode_branch_position_ordinal(key) {
            Err(error) => return Err(error),
            Ok(ordinal) => ordinal,
        };
        match row {
            None => return Err(FilesystemError::Integrity),
            Some(root) => {
                let considered = match newest {
                    Some(sequence) => root.sequence <= sequence,
                    None => true,
                };
                if considered {
                    match snapshot_metadata_from_branch_root(database, file_identifier, root) {
                        Err(error) => return Err(error),
                        Ok(Some(metadata)) => {
                            return Ok(
                                Some(
                                    FileSnapshot::new(
                                        file_identifier,
                                        EventSequence::new(metadata.sequence),
                                        BranchPosition::new(branch, ordinal),
                                        metadata.file_size,
                                    ),
                                ),
                            );
                        },
                        Ok(None) => {},
                    }
                }
            },
        }
        count = count - 1;
    }
    Ok(None)
}

impl Storage {
    /// Finds the newest state of a branch at or before a position that has a file.
    pub fn branch_root_snapshot_at_or_before_position(
        &self,
        file_identifier: FileIdentifier,
        position: BranchPosition,
    ) -> (snapshot: Result<Option<FileSnapshot>, FilesystemError>)
        ensures
            snapshot == root_walk(
                self@.image,
                position.branch_identifier,
                file_identifier,
                None,
                keys_up_to(
                    listed_keys(self@.image.branch_roots),
                    pair_key(position.branch_identifier.0, position.ordinal),
                ),
            ),
    {
        let end = encode_branch_position_key(
            position.branch_identifier().get(),
            position.ordinal(),
        );
        walk_roots(
            &self.database,
            position.branch_identifier(),
            file_identifier,
            None,
            end.as_slice(),
        )
    }

    /// Finds the newest state of a branch at or before a sequence that has a file.
    pub fn branch_root_snapshot_at_or_before_sequence(
        &self,
        branch: BranchIdentifier,
        file_identifier: FileIdentifier,
        sequence: EventSequence,
    ) -> (snapshot: Result<Option<FileSnapshot>, FilesystemError>)
        ensures
            snapshot == root_walk(
                self@.image,
                branch,
                file_identifier,
                Some(sequence.0),
                keys_up_to(listed_keys(self@.image.branch_roots), pair_key(branch.0, u64::MAX)),
            ),
    {
        let end = encode_branch_position_key(branch.get(), u64::MAX);
        walk_roots(
            &self.database,
            branch,
            file_identifier,
            Some(sequence.get()),
            end.as_slice(),
        )
    }

    /// Finds the newest snapshot of a file on a branch at or before a position.
    pub fn file_snapshot_metadata_at_or_before(
        &self,
        branch: BranchIdentifier,
        file_identifier: FileIdentifier,
        position: BranchPosition,
    ) -> (snapshot: Result<Option<FileSnapshot>, FilesystemError>)
        ensures
            snapshot == snapshot_by_position(self@.image, branch, file_identifier, position),
    {
        let prefix = crate::keys::encode_snapshot_file_prefix(branch.get(), file_identifier.get());
        let end = crate::keys::encode_file_snapshot_manifest_key(
            branch.get(),
            file_identifier.get(),
            position.ordinal(),
        );
        let table = &self.database.file_snapshot_manifests;
        let count: usize = seek_back(table, end.as_slice());
        let ghost all = table.keys();
        proof {
            lemma_same_keys(table@, self@.image.snapshots, all);
        }
        if count > 0 {
            let key = table.key_at(count - 1);
            proof {
                assert(all.take(count as int).last() == key@);
                assert(self@.image.snapshots.contains_key(key@));
            }
            if starts_with(key, prefix.as_slice()) {
                return match read_snapshot(
                    &self.database,
                    branch,
                    file_identifier,
                    key,
                    table.value_at(count - 1),
                ) {
                    Err(error) => Err(error),
                    Ok(snapshot) => Ok(Some(snapshot)),
                };
            }
        }
        self.branch_root_snapshot_at_or_before_position(file_identifier, position)
    }

    /// Finds the newest snapshot of a file on a branch at or before a sequence.
    pub fn file_snapshot_metadata_for_sequence_at_or_before(
        &self,
        branch: BranchIdentifier,
        file_identifier: FileIdentifier,
        sequence: EventSequence,
    ) -> (snapshot: Result<Option<FileSnapshot>, FilesystemError>)
        ensures
            snapshot == snapshot_by_sequence(self@.image, branch, file_identifier, sequence.0),
    {
        let prefix = crate::keys::encode_snapshot_file_prefix(branch.get(), file_identifier.get());
        let end = crate::keys::encode_file_snapshot_manifest_key(
            branch.get(),
            file_identifier.get(),
            u64::MAX,
        );
        let table = &self.database.file_snapshot_manifests;
        let mut count: usize = seek_back(table, end.as_slice());
        let ghost image = self@.image;
        let ghost all = table.keys();
        proof {
            lemma_same_keys(table@, image.snapshots, all);
        }
        let ghost expected = snapshot_walk(
            image,
            branch,
            file_identifier,
            sequence.0,
            all.take(count as int),
        );
        while count > 0 && starts_with(table.key_at(count - 1), prefix.as_slice())
            invariant
                count <= all.len(),
                table == &self.database.file_snapshot_manifests,
                all == table.keys(),
                lists_keys(all, table@),
                image == self@.image,
                prefix@ == pair_key(branch.0, file_identifier.0),
                expected == snapshot_walk(
                    self@.image,
                    branch,
                    file_identifier,
                    sequence.0,
                    keys_up_to(
                        listed_keys(self@.image.snapshots),
                        triple_key(branch.0, file_identifier.0, u64::MAX),
                    ),
                ),
                expected == snapshot_walk(
                    image,
                    branch,
                    file_identifier,
                    sequence.0,
                    all.take(count as int),
                ),
            decreases count,
        {
            let key = table.key_at(count - 1);
            let ghost keys = all.take(count as int);
            proof {
                assert(keys.last() == key@);
                assert(keys.drop_last() =~= all.take(count - 1));
                assert(image.snapshots.contains_key(key@));
            }
            match read_snapshot(
                &self.database,
                branch,
                file_identifier,
                key,
                table.value_at(count - 1),
            ) {
                Err(error) => return Err(error),
                Ok(snapshot) => {
                    if snapshot.sequence().get() <= sequence.get() {
                        return Ok(Some(snapshot));
                    }
                },
            }
            count = count - 1;
        }
        self.branch_root_snapshot_at_or_before_sequence(branch, file_identifier, sequence)
    }

    /// Finds the newest snapshot of a file on the active branch at or before a sequence.
    pub fn file_snapshot_at_or_before(
        &self,
        file_identifier: FileIdentifier,
        sequence: EventSequence,
    ) -> (snapshot: Result<Option<FileSnapshot>, FilesystemError>)
        ensures
            snapshot == snapshot_by_sequence(
                self@.image,
                BranchIdentifier(self@.write.active_branch_identifier),
                file_identifier,
                sequence.0,
            ),
    {
        self.file_snapshot_metadata_for_sequence_at_or_before(
            self.active_branch_identifier(),
            file_identifier,
            sequence,
        )
    }

    /// Finds the newest snapshot of a file on a branch at or before a position of that branch.
    pub fn file_snapshot_on_branch_at_or_before(
        &self,
        branch: BranchIdentifier,
        file_identifier: FileIdentifier,
        position: BranchPosition,
    ) -> (snapshot: Result<Option<FileSnapshot>, FilesystemError>)
        ensures
            snapshot == (if position.branch_identifier != branch {
                Err(FilesystemError::Integrity)
            } else {
                snapshot_by_position(self@.image, branch, file_identifier, position)
            }),
    {
        if position.branch_identifier().get() != branch.get() {
            return Err(FilesystemError::Integrity);
        }
        self.file_snapshot_metadata_at_or_before(branch, file_identifier, position)
    }
}

/// The state of a branch at a position.
pub open spec fn root_of(image: Image, position: BranchPosition) -> Option<BranchRootView> {
    let key = pair_key(position.branch_identifier.0, position.ordinal);
    if image.branch_roots.contains_key(key) {
        image.branch_roots[key]
    } else {
        None
    }
}

/// Finds the state of a branch at a position.
pub fn branch_root_at_position<'a>(database: &'a Database, position: BranchPosition) -> (root:
    Result<&'a StoredBranchRoot, FilesystemError>)
    ensures
        match root {
            Ok(root) => root_of(database@, position) == Some(root@),
            Err(error) => error == FilesystemError::Integrity && root_of(
                database@,
                position,
            ) is None,
        },
{
    let key = encode_branch_position_key(position.branch_identifier().get(), position.ordinal());
    match database.branch_roots.get(key.as_slice()) {
        None => Err(FilesystemError::Integrity),
        Some(None) => Err(FilesystemError::Integrity),
        Some(Some(root)) => Ok(root),
    }
}

/// The contents of a file at a position of a branch: from the snapshot table, else from the state of
/// the branch at just that position.
pub open spec fn contents_at(image: Image, file: FileIdentifier, position: BranchPosition) -> Option<
    SnapshotView,
> {
    let key = triple_key(position.branch_identifier.0, file.0, position.ordinal);
    if image.snapshots.contains_key(key) {
        image.snapshots[key]
    } else {
        match root_of(image, position) {
            None => None,
            Some(root) => match snapshot_in_root(image, file, root) {
                Ok(Some(metadata)) => Some(metadata),
                _ => None,
            },
        }
    }
}

/// Finds the contents of a file at a position of a branch.
pub fn file_snapshot_manifest(
    database: &Database,
    file_identifier: FileIdentifier,
    position: BranchPosition,
) -> (metadata: Result<StoredSnapshotMetadata, FilesystemError>)
    ensures
        match metadata {
            Ok(metadata) => contents_at(database@, file_identifier, position) == Some(metadata@),
            Err(error) => error == FilesystemError::Integrity && contents_at(
                database@,
                file_identifier,
                position,
            ) is None,
        },
{
    let key = crate::keys::encode_file_snapshot_manifest_key(
        position.branch_identifier().get(),
        file_identifier.get(),
        position.ordinal(),
    );
    match database.file_snapshot_manifests.get(key.as_slice()) {
        Some(None) => return Err(FilesystemError::Integrity),
        Some(Some(metadata)) => return Ok(metadata.clone()),
        None => {},
    }
    let root = match branch_root_at_position(database, position) {
        Err(error) => return Err(error),
        Ok(root) => root,
    };
    match snapshot_metadata_from_branch_root(database, file_identifier, root) {
        Err(error) => Err(error),
        Ok(None) => Err(FilesystemError::Integrity),
        Ok(Some(metadata)) => Ok(metadata),
    }
}

/// The length of a part of what an event overwrote and wrote.
pub open spec fn part_length(record: EventRecordView, part: FileEventPayloadPart) -> Option<u64> {
    match part {
        FileEventPayloadPart::Overwritten => record.overwritten_length(),
        FileEventPayloadPart::Written => record.written_length(),
    }
}

/// Returns the length of a part of what an event overwrote and wrote.
pub fn event_payload_part_length(event: &EventRecord, part: FileEventPayloadPart) -> (length: Option<
    u64,
>)
    ensures
        length == part_length(event@, part),
{
    match part {
        FileEventPayloadPart::Overwritten => event.overwritten_byte_length(),
        FileEventPayloadPart::Written => event.written_byte_length(),
    }
}

/// The byte that marks a part in a key.
pub open spec fn part_byte(part: FileEventPayloadPart) -> u8 {
    match part {
        FileEventPayloadPart::Overwritten => EVENT_PAYLOAD_PART_OVERWRITTEN,
        FileEventPayloadPart::Written => EVENT_PAYLOAD_PART_WRITTEN,
    }
}

/// Returns the byte that marks a part in a key.
pub fn event_payload_part_byte(part: FileEventPayloadPart) -> (byte: u8)
    ensures
        byte == part_byte(part),
{
    match part {
        FileEventPayloadPart::Overwritten => EVENT_PAYLOAD_PART_OVERWRITTEN,
        FileEventPayloadPart::Written => EVENT_PAYLOAD_PART_WRITTEN,
    }
}

/// The smaller of a length and what is left of a whole after an offset.
pub open spec fn clipped(whole: u64, offset: u64, length: u64) -> u64 {
    if offset >= whole {
        0
    } else if length <= whole - offset {
        length
    } else {
        (whole - offset) as u64
    }
}

/// What reading a range gives of contents that must be known: an integrity error where they are not.
pub open spec fn reads_contents(
    result: Result<Vec<u8>, FilesystemError>,
    image: Image,
    manifest: Option<Seq<u8>>,
    offset: u64,
    length: u64,
) -> bool {
    match manifest {
        Some(manifest) => reads_range(
            result,
            image.manifests,
            image.chunks,
            manifest,
            offset,
            length,
        ),
        None => if length == 0 {
            result is Ok && result->Ok_0@ == Seq::<u8>::empty()
        } else {
            result == Err::<Vec<u8>, FilesystemError>(FilesystemError::Integrity)
        },
    }
}

/// The manifest of a file at a position of a branch.
pub open spec fn manifest_of_contents(
    image: Image,
    file: FileIdentifier,
    position: BranchPosition,
) -> Option<Seq<u8>> {
    match contents_at(image, file, position) {
        Some(metadata) => Some(metadata.content_manifest_identifier),
        None => None,
    }
}

/// The manifest of a part of what an event overwrote and wrote.
pub open spec fn manifest_of_part(image: Image, sequence: u64, part: FileEventPayloadPart) -> Option<
    Seq<u8>,
> {
    let key = part_key(sequence, part_byte(part));
    if image.payloads.contains_key(key) && image.payloads[key] is Some {
        Some(image.payloads[key]->0.content_manifest_identifier)
    } else {
        None
    }
}

impl Storage {
    /// Reads a range of a file as a snapshot has it, up to the end of the file there.
    pub fn read_file_snapshot_range(
        &self,
        snapshot: &FileSnapshot,
        offset: u64,
        length: u64,
    ) -> (bytes: Result<Vec<u8>, FilesystemError>)
        ensures
            reads_contents(
                bytes,
                self@.image,
                manifest_of_contents(
                    self@.image,
                    snapshot.file_identifier,
                    snapshot.branch_position,
                ),
                offset,
                clipped(snapshot.file_size, offset, length),
            ),
    {
        if offset >= snapshot.file_size() {
            return Ok(Vec::new());
        }
        let rest: u64 = snapshot.file_size() - offset;
        let readable: u64 = if length <= rest {
            length
        } else {
            rest
        };
        if readable == 0 {
            return Ok(Vec::new());
        }
        let metadata = match file_snapshot_manifest(
            &self.database,
            snapshot.file_identifier(),
            snapshot.branch_position(),
        ) {
            Err(error) => return Err(error),
            Ok(metadata) => metadata,
        };
        read_manifest_range(
            &self.database.content_manifest_nodes,
            &self.database.content_chunks,
            metadata.content_manifest_identifier.as_slice(),
            offset,
            readable,
        )
    }

    /// Reads a range of the bytes that an event overwrote or wrote, up to their end. An event that is
    /// not there has none.
    pub fn read_file_event_payload_range(
        &self,
        sequence: EventSequence,
        part: FileEventPayloadPart,
        offset: u64,
        length: u64,
    ) -> (bytes: Result<Vec<u8>, FilesystemError>)
        ensures
            match event_of(self@.image, sequence.0) {
                Err(error) => bytes == Err::<Vec<u8>, FilesystemError>(error),
                Ok(None) => bytes is Ok && bytes->Ok_0@ == Seq::<u8>::empty(),
                Ok(Some(record)) => reads_contents(
                    bytes,
                    self@.image,
                    manifest_of_part(self@.image, sequence.0, part),
                    offset,
                    clipped(
                        match part_length(record, part) {
                            Some(whole) => whole,
                            None => 0,
                        },
                        offset,
                        length,
                    ),
                ),
            },
    {
        let record = match find_event(&self.database, sequence) {
            Err(error) => return Err(error),
            Ok(None) => return Ok(Vec::new()),
            Ok(Some(record)) => record,
        };
        let whole: u64 = match event_payload_part_length(record, part) {
            Some(whole) => whole,
            None => 0,
        };
        if offset >= whole || length == 0 {
            return Ok(Vec::new());
        }
        let readable: u64 = if length <= whole - offset {
            length
        } else {
            whole - offset
        };
        let key = encode_event_payload_manifest_key(
            sequence.get(),
            event_payload_part_byte(part),
        );
        match self.database.event_payload_manifests.get(key.as_slice()) {
            None => Err(FilesystemError::Integrity),
            Some(None) => Err(FilesystemError::Integrity),
            Some(Some(manifest)) => read_manifest_range(
                &self.database.content_manifest_nodes,
                &self.database.content_chunks,
                manifest.content_manifest_identifier.as_slice(),
                offset,
                readable,
            ),
        }
    }
}

} // verus!
