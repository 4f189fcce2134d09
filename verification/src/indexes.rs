//! The indexes that every operation keeps: each row of the event and branch tables can be read, each
//! index row leads to an event that lies where the row says, and so every listing succeeds.

use vstd::prelude::*;
use vstd::utf8::{encode_utf8, encode_utf8_decode_utf8};

use crate::branches::{
    branch_at, branches_after, named_branch, number_of, BranchCreation, BRANCH_IDENTIFIER_INITIAL,
};
use crate::bytes::has_prefix;
use crate::changes::ChangeView;
use crate::commit::{next_position, placed_event, ActiveView, PayloadExtents};
use crate::database::{
    put_blobs, put_rows, remove_keys_of, BatchView, BranchView, Image, StoredEventView,
};
use crate::durability::{
    contents_only, lemma_commit_rows, lemma_put_one_blob, lemma_kept_is_stored,
    lemma_put_one_row, persisted,
};
use crate::error::FuseError;
use crate::filesystem::{
    BranchIdentifier, BranchPosition, BranchStatus, EventSequence, FileIdentifier,
};
use crate::history::{
    branch_event_at, branch_events_after, branch_file_event_at, branch_file_events_after,
    events_after, file_event_at, file_events_after, indexed_sequence, keys_from, lies_at,
    position_start, present_event, record_at_key, run_of,
};
use crate::inode::InodeView;
use crate::keys::{
    lemma_ordinal_round_trip, lemma_triple_round_trip, lemma_u64_key_injective,
    lemma_u64_round_trip, pair_key, triple_key, u64_key, u64_of,
};
use crate::opening::{initial_branch, initial_event, initial_rows};
use crate::pages::{
    branch_event_items, branch_file_event_items, branch_items, branches_placed, event_items,
    file_event_items, keys_sized, lemma_branch_items, lemma_event_items, lemma_start_index,
    lemma_walk_is_page,
};
use crate::states::{lemma_listed_insert, listed};
use crate::storage::{PreparedView, StorageView};
use crate::table::{lemma_listed_keys, listed_keys, lists_keys};
use crate::timeline::lemma_name_is_not_reused;
use crate::trie::TriePlan;

verus! {

/// The branch that a key of a branch index starts with.
pub open spec fn branch_in(key: Seq<u8>) -> BranchIdentifier {
    BranchIdentifier(u64_of(key.take(8)))
}

/// The file that stands second in a key of the index of files on branches.
pub open spec fn file_in(key: Seq<u8>) -> FileIdentifier {
    FileIdentifier(u64_of(key.subrange(8, 16)))
}

/// Every event is stored under its sequence.
pub open spec fn events_filed(image: Image) -> bool {
    &&& listed(image.events)
    &&& forall|key: Seq<u8>| #[trigger]
        image.events.contains_key(key) ==> record_at_key(image, key) is Some
}

/// Every branch is stored under its number and has a name.
pub open spec fn branches_filed(image: Image) -> bool {
    &&& listed(image.branches)
    &&& keys_sized(image.branches, 8)
    &&& branches_placed(image)
    &&& forall|key: Seq<u8>| #[trigger]
        image.branches.contains_key(key) ==> named_branch(image, key) is Some
}

/// Every row of the branch index leads to an event of the branch at the position.
pub open spec fn positions_filed(image: Image) -> bool {
    &&& listed(image.branch_events)
    &&& keys_sized(image.branch_events, 16)
    &&& forall|key: Seq<u8>| #[trigger]
        image.branch_events.contains_key(key) ==> branch_event_at(image, branch_in(key), key) is Some
}

/// Every row of the index of files on branches leads to an event about the file at the position, which
/// the index of the file has too.
pub open spec fn file_positions_filed(image: Image) -> bool {
    &&& listed(image.branch_file_events)
    &&& keys_sized(image.branch_file_events, 24)
    &&& forall|key: Seq<u8>| #[trigger]
        image.branch_file_events.contains_key(key) ==> file_event_at(
            image,
            branch_in(key),
            file_in(key),
            key,
        ) is Some
}

/// An open branch has a number and a name.
pub open spec fn open_branch(image: Image, number: u64, name: Seq<char>) -> bool {
    &&& branch_at(image, number) is Some
    &&& branch_at(image, number)->0.status == BranchStatus::Open
    &&& branch_at(image, number)->0.name == name
}

/// Each open branch, and no other, is found under its name with its own number.
pub open spec fn names_filed(image: Image) -> bool {
    &&& forall|number: u64|
        (#[trigger] branch_at(image, number)) is Some && branch_at(image, number)->0.status
            == BranchStatus::Open ==> number_of(image, branch_at(image, number)->0.name) == Some(
            number,
        )
    &&& forall|name: Seq<char>|
        (#[trigger] number_of(image, name)) is Some ==> open_branch(
            image,
            number_of(image, name)->0,
            name,
        )
}

/// The active branch is an open branch that is stored and has a name.
pub open spec fn active_filed(storage: StorageView) -> bool {
    let branch = storage.active.branch;
    &&& branch.name.len() > 0
    &&& branch.status == BranchStatus::Open
    &&& branch.identifier == storage.write.active_branch_identifier
    &&& branch_at(storage.image, branch.identifier) == Some(branch)
}

/// The ordinal that a key of the branch index ends with.
pub open spec fn ordinal_in(key: Seq<u8>) -> u64 {
    u64_of(key.skip(8))
}

/// The ordinal that a key of the index of files on branches ends with.
pub open spec fn file_ordinal_in(key: Seq<u8>) -> u64 {
    u64_of(key.skip(16))
}

/// No branch has an event past its head.
pub open spec fn positions_within(image: Image) -> bool {
    forall|key: Seq<u8>| #[trigger]
        image.branch_events.contains_key(key) ==> branch_at(image, branch_in(key).0) is Some
            && ordinal_in(key) <= branch_at(image, branch_in(key).0)->0.head_ordinal
}

/// Every row of the index of files on branches has its event in the branch index too.
pub open spec fn file_rows_listed(image: Image) -> bool {
    forall|key: Seq<u8>| #[trigger]
        image.branch_file_events.contains_key(key) ==> {
            let position = pair_key(branch_in(key).0, file_ordinal_in(key));
            &&& image.branch_events.contains_key(position)
            &&& image.branch_events[position] == image.branch_file_events[key]
        }
}

/// Every event of the branch index that is about a file is in the index of files on branches too.
pub open spec fn file_events_listed(image: Image) -> bool {
    forall|key: Seq<u8>| #[trigger]
        image.branch_events.contains_key(key) ==> match branch_event_at(
            image,
            branch_in(key),
            key,
        ) {
            Some(record) => record.file_identifier is Some
                ==> image.branch_file_events.contains_key(
                triple_key(branch_in(key).0, (record.file_identifier->0).0, ordinal_in(key)),
            ),
            None => true,
        }
}

/// The two indexes of a branch list the same events, none past its head.
pub open spec fn indexes_agree(image: Image) -> bool {
    &&& positions_within(image)
    &&& file_rows_listed(image)
    &&& file_events_listed(image)
}

/// The tables are indexed soundly, and the active branch is one of the open ones.
pub open spec fn indexed(storage: StorageView) -> bool {
    &&& active_filed(storage)
    &&& events_filed(storage.image)
    &&& branches_filed(storage.image)
    &&& names_filed(storage.image)
    &&& positions_filed(storage.image)
    &&& file_positions_filed(storage.image)
    &&& indexes_agree(storage.image)
}

/// The keys of a run start with its prefix and are keys of the table.
proof fn lemma_run_keys<V>(map: Map<Seq<u8>, V>, start: Seq<u8>, prefix: Seq<u8>, i: int)
    requires
        listed(map),
        0 <= i < run_of(keys_from(listed_keys(map), start), prefix).len(),
    ensures
        has_prefix(run_of(keys_from(listed_keys(map), start), prefix)[i], prefix),
        map.contains_key(run_of(keys_from(listed_keys(map), start), prefix)[i]),
{
    let keys = listed_keys(map);
    let index = lemma_start_index(keys, start);
    lemma_run_in(keys.skip(index), prefix, i);
    let j = choose|j: int|
        0 <= j < keys.skip(index).len() && keys.skip(index)[j] == run_of(
            keys.skip(index),
            prefix,
        )[i];
    assert(keys.skip(index)[j] == keys[index + j]);
}

proof fn lemma_run_in(keys: Seq<Seq<u8>>, prefix: Seq<u8>, i: int)
    requires
        0 <= i < run_of(keys, prefix).len(),
    ensures
        has_prefix(run_of(keys, prefix)[i], prefix),
        exists|j: int| 0 <= j < keys.len() && keys[j] == run_of(keys, prefix)[i],
    decreases keys.len(),
{
    let rest = keys.skip(1);
    assert(run_of(keys, prefix) == seq![keys[0]] + run_of(rest, prefix));
    if i > 0 {
        lemma_run_in(rest, prefix, i - 1);
        let j = choose|j: int| 0 <= j < rest.len() && rest[j] == run_of(rest, prefix)[i - 1];
        assert(keys[j + 1] == rest[j]);
    } else {
        assert(keys[0] == run_of(keys, prefix)[0]);
    }
}

/// Where the tables are indexed, every listing of events and branches succeeds from the start and after
/// every cursor that fits the listing, and the events have keys of their usual length.
pub proof fn lemma_indexed_listings_succeed(
    storage: StorageView,
    after: Option<EventSequence>,
    number: Option<BranchIdentifier>,
    branch: BranchIdentifier,
    position: Option<BranchPosition>,
    file: FileIdentifier,
    limit: nat,
)
    requires
        indexed(storage),
        position_start(branch, position) is Ok,
    ensures
        events_after(storage.image, after, limit) is Some,
        branches_after(storage.image, number, limit) is Some,
        branch_events_after(storage.image, branch, position, limit) is Some,
        branch_file_events_after(storage.image, branch, file, position, limit) is Some,
        file_events_after(storage.image, branch, file, None, limit) is Some,
        keys_sized(storage.image.events, 8),
{
    let image = storage.image;
    lemma_events_found(image, after, limit);
    lemma_branches_found(image, number, limit);
    lemma_positions_found(image, branch, position, limit);
    lemma_file_positions_found(image, branch, file, position, limit);
}

proof fn lemma_events_found(image: Image, after: Option<EventSequence>, limit: nat)
    requires
        events_filed(image),
    ensures
        events_after(image, after, limit) is Some,
        keys_sized(image.events, 8),
{
    let events = event_items(image, after);
    lemma_event_items(image, after, limit);
    assert forall|i: int| 0 <= i < events.len() implies (#[trigger] events[i]) is Some by {
        let first: u64 = match after {
            Some(sequence) => (sequence.0 + 1) as u64,
            None => 0,
        };
        let keys = listed_keys(image.events);
        let index = lemma_start_index(keys, u64_key(first));
        assert(keys_from(keys, u64_key(first))[i] == keys[index + i]);
        assert(image.events.contains_key(keys[index + i]));
    }
}

proof fn lemma_branches_found(image: Image, number: Option<BranchIdentifier>, limit: nat)
    requires
        branches_filed(image),
    ensures
        branches_after(image, number, limit) is Some,
{
    let branches = branch_items(image, number);
    lemma_branch_items(image, number, limit);
    assert forall|i: int| 0 <= i < branches.len() implies (#[trigger] branches[i]) is Some by {
        let first: u64 = match number {
            Some(identifier) => (identifier.0 + 1) as u64,
            None => BRANCH_IDENTIFIER_INITIAL,
        };
        let keys = listed_keys(image.branches);
        let index = lemma_start_index(keys, u64_key(first));
        assert(keys_from(keys, u64_key(first))[i] == keys[index + i]);
        assert(image.branches.contains_key(keys[index + i]));
    }
}

proof fn lemma_positions_found(
    image: Image,
    branch: BranchIdentifier,
    position: Option<BranchPosition>,
    limit: nat,
)
    requires
        positions_filed(image),
        position_start(branch, position) is Ok,
    ensures
        branch_events_after(image, branch, position, limit) is Some,
{
    let start = position_start(branch, position)->Ok_0;
    let placed = branch_event_items(image, branch, position);
    assert forall|i: int| 0 <= i < placed.len() implies (#[trigger] placed[i]) is Some by {
        let from = pair_key(branch.0, start);
        let key = run_of(
            keys_from(listed_keys(image.branch_events), from),
            u64_key(branch.0),
        )[i];
        lemma_run_keys(image.branch_events, from, u64_key(branch.0), i);
        lemma_u64_round_trip(branch.0);
        assert(key.take(8) =~= u64_key(branch.0));
        assert(image.branch_events.contains_key(key));
    }
}

proof fn lemma_file_positions_found(
    image: Image,
    branch: BranchIdentifier,
    file: FileIdentifier,
    position: Option<BranchPosition>,
    limit: nat,
)
    requires
        file_positions_filed(image),
        position_start(branch, position) is Ok,
    ensures
        branch_file_events_after(image, branch, file, position, limit) is Some,
        file_events_after(image, branch, file, None, limit) is Some,
{
    let start = position_start(branch, position)->Ok_0;
    lemma_file_rows(image, branch, file, start);
    lemma_file_rows(image, branch, file, 0);
    let about = branch_file_event_items(image, branch, file, position);
    let rows = file_event_items(image, branch, file, start);
    assert forall|i: int| 0 <= i < about.len() implies (#[trigger] about[i]) is Some by {
        assert(rows[i] is Some);
    }
    lemma_walk_is_page(file_event_items(image, branch, file, 0), limit, Seq::empty());
}

proof fn lemma_file_rows(image: Image, branch: BranchIdentifier, file: FileIdentifier, start: u64)
    requires
        file_positions_filed(image),
    ensures
        forall|i: int|
            0 <= i < file_event_items(image, branch, file, start).len() ==> (
            #[trigger] file_event_items(image, branch, file, start)[i]) is Some,
{
    let items = file_event_items(image, branch, file, start);
    let from = triple_key(branch.0, file.0, start);
    let prefix = pair_key(branch.0, file.0);
    assert forall|i: int| 0 <= i < items.len() implies (#[trigger] items[i]) is Some by {
        let key = run_of(keys_from(listed_keys(image.branch_file_events), from), prefix)[i];
        lemma_run_keys(image.branch_file_events, from, prefix, i);
        lemma_u64_round_trip(branch.0);
        lemma_u64_round_trip(file.0);
        assert(key.take(8) =~= prefix.take(8));
        assert(prefix.take(8) =~= u64_key(branch.0));
        assert(key.subrange(8, 16) =~= prefix.skip(8));
        assert(prefix.skip(8) =~= u64_key(file.0));
        assert(image.branch_file_events.contains_key(key));
    }
}

/// Every event that there was is still there.
spec fn events_stay(before: Image, after: Image) -> bool {
    forall|number: u64| #[trigger]
        present_event(before, number) is Some ==> present_event(after, number) == present_event(
            before,
            number,
        )
}

/// Storing an event under a new sequence keeps the event table sound and every event in it.
proof fn lemma_event_row(before: Image, after: Image, sequence: u64, event: StoredEventView)
    requires
        events_filed(before),
        !before.events.contains_key(u64_key(sequence)),
        event.record.sequence.0 == sequence,
        after.events == put_rows(before.events, seq![(u64_key(sequence), event)]),
    ensures
        events_filed(after),
        events_stay(before, after),
        present_event(after, sequence) == Some(event.record),
{
    let event_key = u64_key(sequence);
    lemma_u64_round_trip(sequence);
    lemma_put_one_row(before.events, event_key, event);
    lemma_listed_insert(before.events, event_key, Some(event));
    assert forall|key: Seq<u8>| #[trigger] after.events.contains_key(key) implies record_at_key(
        after,
        key,
    ) is Some by {
        if key != event_key {
            assert(before.events.contains_key(key));
        }
    }
}

/// Storing the row of an event at its position keeps the branch index sound.
proof fn lemma_position_row(
    before: Image,
    after: Image,
    branch: BranchIdentifier,
    ordinal: u64,
    sequence: u64,
)
    requires
        positions_filed(before),
        events_stay(before, after),
        present_event(after, sequence) is Some,
        lies_at(present_event(after, sequence)->0, branch, ordinal),
        after.branch_events == put_blobs(
            before.branch_events,
            seq![(pair_key(branch.0, ordinal), u64_key(sequence))],
        ),
    ensures
        positions_filed(after),
{
    let position_key = pair_key(branch.0, ordinal);
    lemma_u64_round_trip(sequence);
    lemma_u64_round_trip(branch.0);
    lemma_put_one_blob(before.branch_events, position_key, u64_key(sequence));
    lemma_listed_insert(before.branch_events, position_key, u64_key(sequence));
    lemma_ordinal_round_trip(branch.0, ordinal);
    assert(position_key.take(8) =~= u64_key(branch.0));
    assert forall|key: Seq<u8>| #[trigger]
        after.branch_events.contains_key(key) implies branch_event_at(
        after,
        branch_in(key),
        key,
    ) is Some by {
        if key != position_key {
            assert(before.branch_events.contains_key(key));
            assert(branch_event_at(before, branch_in(key), key) is Some);
            let found = indexed_sequence(before.branch_events[key])->0;
            assert(present_event(before, found) is Some);
        }
    }
}

/// Storing the rows of an event about a file keeps the index of files on branches sound.
proof fn lemma_file_position_row(
    before: Image,
    after: Image,
    branch: BranchIdentifier,
    file: FileIdentifier,
    ordinal: u64,
    sequence: u64,
)
    requires
        file_positions_filed(before),
        events_stay(before, after),
        present_event(after, sequence) is Some,
        lies_at(present_event(after, sequence)->0, branch, ordinal),
        present_event(after, sequence)->0.file_identifier == Some(file),
        after.branch_file_events == put_blobs(
            before.branch_file_events,
            seq![(triple_key(branch.0, file.0, ordinal), u64_key(sequence))],
        ),
        after.file_events == put_blobs(
            before.file_events,
            seq![(pair_key(file.0, sequence), Seq::empty())],
        ),
    ensures
        file_positions_filed(after),
{
    let file_key = triple_key(branch.0, file.0, ordinal);
    lemma_u64_round_trip(sequence);
    lemma_u64_round_trip(branch.0);
    lemma_u64_round_trip(file.0);
    lemma_put_one_blob(before.branch_file_events, file_key, u64_key(sequence));
    lemma_put_one_blob(before.file_events, pair_key(file.0, sequence), Seq::empty());
    lemma_listed_insert(before.branch_file_events, file_key, u64_key(sequence));
    lemma_triple_round_trip(branch.0, file.0, ordinal);
    assert(file_key.take(8) =~= u64_key(branch.0));
    assert(file_key.subrange(8, 16) =~= u64_key(file.0));
    assert forall|key: Seq<u8>| #[trigger]
        after.branch_file_events.contains_key(key) implies file_event_at(
        after,
        branch_in(key),
        file_in(key),
        key,
    ) is Some by {
        if key != file_key {
            lemma_file_position_stays(before, after, key);
        }
    }
}

/// A commit keeps the tables indexed.
pub proof fn lemma_commit_keeps_indexes(
    storage: StorageView,
    change: ChangeView,
    rows: BatchView,
    payload: PayloadExtents,
    manifest: Option<Seq<u8>>,
    prepared: PreparedView,
)
    requires
        indexed(storage),
        storage.prepare(change, rows, payload, manifest) == Ok::<PreparedView, FuseError>(prepared),
        contents_only(rows),
    ensures
        indexed(storage.after(prepared)),
{
    lemma_commit_rows(storage, change, rows, payload, manifest, prepared);
    let sequence = change.event.sequence.0;
    let record = placed_event(storage.active, change.event);
    let position = next_position(storage.active);
    let branch = position.branch_identifier;
    let before = storage.image;
    let after = storage.after(prepared).image;
    lemma_event_row(
        before,
        after,
        sequence,
        StoredEventView { record, mutation: change.mutation },
    );
    lemma_branch_row(before, after, u64_key(prepared.branch.identifier), prepared.branch);
    lemma_put_one_row(before.branches, u64_key(prepared.branch.identifier), prepared.branch);
    assert(after.branch_names == before.branch_names);
    lemma_names_stay(before, after, prepared.branch);
    lemma_position_row(before, after, branch, position.ordinal, sequence);
    match record.file_identifier {
        None => {
            lemma_file_positions_stay(before, after);
        },
        Some(file) => {
            lemma_file_position_row(before, after, branch, file, position.ordinal, sequence);
        },
    }
    lemma_agreement_grows(
        before,
        after,
        prepared.branch,
        position.ordinal,
        sequence,
        record.file_identifier,
    );
}

/// Listing an event past the head of a branch, under its file too where it is about one, keeps the
/// indexes in agreement.
proof fn lemma_agreement_grows(
    before: Image,
    after: Image,
    branch: BranchView,
    ordinal: u64,
    sequence: u64,
    file: Option<FileIdentifier>,
)
    requires
        indexes_agree(before),
        positions_filed(before),
        file_positions_filed(before),
        events_stay(before, after),
        branch_at(before, branch.identifier) is Some,
        branch_at(before, branch.identifier)->0.head_ordinal < ordinal,
        branch.head_ordinal == ordinal,
        after.branches == before.branches.insert(u64_key(branch.identifier), Some(branch)),
        present_event(after, sequence) is Some,
        present_event(after, sequence)->0.file_identifier == file,
        lies_at(present_event(after, sequence)->0, BranchIdentifier(branch.identifier), ordinal),
        after.branch_events == put_blobs(
            before.branch_events,
            seq![(pair_key(branch.identifier, ordinal), u64_key(sequence))],
        ),
        after.branch_file_events == put_blobs(
            before.branch_file_events,
            match file {
                Some(file) => seq![
                    (triple_key(branch.identifier, file.0, ordinal), u64_key(sequence)),
                ],
                None => Seq::empty(),
            },
        ),
    ensures
        indexes_agree(after),
{
    let number = branch.identifier;
    let new_key = pair_key(number, ordinal);
    lemma_u64_round_trip(sequence);
    lemma_u64_round_trip(number);
    lemma_ordinal_round_trip(number, ordinal);
    lemma_put_one_blob(before.branch_events, new_key, u64_key(sequence));
    assert(new_key.take(8) =~= u64_key(number));
    assert(branch_in(new_key) == BranchIdentifier(number));
    assert(ordinal_in(new_key) == ordinal);
    assert(!before.branch_events.contains_key(new_key));
    match file {
        Some(file) => {
            let file_key = triple_key(number, file.0, ordinal);
            lemma_put_one_blob(before.branch_file_events, file_key, u64_key(sequence));
            lemma_triple_round_trip(number, file.0, ordinal);
            assert(file_key.take(8) =~= u64_key(number));
        },
        None => {
            assert(after.branch_file_events == before.branch_file_events);
        },
    }
    assert forall|key: Seq<u8>| #[trigger] after.branch_events.contains_key(key) implies branch_at(
        after,
        branch_in(key).0,
    ) is Some && ordinal_in(key) <= branch_at(after, branch_in(key).0)->0.head_ordinal by {
        if key != new_key {
            assert(before.branch_events.contains_key(key));
            lemma_u64_key_injective(branch_in(key).0, number);
        }
    }
    assert forall|key: Seq<u8>| #[trigger] after.branch_file_events.contains_key(key) implies {
        let position = pair_key(branch_in(key).0, file_ordinal_in(key));
        &&& after.branch_events.contains_key(position)
        &&& after.branch_events[position] == after.branch_file_events[key]
    } by {
        if before.branch_file_events.contains_key(key) {
            let position = pair_key(branch_in(key).0, file_ordinal_in(key));
            assert(before.branch_events.contains_key(position));
            if file is Some && key == triple_key(number, (file->0).0, ordinal) {
                assert(position == new_key);
            }
        }
    }
    assert forall|key: Seq<u8>| #[trigger] after.branch_events.contains_key(key) implies match (
    branch_event_at(after, branch_in(key), key)) {
        Some(record) => record.file_identifier is Some ==> after.branch_file_events.contains_key(
            triple_key(branch_in(key).0, (record.file_identifier->0).0, ordinal_in(key)),
        ),
        None => true,
    } by {
        if key != new_key {
            assert(before.branch_events.contains_key(key));
            assert(branch_event_at(before, branch_in(key), key) is Some);
            let found = indexed_sequence(before.branch_events[key])->0;
            assert(present_event(before, found) is Some);
            assert(branch_event_at(after, branch_in(key), key) == branch_event_at(
                before,
                branch_in(key),
                key,
            ));
        }
    }
}

/// Indexes that stay still agree where the branches keep their heads.
proof fn lemma_agreement_stays(before: Image, after: Image)
    requires
        indexes_agree(before),
        after.events == before.events,
        after.branch_events == before.branch_events,
        after.branch_file_events == before.branch_file_events,
        forall|number: u64|
            (#[trigger] branch_at(before, number)) is Some ==> branch_at(after, number) is Some
                && branch_at(after, number)->0.head_ordinal == branch_at(
                before,
                number,
            )->0.head_ordinal,
    ensures
        indexes_agree(after),
{
    assert forall|key: Seq<u8>| #[trigger] after.branch_events.contains_key(key) implies branch_at(
        after,
        branch_in(key).0,
    ) is Some && ordinal_in(key) <= branch_at(after, branch_in(key).0)->0.head_ordinal by {
        assert(before.branch_events.contains_key(key));
    }
    assert forall|key: Seq<u8>| #[trigger] after.branch_file_events.contains_key(key) implies {
        let position = pair_key(branch_in(key).0, file_ordinal_in(key));
        &&& after.branch_events.contains_key(position)
        &&& after.branch_events[position] == after.branch_file_events[key]
    } by {
        assert(before.branch_file_events.contains_key(key));
    }
    assert forall|key: Seq<u8>| #[trigger] after.branch_events.contains_key(key) implies match (
    branch_event_at(after, branch_in(key), key)) {
        Some(record) => record.file_identifier is Some ==> after.branch_file_events.contains_key(
            triple_key(branch_in(key).0, (record.file_identifier->0).0, ordinal_in(key)),
        ),
        None => true,
    } by {
        assert(before.branch_events.contains_key(key));
        assert(branch_event_at(after, branch_in(key), key) == branch_event_at(
            before,
            branch_in(key),
            key,
        ));
    }
}

/// A row of the index of files on branches that leads to an event still does when events and rows are
/// added.
proof fn lemma_file_position_stays(before: Image, after: Image, key: Seq<u8>)
    requires
        file_positions_filed(before),
        before.branch_file_events.contains_key(key),
        after.branch_file_events[key] == before.branch_file_events[key],
        events_stay(before, after),
        forall|other: Seq<u8>| #[trigger]
            before.file_events.contains_key(other) && before.file_events[other].len() == 0
                ==> after.file_events.contains_key(other) && after.file_events[other].len() == 0,
    ensures
        file_event_at(after, branch_in(key), file_in(key), key) is Some,
{
    assert(file_event_at(before, branch_in(key), file_in(key), key) is Some);
    let found = indexed_sequence(before.branch_file_events[key])->0;
    assert(present_event(before, found) is Some);
    let record = branch_file_event_at(before, branch_in(key), file_in(key), key)->0;
    assert(before.file_events.contains_key(pair_key(file_in(key).0, record.sequence.0)));
}

proof fn lemma_file_positions_stay(before: Image, after: Image)
    requires
        file_positions_filed(before),
        after.branch_file_events == before.branch_file_events,
        after.file_events == before.file_events,
        events_stay(before, after),
    ensures
        file_positions_filed(after),
{
    assert forall|key: Seq<u8>| #[trigger]
        after.branch_file_events.contains_key(key) implies file_event_at(
        after,
        branch_in(key),
        file_in(key),
        key,
    ) is Some by {
        lemma_file_position_stays(before, after, key);
    }
}

/// Storing a branch with a name under its number keeps the branch table sound.
proof fn lemma_branch_row(
    before: Image,
    after: Image,
    key: Seq<u8>,
    branch: BranchView,
)
    requires
        branches_filed(before),
        key == u64_key(branch.identifier),
        branch.name.len() > 0,
        after.branches == put_rows(before.branches, seq![(key, branch)]),
    ensures
        branches_filed(after),
{
    lemma_put_one_row(before.branches, key, branch);
    lemma_listed_insert(before.branches, key, Some(branch));
    lemma_u64_round_trip(branch.identifier);
    assert forall|other: Seq<u8>| #[trigger] after.branches.contains_key(other) implies other.len()
        == 8 && named_branch(after, other) is Some by {
        if other != key {
            assert(before.branches.contains_key(other));
        }
    }
    assert forall|other: Seq<u8>| #[trigger]
        after.branches.contains_key(other) && after.branches[other] is Some implies
        after.branches[other]->0.identifier == u64_of(other) by {
        if other != key {
            assert(before.branches.contains_key(other));
        }
    }
}

proof fn lemma_name_keys_differ(name: Seq<char>, other: Seq<char>)
    requires
        name != other,
    ensures
        encode_utf8(name) != encode_utf8(other),
{
    encode_utf8_decode_utf8(name);
    encode_utf8_decode_utf8(other);
}

/// Storing a branch anew with its name and its status keeps the names.
proof fn lemma_names_stay(before: Image, after: Image, branch: BranchView)
    requires
        names_filed(before),
        after.branch_names == before.branch_names,
        after.branches == before.branches.insert(u64_key(branch.identifier), Some(branch)),
        branch_at(before, branch.identifier) is Some,
        branch_at(before, branch.identifier)->0.name == branch.name,
        branch_at(before, branch.identifier)->0.status == branch.status,
    ensures
        names_filed(after),
{
    assert forall|number: u64|
        (#[trigger] branch_at(after, number)) is Some && branch_at(after, number)->0.status
            == BranchStatus::Open implies number_of(after, branch_at(after, number)->0.name)
        == Some(number) by {
        if number != branch.identifier {
            lemma_u64_key_injective(number, branch.identifier);
        }
        assert(branch_at(before, number) is Some);
    }
    assert forall|name: Seq<char>| (#[trigger] number_of(after, name)) is Some implies open_branch(
        after,
        number_of(after, name)->0,
        name,
    ) by {
        let number = number_of(before, name)->0;
        assert(open_branch(before, number, name));
        if number != branch.identifier {
            lemma_u64_key_injective(number, branch.identifier);
        }
    }
}

/// A new branch with a new name is found under it.
proof fn lemma_name_added(before: Image, after: Image, branch: BranchView)
    requires
        names_filed(before),
        branch.status == BranchStatus::Open,
        branch_at(before, branch.identifier) is None,
        forall|number: u64|
            (#[trigger] branch_at(before, number)) is Some ==> branch_at(before, number)->0.name
                != branch.name,
        after.branches == before.branches.insert(u64_key(branch.identifier), Some(branch)),
        after.branch_names == before.branch_names.insert(
            encode_utf8(branch.name),
            u64_key(branch.identifier),
        ),
    ensures
        names_filed(after),
{
    lemma_u64_round_trip(branch.identifier);
    assert(number_of(after, branch.name) == Some(branch.identifier));
    assert forall|number: u64|
        (#[trigger] branch_at(after, number)) is Some && branch_at(after, number)->0.status
            == BranchStatus::Open implies number_of(after, branch_at(after, number)->0.name)
        == Some(number) by {
        if number != branch.identifier {
            lemma_u64_key_injective(number, branch.identifier);
            assert(branch_at(before, number) == branch_at(after, number));
            lemma_name_keys_differ(branch_at(before, number)->0.name, branch.name);
        }
    }
    assert forall|name: Seq<char>| (#[trigger] number_of(after, name)) is Some implies open_branch(
        after,
        number_of(after, name)->0,
        name,
    ) by {
        if name != branch.name {
            lemma_name_keys_differ(name, branch.name);
            let number = number_of(before, name)->0;
            assert(number_of(after, name) == number_of(before, name));
            assert(open_branch(before, number, name));
            if number != branch.identifier {
                lemma_u64_key_injective(number, branch.identifier);
            }
        }
    }
}

/// A branch that is marked as deleted and taken out of the names is not found any more.
proof fn lemma_name_removed(before: Image, after: Image, branch: BranchView)
    requires
        names_filed(before),
        branch.status != BranchStatus::Open,
        open_branch(before, branch.identifier, branch.name),
        after.branches == before.branches.insert(u64_key(branch.identifier), Some(branch)),
        after.branch_names == before.branch_names.remove(encode_utf8(branch.name)),
    ensures
        names_filed(after),
{
    assert forall|number: u64|
        (#[trigger] branch_at(after, number)) is Some && branch_at(after, number)->0.status
            == BranchStatus::Open implies number_of(after, branch_at(after, number)->0.name)
        == Some(number) by {
        if number != branch.identifier {
            lemma_u64_key_injective(number, branch.identifier);
            assert(branch_at(before, number) == branch_at(after, number));
            let name = branch_at(before, number)->0.name;
            assert(number_of(before, name) == Some(number));
            assert(number_of(before, branch.name) == Some(branch.identifier));
            lemma_name_keys_differ(name, branch.name);
        }
    }
    assert forall|name: Seq<char>| (#[trigger] number_of(after, name)) is Some implies open_branch(
        after,
        number_of(after, name)->0,
        name,
    ) by {
        let number = number_of(before, name)->0;
        assert(number_of(after, name) == number_of(before, name));
        assert(open_branch(before, number, name));
        if number != branch.identifier {
            lemma_u64_key_injective(number, branch.identifier);
        }
    }
}

/// Tables with the same events and indexes are indexed alike.
proof fn lemma_same_indexes(before: Image, after: Image)
    requires
        events_filed(before),
        positions_filed(before),
        file_positions_filed(before),
        after.events == before.events,
        after.file_events == before.file_events,
        after.branch_events == before.branch_events,
        after.branch_file_events == before.branch_file_events,
    ensures
        events_filed(after),
        positions_filed(after),
        file_positions_filed(after),
{
    lemma_file_positions_stay(before, after);
    assert forall|key: Seq<u8>| #[trigger] after.events.contains_key(key) implies record_at_key(
        after,
        key,
    ) is Some by {
        assert(before.events.contains_key(key));
    }
    assert forall|key: Seq<u8>| #[trigger]
        after.branch_events.contains_key(key) implies branch_event_at(
        after,
        branch_in(key),
        key,
    ) is Some by {
        assert(before.branch_events.contains_key(key));
        assert(branch_event_at(before, branch_in(key), key) is Some);
    }
}

/// Creating a branch keeps the tables indexed.
pub proof fn lemma_branch_creation_keeps_indexes(
    storage: StorageView,
    name: Seq<char>,
    from: BranchPosition,
    creation: BranchCreation,
)
    requires
        indexed(storage),
        name.len() > 0,
        storage.branch_creation(name, from) == Some(creation),
    ensures
        indexed(storage.after_creation(creation)),
{
    let before = storage.image;
    let after = storage.after_creation(creation).image;
    let number = creation.branch.identifier;
    lemma_same_indexes(before, after);
    lemma_put_one_row(before.branches, u64_key(number), creation.branch);
    lemma_put_one_blob(before.branch_names, encode_utf8(name), u64_key(number));
    assert(after.branch_names == before.branch_names.insert(encode_utf8(name), u64_key(number)));
    assert forall|other: u64| (#[trigger] branch_at(before, other)) is Some implies branch_at(
        before,
        other,
    )->0.name != name by {
        if branch_at(before, other)->0.name == name {
            lemma_name_is_not_reused(storage, other, name, from, listed_keys(before.branches));
        }
    }
    lemma_name_added(before, after, creation.branch);
    lemma_u64_key_injective(storage.active.branch.identifier, number);
    assert forall|other: u64| (#[trigger] branch_at(before, other)) is Some implies branch_at(
        after,
        other,
    ) == branch_at(before, other) by {
        lemma_u64_key_injective(other, number);
    }
    lemma_agreement_stays(before, after);
    lemma_branch_row(
        storage.image,
        after,
        u64_key(creation.branch.identifier),
        creation.branch,
    );
}

/// Making another branch active keeps the tables indexed.
pub proof fn lemma_branch_switch_keeps_indexes(
    storage: StorageView,
    name: Seq<char>,
    number: u64,
    active: ActiveView,
)
    requires
        indexed(storage),
        storage.branch_switch(name) == Some((number, active)),
    ensures
        indexed(storage.after_switch(StorageView::switch_rows(number), number, active)),
{
    let before = storage.image;
    let after = storage.after_switch(StorageView::switch_rows(number), number, active).image;
    lemma_same_indexes(before, after);
    assert(after.branches == before.branches);
    assert(after.branch_names == before.branch_names);
    assert(before.branches.contains_key(u64_key(number)));
    lemma_u64_round_trip(number);
    assert forall|other: u64| (#[trigger] branch_at(before, other)) is Some implies branch_at(
        after,
        other,
    ) == branch_at(before, other) by {
    }
    lemma_agreement_stays(before, after);
    assert forall|other: u64|
        (#[trigger] branch_at(after, other)) is Some && branch_at(after, other)->0.status
            == BranchStatus::Open implies number_of(after, branch_at(after, other)->0.name) == Some(
        other,
    ) by {
        assert(branch_at(before, other) == branch_at(after, other));
    }
    assert forall|other: Seq<char>|
        (#[trigger] number_of(after, other)) is Some implies open_branch(
        after,
        number_of(after, other)->0,
        other,
    ) by {
        assert(number_of(before, other) == number_of(after, other));
    }
    assert forall|key: Seq<u8>| #[trigger] after.branches.contains_key(key) implies named_branch(
        after,
        key,
    ) is Some by {
        assert(storage.image.branches.contains_key(key));
    }
}

/// Deleting a branch keeps the tables indexed.
pub proof fn lemma_branch_deletion_keeps_indexes(
    storage: StorageView,
    name: Seq<char>,
    batch: BatchView,
)
    requires
        indexed(storage),
        storage.branch_deletion(name) == Some(batch),
    ensures
        indexed(storage.after_deletion(batch)),
{
    let after = storage.after_deletion(batch).image;
    let (key, branch) = batch.branches[0];
    assert(storage.image.branches.contains_key(key));
    assert(named_branch(storage.image, key) is Some);
    lemma_same_indexes(storage.image, after);
    assert(batch.branches =~= seq![(key, branch)]);
    lemma_branch_row(storage.image, after, key, branch);
    let name_key = encode_utf8(name);
    assert(seq![name_key].drop_last() =~= Seq::<Seq<u8>>::empty());
    assert(remove_keys_of(storage.image.branch_names, seq![name_key].drop_last())
        == storage.image.branch_names);
    assert(put_blobs(storage.image.branch_names, batch.branch_names)
        == storage.image.branch_names);
    assert(after.branch_names == storage.image.branch_names.remove(name_key));
    lemma_put_one_row(storage.image.branches, key, branch);
    lemma_name_removed(storage.image, after, branch);
    lemma_u64_key_injective(storage.active.branch.identifier, branch.identifier);
    assert forall|other: u64|
        (#[trigger] branch_at(storage.image, other)) is Some implies branch_at(after, other) is Some
        && branch_at(after, other)->0.head_ordinal == branch_at(
        storage.image,
        other,
    )->0.head_ordinal by {
        lemma_u64_key_injective(other, branch.identifier);
    }
    lemma_agreement_stays(storage.image, after);
}

/// A deletion succeeds just for an open branch that is neither the first nor the active one.
pub proof fn lemma_deletion_succeeds(storage: StorageView, name: Seq<char>)
    requires
        indexed(storage),
    ensures
        storage.branch_deletion(name) is Some <==> exists|number: u64| #[trigger]
            open_branch(storage.image, number, name) && number != BRANCH_IDENTIFIER_INITIAL
                && number != storage.write.active_branch_identifier,
{
    let image = storage.image;
    if exists|number: u64| #[trigger]
        open_branch(image, number, name) && number != BRANCH_IDENTIFIER_INITIAL && number
            != storage.write.active_branch_identifier {
        let number = choose|number: u64| #[trigger]
            open_branch(image, number, name) && number != BRANCH_IDENTIFIER_INITIAL && number
                != storage.write.active_branch_identifier;
        assert(branch_at(image, number) is Some);
        assert(image.branches.contains_key(u64_key(number)));
        lemma_u64_round_trip(number);
    }
    if storage.branch_deletion(name) is Some {
        assert(open_branch(image, number_of(image, name)->0, name));
    }
}

/// A switch succeeds just for an open branch, and makes that branch active.
pub proof fn lemma_switch_succeeds(storage: StorageView, name: Seq<char>)
    requires
        indexed(storage),
        persisted(storage),
    ensures
        storage.branch_switch(name) is Some <==> exists|number: u64| #[trigger]
            open_branch(storage.image, number, name),
        storage.branch_switch(name) is Some ==> open_branch(
            storage.image,
            (storage.branch_switch(name)->0).0,
            name,
        ),
{
    let image = storage.image;
    if exists|number: u64| #[trigger] open_branch(image, number, name) {
        let number = choose|number: u64| #[trigger] open_branch(image, number, name);
        let branch = branch_at(image, number)->0;
        assert(image.branches.contains_key(u64_key(number)));
        assert(named_branch(image, u64_key(number)) is Some);
        lemma_kept_is_stored(
            image.nodes,
            branch.namespace_identifier,
            storage.write.next_inode_number,
        );
    }
    if storage.branch_switch(name) is Some {
        assert(open_branch(image, number_of(image, name)->0, name));
    }
}

/// A new filesystem is indexed.
pub proof fn lemma_new_filesystem_is_indexed(
    storage: StorageView,
    plan: TriePlan,
    root: InodeView,
    created_at: time::UtcDateTime,
)
    requires
        storage.image == Image::nothing().after(initial_rows(plan, root, created_at)),
        storage.active.branch == initial_branch(plan.identifier),
        storage.write.active_branch_identifier == BRANCH_IDENTIFIER_INITIAL,
    ensures
        indexed(storage),
{
    let none = Image::nothing();
    let image = storage.image;
    let branch = initial_branch(plan.identifier);
    let event_key = u64_key(0);
    let branch_key = u64_key(branch.identifier);
    let position_key = pair_key(branch.identifier, 0);
    reveal_strlit("main");
    assert(lists_keys(Seq::<Seq<u8>>::empty(), none.events));
    assert(lists_keys(Seq::<Seq<u8>>::empty(), none.branches));
    assert(lists_keys(Seq::<Seq<u8>>::empty(), none.branch_events));
    assert(lists_keys(Seq::<Seq<u8>>::empty(), none.branch_file_events));
    lemma_listed_keys(Seq::<Seq<u8>>::empty(), none.events);
    lemma_listed_keys(Seq::<Seq<u8>>::empty(), none.branches);
    lemma_listed_keys(Seq::<Seq<u8>>::empty(), none.branch_events);
    lemma_listed_keys(Seq::<Seq<u8>>::empty(), none.branch_file_events);
    lemma_u64_round_trip(0);
    lemma_u64_round_trip(branch.identifier);
    lemma_put_one_row(none.events, event_key, initial_event(root, created_at));
    lemma_listed_insert(none.events, event_key, Some(initial_event(root, created_at)));
    lemma_branch_row(none, image, branch_key, branch);
    lemma_put_one_row(none.branches, branch_key, branch);
    lemma_put_one_blob(none.branch_names, encode_utf8(branch.name), branch_key);
    assert(image.branch_names == none.branch_names.insert(encode_utf8(branch.name), branch_key));
    lemma_name_added(none, image, branch);
    lemma_put_one_blob(none.branch_events, position_key, event_key);
    lemma_listed_insert(none.branch_events, position_key, event_key);
    lemma_ordinal_round_trip(branch.identifier, 0);
    assert(position_key.take(8) =~= u64_key(branch.identifier));
    assert(present_event(image, 0) == Some(initial_event(root, created_at).record));
}

} // verus!
