//! The whole record: a walk over all events hands out one for every sequence from the first to the last,
//! and the walks over the events of a branch and of a file on it agree.

use vstd::prelude::*;

use crate::bytes::bytes_before;
use crate::counters::counted;
use crate::database::Image;
use crate::error::FilesystemError;
use crate::filesystem::{
    BranchIdentifier, BranchPosition, EventRecord, EventRecordView, EventSequence, FileIdentifier,
};
use crate::history::{
    branch_events_after, branch_file_events_after, events_after, keys_from, page_of, record_at_key,
    run_of,
};
use crate::indexes::{indexed, lemma_indexed_listings_succeed};
use crate::interface::{branch_event_walk_page, event_walk_page, position_cursor, sequence_cursor};
use crate::keys::{
    lemma_u64_key_injective, lemma_u64_key_of, lemma_u64_key_order, lemma_u64_round_trip, pair_key,
    u64_key, u64_of,
};
use crate::matching::{about, lemma_file_listings_agree};
use crate::operations::consistent;
use crate::pages::{branch_file_event_items, event_items, lemma_event_items};
use crate::paging::PagedRecords;
use crate::storage::StorageView;
use crate::table::listed_keys;
use crate::walks::{
    hands_out, lemma_branch_event_walk_is_complete, lemma_branch_file_event_walk_is_complete,
    lemma_event_walk_is_complete, lemma_file_event_walk_is_complete, walked,
};

verus! {

/// The records of all events, in order.
pub open spec fn all_events(image: Image) -> Seq<EventRecordView> {
    Seq::new(
        listed_keys(image.events).len(),
        |i: int| record_at_key(image, listed_keys(image.events)[i])->0,
    )
}

/// The events up to one index are those with the sequences up to it.
proof fn lemma_event_key_at(storage: StorageView, i: int)
    requires
        indexed(storage),
        counted(storage),
        0 <= i < listed_keys(storage.image.events).len(),
    ensures
        i <= storage.write.last_event_sequence,
        listed_keys(storage.image.events)[i] == u64_key(i as u64),
    decreases i,
{
    let events = storage.image.events;
    let keys = listed_keys(events);
    let key = keys[i];
    assert(events.contains_key(key));
    assert(record_at_key(storage.image, key) is Some);
    lemma_u64_key_of(key);
    let number = u64_of(key);
    assert(number >= i) by {
        if number < i {
            lemma_event_key_at(storage, number as int);
            assert(bytes_before(keys[number as int], keys[i]));
            crate::bytes::lemma_bytes_before_irreflexive(key);
        }
    }
    if number > i {
        let missing = u64_key(i as u64);
        assert(events.contains_key(missing));
        assert(keys.contains(missing));
        let at = choose|k: int| 0 <= k < keys.len() && keys[k] == missing;
        lemma_u64_key_order(i as u64, number);
        lemma_u64_round_trip(i as u64);
        if at < i {
            lemma_event_key_at(storage, at);
            lemma_u64_key_injective(at as u64, i as u64);
        } else if i < at {
            assert(bytes_before(keys[i], keys[at]));
            crate::bytes::lemma_bytes_before_asymmetric(keys[i], keys[at]);
        }
    }
}

/// There is one event for every sequence from the first to the last.
pub proof fn lemma_events_are_numbered(storage: StorageView)
    requires
        indexed(storage),
        counted(storage),
    ensures
        ({
            let all = all_events(storage.image);
            &&& all.len() == storage.write.last_event_sequence + 1
            &&& forall|i: int| 0 <= i < all.len() ==> (#[trigger] all[i]).sequence.0 == i
        }),
{
    let image = storage.image;
    let keys = listed_keys(image.events);
    let all = all_events(image);
    let last = storage.write.last_event_sequence;
    assert forall|i: int| 0 <= i < all.len() implies (#[trigger] all[i]).sequence.0 == i by {
        lemma_event_key_at(storage, i);
        lemma_u64_round_trip(i as u64);
        assert(image.events.contains_key(keys[i]));
        assert(record_at_key(image, keys[i]) is Some);
    }
    assert(image.events.contains_key(u64_key(last)));
    assert(keys.contains(u64_key(last)));
    let at = choose|k: int| 0 <= k < keys.len() && keys[k] == u64_key(last);
    lemma_event_key_at(storage, at);
    lemma_u64_key_injective(at as u64, last);
    lemma_event_key_at(storage, keys.len() - 1);
}

/// Listing from the start, with room for all, lists all events.
proof fn lemma_all_events_listed(storage: StorageView)
    requires
        indexed(storage),
        counted(storage),
    ensures
        events_after(storage.image, None, all_events(storage.image).len()) == Some(
            (all_events(storage.image), false),
        ),
{
    let image = storage.image;
    let keys = listed_keys(image.events);
    let items = event_items(image, None);
    lemma_event_items(image, None, all_events(image).len());
    lemma_events_are_numbered(storage);
    lemma_event_key_at(storage, 0);
    crate::bytes::lemma_bytes_before_irreflexive(keys[0]);
    assert(keys_from(keys, u64_key(0)) == keys);
    assert forall|i: int| 0 <= i < items.len() implies (#[trigger] items[i]) is Some by {
        assert(image.events.contains_key(keys[i]));
    }
    assert((page_of(items, all_events(image).len())->0).0 =~= all_events(image));
}

/// A walk over all events hands out one event for every sequence from the first to the last, once and in
/// order, however many it loads at a time, and then ends.
pub proof fn lemma_all_events_are_walked(
    storage: StorageView,
    limit: nat,
    states: Seq<PagedRecords<EventSequence, EventRecord>>,
    handed: Seq<Option<Result<EventRecord, FilesystemError>>>,
)
    requires
        consistent(storage),
        limit > 0,
        walked(
            |after: Option<EventSequence>|
                sequence_cursor(event_walk_page(storage, None, after, limit)),
            states,
            handed,
        ),
    ensures
        hands_out(handed, all_events(storage.image)),
        all_events(storage.image).len() == storage.write.last_event_sequence + 1,
        forall|i: int|
            0 <= i < handed.len() ==> match #[trigger] handed[i] {
                Some(Ok(record)) => i <= storage.write.last_event_sequence && record@.sequence.0
                    == i,
                Some(Err(_)) => false,
                None => i > storage.write.last_event_sequence,
            },
{
    reveal(consistent);
    let all = all_events(storage.image);
    lemma_events_are_numbered(storage);
    lemma_all_events_listed(storage);
    lemma_indexed_listings_succeed(
        storage,
        None,
        None,
        BranchIdentifier(0),
        None,
        FileIdentifier(0),
        0,
    );
    lemma_event_walk_is_complete(
        storage,
        listed_keys(storage.image.events),
        limit,
        states,
        handed,
        all.len(),
        all,
    );
    assert forall|i: int| 0 <= i < handed.len() implies match #[trigger] handed[i] {
        Some(Ok(record)) => i <= storage.write.last_event_sequence && record@.sequence.0 == i,
        Some(Err(_)) => false,
        None => i > storage.write.last_event_sequence,
    } by {
        if i < all.len() {
            assert(all[i].sequence.0 == i);
        }
    }
}

proof fn lemma_run_within(keys: Seq<Seq<u8>>, start: Seq<u8>, prefix: Seq<u8>)
    ensures
        run_of(keys, prefix).len() <= keys.len(),
        keys_from(keys, start).len() <= keys.len(),
    decreases keys.len(),
{
    if keys.len() > 0 {
        lemma_run_within(keys.skip(1), start, prefix);
    }
}

/// The records of all events of a branch, in order.
pub open spec fn branch_record(image: Image, branch: BranchIdentifier) -> Seq<EventRecordView> {
    (branch_events_after(image, branch, None, listed_keys(image.branch_events).len())->0).0
}

/// Listing the events of a branch with room for all lists all of them.
proof fn lemma_branch_record_listed(storage: StorageView, branch: BranchIdentifier)
    requires
        indexed(storage),
    ensures
        branch_events_after(
            storage.image,
            branch,
            None,
            listed_keys(storage.image.branch_events).len(),
        ) == Some((branch_record(storage.image, branch), false)),
{
    let keys = listed_keys(storage.image.branch_events);
    lemma_indexed_listings_succeed(
        storage,
        None,
        None,
        branch,
        None,
        FileIdentifier(0),
        keys.len(),
    );
    let start = pair_key(branch.0, 0);
    lemma_run_within(keys, start, u64_key(branch.0));
    lemma_run_within(keys_from(keys, start), start, u64_key(branch.0));
}

/// The walks over the events of a branch agree: one over all of its events hands out all of them, and one
/// over the events of a file on the branch, just those of them that are about the file.
pub proof fn lemma_branch_walks_agree(
    storage: StorageView,
    branch: BranchIdentifier,
    file: FileIdentifier,
    limit: nat,
    states: Seq<PagedRecords<BranchPosition, EventRecord>>,
    handed: Seq<Option<Result<EventRecord, FilesystemError>>>,
    file_limit: nat,
    file_states: Seq<PagedRecords<BranchPosition, EventRecord>>,
    file_handed: Seq<Option<Result<EventRecord, FilesystemError>>>,
)
    requires
        consistent(storage),
        limit > 0,
        walked(
            |after: Option<BranchPosition>|
                position_cursor(branch_event_walk_page(storage, branch, None, after, limit)),
            states,
            handed,
        ),
        file_limit > 0,
        walked(
            |after: Option<BranchPosition>|
                position_cursor(
                    branch_event_walk_page(storage, branch, Some(file), after, file_limit),
                ),
            file_states,
            file_handed,
        ),
    ensures
        hands_out(handed, branch_record(storage.image, branch)),
        hands_out(file_handed, branch_record(storage.image, branch).filter(about(file))),
{
    reveal(consistent);
    let image = storage.image;
    let all = branch_record(image, branch);
    let most = listed_keys(image.branch_events).len();
    lemma_branch_record_listed(storage, branch);
    lemma_file_listings_agree(storage, branch, file, most, all);
    lemma_branch_event_walk_is_complete(
        storage,
        listed_keys(image.branch_events),
        branch,
        limit,
        states,
        handed,
        most,
        all,
    );
    lemma_branch_file_event_walk_is_complete(
        storage,
        listed_keys(image.branch_file_events),
        branch,
        file,
        file_limit,
        file_states,
        file_handed,
        most,
        all.filter(about(file)),
    );
}

/// An event that is listed has a sequence that was given.
proof fn lemma_listed_is_given(
    storage: StorageView,
    branch: BranchIdentifier,
    file: FileIdentifier,
    most: nat,
    own: Seq<EventRecordView>,
    i: int,
)
    requires
        counted(storage),
        branch_file_events_after(storage.image, branch, file, None, most) == Some((own, false)),
        0 <= i < own.len(),
    ensures
        own[i].sequence.0 <= storage.write.last_event_sequence,
{
    let image = storage.image;
    let items = branch_file_event_items(image, branch, file, None);
    assert(items[i] is Some);
    assert(own[i] == items[i]->0);
    lemma_u64_round_trip(own[i].sequence.0);
    assert(image.events.contains_key(u64_key(own[i].sequence.0)));
}

/// A walk over the events of a file hands out just those events of the active branch that are about the
/// file, where the last sequence there is has not been given.
pub proof fn lemma_file_walk_agrees(
    storage: StorageView,
    file: FileIdentifier,
    limit: nat,
    states: Seq<PagedRecords<EventSequence, EventRecord>>,
    handed: Seq<Option<Result<EventRecord, FilesystemError>>>,
)
    requires
        consistent(storage),
        storage.write.last_event_sequence < u64::MAX,
        limit > 0,
        walked(
            |after: Option<EventSequence>|
                sequence_cursor(event_walk_page(storage, Some(file), after, limit)),
            states,
            handed,
        ),
    ensures
        hands_out(
            handed,
            branch_record(
                storage.image,
                BranchIdentifier(storage.write.active_branch_identifier),
            ).filter(about(file)),
        ),
{
    reveal(consistent);
    let image = storage.image;
    let branch = BranchIdentifier(storage.write.active_branch_identifier);
    let all = branch_record(image, branch);
    let most = listed_keys(image.branch_events).len();
    lemma_branch_record_listed(storage, branch);
    lemma_file_listings_agree(storage, branch, file, most, all);
    let own = all.filter(about(file));
    assert forall|i: int| 0 <= i < own.len() implies (#[trigger] own[i]).sequence.0 < u64::MAX by {
        lemma_listed_is_given(storage, branch, file, most, own, i);
    }
    lemma_file_event_walk_is_complete(
        storage,
        listed_keys(image.branch_file_events),
        file,
        limit,
        states,
        handed,
        most,
        own,
    );
}

} // verus!
