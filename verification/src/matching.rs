//! Three ways to list the events of a file on a branch, one list: by the branch and the file, by the
//! file, and out of all events of the branch.

use vstd::prelude::*;

use crate::bytes::{
    bytes_before, has_prefix, lemma_bytes_before_asymmetric, lemma_bytes_before_irreflexive,
    lemma_bytes_before_transitive,
};
use crate::database::Image;
use crate::filesystem::{BranchIdentifier, EventRecordView, FileIdentifier};
use crate::history::{
    branch_event_at, branch_events_after, branch_file_event_at, branch_file_events_after,
    file_event_at, file_events_after, keys_from, page_of, run_of,
};
use crate::indexes::{
    branch_in, file_in, file_ordinal_in, file_positions_filed, file_rows_listed, indexed,
    indexes_agree, ordinal_in, positions_filed,
};
use crate::keys::{
    lemma_ordinal_round_trip, lemma_pair_key_order, lemma_triple_key_order, lemma_triple_round_trip,
    lemma_u64_round_trip, pair_key, triple_key, u64_key,
};
use crate::pages::{
    branch_event_items, branch_file_event_items, file_event_items, lemma_pair_of,
    lemma_start_index, lemma_triple_of, lemma_walk_is_page,
};
use crate::snapshots::lemma_between;
use crate::states::listed;
use crate::storage::StorageView;
use crate::table::{listed_keys, sorted_keys};

verus! {

/// A run is the front of the keys that start with the prefix.
proof fn lemma_run_is_front(keys: Seq<Seq<u8>>, prefix: Seq<u8>)
    ensures
        ({
            let run = run_of(keys, prefix);
            &&& run.len() <= keys.len()
            &&& run == keys.take(run.len() as int)
            &&& forall|i: int| 0 <= i < run.len() ==> has_prefix(#[trigger] run[i], prefix)
            &&& run.len() < keys.len() ==> !has_prefix(keys[run.len() as int], prefix)
        }),
    decreases keys.len(),
{
    if keys.len() > 0 && has_prefix(keys[0], prefix) {
        let rest = keys.skip(1);
        lemma_run_is_front(rest, prefix);
        let tail = run_of(rest, prefix);
        let run = run_of(keys, prefix);
        assert(run =~= keys.take(run.len() as int));
        assert forall|i: int| 0 <= i < run.len() implies has_prefix(#[trigger] run[i], prefix) by {
            if i > 0 {
                assert(run[i] == tail[i - 1]);
            }
        }
    } else {
        assert(keys.take(0) =~= Seq::<Seq<u8>>::empty());
    }
}

/// The keys of a table with a prefix, from a start with it.
pub open spec fn run_from<V>(map: Map<Seq<u8>, V>, start: Seq<u8>, prefix: Seq<u8>) -> Seq<Seq<u8>> {
    run_of(keys_from(listed_keys(map), start), prefix)
}

/// A run is in key order, its keys are keys of the table with the prefix, and every such key that does
/// not come before the start is in it.
proof fn lemma_run_from<V>(map: Map<Seq<u8>, V>, start: Seq<u8>, prefix: Seq<u8>)
    requires
        listed(map),
        has_prefix(start, prefix),
    ensures
        ({
            let run = run_from(map, start, prefix);
            &&& sorted_keys(run)
            &&& forall|i: int|
                0 <= i < run.len() ==> has_prefix(#[trigger] run[i], prefix) && map.contains_key(
                    run[i],
                )
            &&& forall|key: Seq<u8>| #[trigger]
                map.contains_key(key) && has_prefix(key, prefix) && !bytes_before(key, start)
                    ==> run.contains(key)
        }),
{
    let keys = listed_keys(map);
    let index = lemma_start_index(keys, start);
    let rest = keys.skip(index);
    let run = run_from(map, start, prefix);
    lemma_run_is_front(rest, prefix);
    assert forall|i: int, j: int| 0 <= i < j < run.len() implies bytes_before(
        #[trigger] run[i],
        #[trigger] run[j],
    ) by {
        assert(run[i] == keys[index + i] && run[j] == keys[index + j]);
    }
    assert forall|i: int| 0 <= i < run.len() implies has_prefix(#[trigger] run[i], prefix)
        && map.contains_key(run[i]) by {
        assert(run[i] == keys[index + i]);
    }
    assert forall|key: Seq<u8>| #[trigger]
        map.contains_key(key) && has_prefix(key, prefix) && !bytes_before(key, start) implies
        run.contains(key) by {
        let at = choose|i: int| 0 <= i < keys.len() && keys[i] == key;
        assert(at >= index) by {
            if at < index {
                assert(bytes_before(keys[at], start));
            }
        }
        if at - index < run.len() {
            assert(run[at - index] == key);
        } else {
            let end = index + run.len();
            let past = keys[end];
            assert(past == rest[run.len() as int]);
            assert(!bytes_before(past, start)) by {
                if bytes_before(past, start) && end > index {
                    assert(bytes_before(keys[index], keys[end]));
                    lemma_bytes_before_transitive(keys[index], past, start);
                }
            }
            if end < at {
                assert(bytes_before(keys[end], keys[at]));
                lemma_bytes_before_asymmetric(keys[end], keys[at]);
            } else {
                lemma_bytes_before_irreflexive(key);
            }
            lemma_between(prefix, start, past, key);
        }
    }
}

/// The keys of the events of a branch.
spec fn branch_run(image: Image, branch: BranchIdentifier) -> Seq<Seq<u8>> {
    run_from(image.branch_events, pair_key(branch.0, 0), u64_key(branch.0))
}

/// The keys of the events of a file on a branch.
spec fn file_run(image: Image, branch: BranchIdentifier, file: FileIdentifier) -> Seq<Seq<u8>> {
    run_from(
        image.branch_file_events,
        triple_key(branch.0, file.0, 0),
        pair_key(branch.0, file.0),
    )
}

/// Numbers that grow from one to the next.
pub open spec fn growing(numbers: Seq<u64>) -> bool {
    forall|i: int, j: int|
        0 <= i < j < numbers.len() ==> (#[trigger] numbers[i]) < (#[trigger] numbers[j])
}

/// What the index of files on branches has under a key is what the branch index has at its position.
proof fn lemma_file_row(image: Image, branch: BranchIdentifier, file: FileIdentifier, key: Seq<u8>)
    requires
        file_positions_filed(image),
        file_rows_listed(image),
        image.branch_file_events.contains_key(key),
        has_prefix(key, pair_key(branch.0, file.0)),
    ensures
        key == triple_key(branch.0, file.0, file_ordinal_in(key)),
        file_event_at(image, branch, file, key) is Some,
        file_event_at(image, branch, file, key) == branch_file_event_at(image, branch, file, key),
        file_event_at(image, branch, file, key)->0.file_identifier == Some(file),
        image.branch_events.contains_key(pair_key(branch.0, file_ordinal_in(key))),
        branch_event_at(image, branch, pair_key(branch.0, file_ordinal_in(key))) == file_event_at(
            image,
            branch,
            file,
            key,
        ),
{
    lemma_triple_of(branch.0, file.0, key);
    let ordinal = file_ordinal_in(key);
    lemma_triple_round_trip(branch.0, file.0, ordinal);
    assert(branch_in(key) == branch);
    assert(file_in(key) == file);
    lemma_ordinal_round_trip(branch.0, ordinal);
    assert(file_event_at(image, branch_in(key), file_in(key), key) is Some);
}

/// The ordinals of the keys of the events of a branch.
spec fn branch_ordinals(image: Image, branch: BranchIdentifier) -> Seq<u64> {
    let run = branch_run(image, branch);
    Seq::new(run.len(), |i: int| ordinal_in(run[i]))
}

/// The ordinals of the keys of the events of a file on a branch.
spec fn file_ordinals(image: Image, branch: BranchIdentifier, file: FileIdentifier) -> Seq<u64> {
    let run = file_run(image, branch, file);
    Seq::new(run.len(), |i: int| file_ordinal_in(run[i]))
}

proof fn lemma_branch_ordinals(image: Image, branch: BranchIdentifier)
    requires
        positions_filed(image),
    ensures
        growing(branch_ordinals(image, branch)),
        forall|i: int|
            0 <= i < branch_run(image, branch).len() ==> {
                let key = #[trigger] branch_run(image, branch)[i];
                &&& key == pair_key(branch.0, branch_ordinals(image, branch)[i])
                &&& branch_in(key) == branch
                &&& image.branch_events.contains_key(key)
                &&& branch_event_at(image, branch, key) is Some
            },
{
    let start = pair_key(branch.0, 0);
    let prefix = u64_key(branch.0);
    let run = branch_run(image, branch);
    let ordinals = branch_ordinals(image, branch);
    assert(start.take(8) =~= prefix);
    lemma_run_from(image.branch_events, start, prefix);
    lemma_u64_round_trip(branch.0);
    assert forall|i: int| 0 <= i < run.len() implies {
        let key = #[trigger] run[i];
        &&& key == pair_key(branch.0, ordinals[i])
        &&& branch_in(key) == branch
        &&& image.branch_events.contains_key(key)
        &&& branch_event_at(image, branch, key) is Some
    } by {
        let key = run[i];
        assert(image.branch_events.contains_key(key));
        lemma_pair_of(branch.0, key);
        assert(branch_event_at(image, branch_in(key), key) is Some);
    }
    assert forall|i: int, j: int| 0 <= i < j < ordinals.len() implies (#[trigger] ordinals[i]) < (
    #[trigger] ordinals[j]) by {
        assert(bytes_before(run[i], run[j]));
        lemma_pair_key_order(branch.0, ordinals[i], branch.0, ordinals[j]);
    }
}

proof fn lemma_branch_ordinal_found(image: Image, branch: BranchIdentifier, ordinal: u64)
    requires
        positions_filed(image),
        image.branch_events.contains_key(pair_key(branch.0, ordinal)),
    ensures
        branch_ordinals(image, branch).contains(ordinal),
{
    let start = pair_key(branch.0, 0);
    let prefix = u64_key(branch.0);
    let key = pair_key(branch.0, ordinal);
    let run = branch_run(image, branch);
    assert(start.take(8) =~= prefix);
    assert(key.take(8) =~= prefix);
    lemma_run_from(image.branch_events, start, prefix);
    lemma_pair_key_order(branch.0, ordinal, branch.0, 0);
    let i = choose|i: int| 0 <= i < run.len() && run[i] == key;
    lemma_ordinal_round_trip(branch.0, ordinal);
    assert(branch_ordinals(image, branch)[i] == ordinal);
}

proof fn lemma_file_ordinals(image: Image, branch: BranchIdentifier, file: FileIdentifier)
    requires
        file_positions_filed(image),
        file_rows_listed(image),
    ensures
        growing(file_ordinals(image, branch, file)),
        forall|i: int|
            0 <= i < file_run(image, branch, file).len() ==> {
                let key = #[trigger] file_run(image, branch, file)[i];
                &&& image.branch_file_events.contains_key(key)
                &&& has_prefix(key, pair_key(branch.0, file.0))
            },
{
    let start = triple_key(branch.0, file.0, 0);
    let prefix = pair_key(branch.0, file.0);
    let run = file_run(image, branch, file);
    let ordinals = file_ordinals(image, branch, file);
    assert(start.take(16) =~= prefix);
    lemma_run_from(image.branch_file_events, start, prefix);
    assert forall|i: int, j: int| 0 <= i < j < ordinals.len() implies (#[trigger] ordinals[i]) < (
    #[trigger] ordinals[j]) by {
        assert(bytes_before(run[i], run[j]));
        lemma_triple_of(branch.0, file.0, run[i]);
        lemma_triple_of(branch.0, file.0, run[j]);
        lemma_triple_key_order(branch.0, file.0, ordinals[i], branch.0, file.0, ordinals[j]);
    }
}

proof fn lemma_file_ordinal_found(
    image: Image,
    branch: BranchIdentifier,
    file: FileIdentifier,
    ordinal: u64,
)
    requires
        file_positions_filed(image),
        image.branch_file_events.contains_key(triple_key(branch.0, file.0, ordinal)),
    ensures
        file_ordinals(image, branch, file).contains(ordinal),
{
    let start = triple_key(branch.0, file.0, 0);
    let prefix = pair_key(branch.0, file.0);
    let key = triple_key(branch.0, file.0, ordinal);
    let run = file_run(image, branch, file);
    assert(start.take(16) =~= prefix);
    assert(key.take(16) =~= prefix);
    lemma_run_from(image.branch_file_events, start, prefix);
    lemma_triple_key_order(branch.0, file.0, ordinal, branch.0, file.0, 0);
    let i = choose|i: int| 0 <= i < run.len() && run[i] == key;
    lemma_triple_round_trip(branch.0, file.0, ordinal);
    assert(file_ordinals(image, branch, file)[i] == ordinal);
}

/// The records that are about a file.
pub open spec fn about(file: FileIdentifier) -> spec_fn(EventRecordView) -> bool {
    |record: EventRecordView| record.file_identifier == Some(file)
}

/// Two lists of records in order, one of which has just the records of the other that are about a file:
/// picking those out of the front of the larger gives a front of the smaller.
proof fn lemma_picking_matches(
    places: Seq<u64>,
    records: Seq<EventRecordView>,
    own_places: Seq<u64>,
    own: Seq<EventRecordView>,
    file: FileIdentifier,
    count: int,
) -> (matched: int)
    requires
        growing(places),
        growing(own_places),
        places.len() == records.len(),
        own_places.len() == own.len(),
        0 <= count <= places.len(),
        forall|j: int|
            0 <= j < own_places.len() ==> places.contains(#[trigger] own_places[j]),
        forall|i: int, j: int|
            0 <= i < places.len() && 0 <= j < own_places.len() && (#[trigger] places[i]) == (
            #[trigger] own_places[j]) ==> records[i] == own[j] && about(file)(records[i]),
        forall|i: int|
            0 <= i < places.len() && about(file)(records[i]) ==> own_places.contains(
                #[trigger] places[i],
            ),
    ensures
        0 <= matched <= own.len(),
        matched <= count,
        records.take(count).filter(about(file)) == own.take(matched),
        forall|j: int|
            0 <= j < matched ==> count > 0 && (#[trigger] own_places[j]) <= places[count - 1],
        forall|j: int|
            matched <= j < own.len() && count > 0 ==> (#[trigger] own_places[j])
                > places[count - 1],
        count == places.len() ==> matched == own.len(),
    decreases count,
{
    reveal(Seq::filter);
    let matched: int = if count == 0 {
        assert(records.take(0).filter(about(file)) =~= own.take(0));
        0
    } else {
        let before = lemma_picking_matches(
            places,
            records,
            own_places,
            own,
            file,
            count - 1,
        );
        let place = places[count - 1];
        let record = records[count - 1];
        assert(records.take(count).drop_last() =~= records.take(count - 1));
        assert(records.take(count).last() == record);
        assert forall|j: int| before <= j < own.len() implies (#[trigger] own_places[j])
            >= place by {
            let i = choose|i: int| 0 <= i < places.len() && places[i] == own_places[j];
            if i < count - 1 {
                assert(places[i] <= places[count - 2]);
            } else if i > count - 1 {
                assert(places[count - 1] < places[i]);
            }
        }
        assert forall|j: int| 0 <= j < before implies (#[trigger] own_places[j]) < place by {
            assert(own_places[j] <= places[count - 2]);
            assert(places[count - 2] < places[count - 1]);
        }
        if about(file)(record) {
            assert(own_places.contains(places[count - 1]));
            let at = choose|j: int| 0 <= j < own_places.len() && own_places[j] == place;
            if at > before {
                assert(own_places[before] < own_places[at]);
            }
            assert(at == before);
            assert(own[before] == record);
            assert(own.take(before + 1) =~= own.take(before).push(record));
            assert forall|j: int| before + 1 <= j < own.len() implies (#[trigger] own_places[j])
                > place by {
                assert(own_places[before] < own_places[j]);
            }
            before + 1
        } else {
            assert forall|j: int| before <= j < own.len() implies (#[trigger] own_places[j])
                > place by {
                assert(places[count - 1] != own_places[j]);
            }
            before
        }
    };
    if count == places.len() && matched < own.len() {
        let i = choose|i: int| 0 <= i < places.len() && places[i] == own_places[matched];
        if i < count - 1 {
            assert(places[i] < places[count - 1]);
        }
    }
    matched
}

/// The records of the events of a branch.
spec fn branch_records(image: Image, branch: BranchIdentifier) -> Seq<EventRecordView> {
    let run = branch_run(image, branch);
    Seq::new(run.len(), |i: int| branch_event_at(image, branch, run[i])->0)
}

/// The records of the events of a file on a branch.
spec fn file_records(image: Image, branch: BranchIdentifier, file: FileIdentifier) -> Seq<
    EventRecordView,
> {
    let run = file_run(image, branch, file);
    Seq::new(run.len(), |i: int| file_event_at(image, branch, file, run[i])->0)
}

/// An event of a file is one of the branch, at the same place.
proof fn lemma_own_record(
    image: Image,
    branch: BranchIdentifier,
    file: FileIdentifier,
    j: int,
)
    requires
        positions_filed(image),
        file_positions_filed(image),
        indexes_agree(image),
        0 <= j < file_run(image, branch, file).len(),
    ensures
        ({
            let place = file_ordinals(image, branch, file)[j];
            let own = file_records(image, branch, file)[j];
            &&& branch_ordinals(image, branch).contains(place)
            &&& branch_event_at(image, branch, pair_key(branch.0, place)) == Some(own)
            &&& own.file_identifier == Some(file)
        }),
{
    lemma_file_ordinals(image, branch, file);
    let key = file_run(image, branch, file)[j];
    lemma_file_row(image, branch, file, key);
    lemma_branch_ordinal_found(image, branch, file_ordinal_in(key));
}

/// An event of a branch that is about a file is one of the file, at the same place.
proof fn lemma_branch_record(
    image: Image,
    branch: BranchIdentifier,
    file: FileIdentifier,
    i: int,
)
    requires
        positions_filed(image),
        file_positions_filed(image),
        indexes_agree(image),
        0 <= i < branch_run(image, branch).len(),
    ensures
        ({
            let place = branch_ordinals(image, branch)[i];
            let record = branch_records(image, branch)[i];
            &&& branch_event_at(image, branch, pair_key(branch.0, place)) == Some(record)
            &&& record.file_identifier == Some(file) ==> file_ordinals(
                image,
                branch,
                file,
            ).contains(place)
        }),
{
    lemma_branch_ordinals(image, branch);
    let key = branch_run(image, branch)[i];
    assert(image.branch_events.contains_key(key));
    let record = branch_records(image, branch)[i];
    if record.file_identifier == Some(file) {
        lemma_file_ordinal_found(image, branch, file, ordinal_in(key));
    }
}

/// The places of a file are among those of the branch, and at a common place both have one event, which
/// is about the file; the branch has no other event about it.
spec fn places_match(
    places: Seq<u64>,
    records: Seq<EventRecordView>,
    own_places: Seq<u64>,
    own: Seq<EventRecordView>,
    file: FileIdentifier,
) -> bool {
    &&& forall|j: int| 0 <= j < own_places.len() ==> places.contains(#[trigger] own_places[j])
    &&& forall|i: int, j: int|
        0 <= i < places.len() && 0 <= j < own_places.len() && (#[trigger] places[i]) == (
        #[trigger] own_places[j]) ==> records[i] == own[j] && about(file)(records[i])
    &&& forall|i: int|
        0 <= i < places.len() && about(file)(records[i]) ==> own_places.contains(
            #[trigger] places[i],
        )
}

/// The places of a file and of the branch match.
proof fn lemma_places_match(image: Image, branch: BranchIdentifier, file: FileIdentifier)
    requires
        positions_filed(image),
        file_positions_filed(image),
        indexes_agree(image),
    ensures
        places_match(
            branch_ordinals(image, branch),
            branch_records(image, branch),
            file_ordinals(image, branch, file),
            file_records(image, branch, file),
            file,
        ),
{
    let places = branch_ordinals(image, branch);
    let own_places = file_ordinals(image, branch, file);
    let records = branch_records(image, branch);
    let own = file_records(image, branch, file);
    assert forall|j: int| 0 <= j < own_places.len() implies places.contains(
        #[trigger] own_places[j],
    ) by {
        lemma_own_record(image, branch, file, j);
    }
    assert forall|i: int, j: int|
        0 <= i < places.len() && 0 <= j < own_places.len() && (#[trigger] places[i]) == (
        #[trigger] own_places[j]) implies records[i] == own[j] && about(file)(records[i]) by {
        lemma_own_record(image, branch, file, j);
        lemma_branch_record(image, branch, file, i);
    }
    assert forall|i: int|
        0 <= i < places.len() && about(file)(records[i]) implies own_places.contains(
        #[trigger] places[i],
    ) by {
        lemma_branch_record(image, branch, file, i);
    }
}

/// Events that match at growing places are picked out.
proof fn lemma_matched_is_picked(
    places: Seq<u64>,
    records: Seq<EventRecordView>,
    own_places: Seq<u64>,
    own: Seq<EventRecordView>,
    file: FileIdentifier,
)
    requires
        growing(places),
        growing(own_places),
        records.len() == places.len(),
        own.len() == own_places.len(),
        places_match(places, records, own_places, own, file),
    ensures
        records.filter(about(file)) == own,
        own.len() <= records.len(),
{
    let matched = lemma_picking_matches(
        places,
        records,
        own_places,
        own,
        file,
        places.len() as int,
    );
    assert(records.take(places.len() as int) =~= records);
    assert(own.take(matched) =~= own);
}

/// The events of a file on a branch are those of the branch that are about it.
proof fn lemma_file_records_picked(image: Image, branch: BranchIdentifier, file: FileIdentifier)
    requires
        positions_filed(image),
        file_positions_filed(image),
        indexes_agree(image),
    ensures
        branch_records(image, branch).filter(about(file)) == file_records(image, branch, file),
        file_records(image, branch, file).len() <= branch_records(image, branch).len(),
{
    let places = branch_ordinals(image, branch);
    let own_places = file_ordinals(image, branch, file);
    assert(growing(places)) by {
        lemma_branch_ordinals(image, branch);
    }
    assert(growing(own_places)) by {
        lemma_file_ordinals(image, branch, file);
    }
    lemma_places_match(image, branch, file);
    lemma_matched_is_picked(
        places,
        branch_records(image, branch),
        own_places,
        file_records(image, branch, file),
        file,
    );
}

/// A listing of a branch to its end lists the events of the branch.
proof fn lemma_all_records(
    image: Image,
    branch: BranchIdentifier,
    most: nat,
    all: Seq<EventRecordView>,
)
    requires
        branch_events_after(image, branch, None, most) == Some((all, false)),
    ensures
        all == branch_records(image, branch),
        all.len() <= most,
{
    assert(branch_event_items(image, branch, None).len() == branch_run(image, branch).len());
    assert(all =~= branch_records(image, branch));
}

/// Where the index of files on branches leads to events, both listings of a file list them.
proof fn lemma_file_pages(
    image: Image,
    branch: BranchIdentifier,
    file: FileIdentifier,
    most: nat,
)
    requires
        file_run(image, branch, file).len() <= most,
        forall|i: int|
            0 <= i < file_run(image, branch, file).len() ==> {
                let key = #[trigger] file_run(image, branch, file)[i];
                &&& file_event_at(image, branch, file, key) is Some
                &&& file_event_at(image, branch, file, key) == branch_file_event_at(
                    image,
                    branch,
                    file,
                    key,
                )
            },
    ensures
        branch_file_events_after(image, branch, file, None, most) == Some(
            (file_records(image, branch, file), false),
        ),
        file_events_after(image, branch, file, None, most) == Some(
            (file_records(image, branch, file), false),
        ),
{
    let run = file_run(image, branch, file);
    let own = file_records(image, branch, file);
    let by_both = branch_file_event_items(image, branch, file, None);
    let by_file = file_event_items(image, branch, file, 0);
    assert forall|i: int| 0 <= i < run.len() implies (#[trigger] by_both[i]) == Some(own[i]) by {
        let key = run[i];
    }
    assert forall|i: int| 0 <= i < run.len() implies (#[trigger] by_file[i]) == Some(own[i]) by {
        let key = run[i];
    }
    assert((page_of(by_both, most)->0).0 =~= own);
    assert((page_of(by_file, most)->0).0 =~= own);
    lemma_walk_is_page(by_file, most, Seq::empty());
    assert(Seq::<EventRecordView>::empty() + own =~= own);
}

/// Listing the events of a file by the branch and the file, listing them by the file, and picking them
/// out of all events of the branch give the same list.
pub proof fn lemma_file_listings_agree(
    storage: StorageView,
    branch: BranchIdentifier,
    file: FileIdentifier,
    most: nat,
    all: Seq<EventRecordView>,
)
    requires
        indexed(storage),
        branch_events_after(storage.image, branch, None, most) == Some((all, false)),
    ensures
        branch_file_events_after(storage.image, branch, file, None, most) == Some(
            (all.filter(about(file)), false),
        ),
        file_events_after(storage.image, branch, file, None, most) == Some(
            (all.filter(about(file)), false),
        ),
{
    let image = storage.image;
    let run = file_run(image, branch, file);
    lemma_all_records(image, branch, most, all);
    lemma_file_records_picked(image, branch, file);
    assert forall|i: int| 0 <= i < run.len() implies {
        let key = #[trigger] run[i];
        &&& file_event_at(image, branch, file, key) is Some
        &&& file_event_at(image, branch, file, key) == branch_file_event_at(
            image,
            branch,
            file,
            key,
        )
    } by {
        lemma_file_ordinals(image, branch, file);
        lemma_file_row(image, branch, file, run[i]);
    }
    lemma_file_pages(image, branch, file, most);
}

} // verus!
