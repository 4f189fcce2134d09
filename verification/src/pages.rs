//! Listings in pages: one page and the page that its cursor asks for are one longer page.

use vstd::prelude::*;

use crate::branches::{branches_after, named_branch, BRANCH_IDENTIFIER_INITIAL};
use crate::bytes::{bytes_before, has_prefix, lemma_bytes_before_transitive};
use crate::database::{BranchView, Image};
use crate::filesystem::{
    BranchIdentifier, BranchPosition, EventRecordView, EventSequence, FileIdentifier,
};
use crate::history::{
    branch_event_at, branch_events_after, branch_file_event_at, branch_file_events_after,
    events_after, file_event_at, file_events_after, file_start, file_walk, keys_from,
    lemma_keys_from, lies_at, page_of, position_start, record_at_key, run_of,
};
use crate::keys::{
    lemma_named_key_prefix, lemma_pair_key_order, lemma_triple_key_order, lemma_u64_key_of,
    lemma_u64_key_order, pair_key, triple_key, u64_key, u64_of,
};
use crate::table::{lemma_listed_keys, listed_keys, lists_keys, sorted_keys};

verus! {

/// All keys of a table have a length.
pub open spec fn keys_sized<V>(map: Map<Seq<u8>, V>, length: nat) -> bool {
    forall|key: Seq<u8>| #[trigger] map.contains_key(key) ==> key.len() == length
}

/// A page and the page of the items after it are one page.
proof fn lemma_page_of_joins<T>(items: Seq<Option<T>>, limit: nat, more: nat)
    requires
        page_of(items, limit) is Some,
        (page_of(items, limit)->0).1,
        page_of(items.skip(limit as int), more) is Some,
    ensures
        ({
            let first = page_of(items, limit)->0;
            let second = page_of(items.skip(limit as int), more)->0;
            page_of(items, limit + more) == Some((first.0 + second.0, second.1))
        }),
{
    let rest = items.skip(limit as int);
    let first = page_of(items, limit)->0;
    let second = page_of(rest, more)->0;
    let count = if items.len() < limit + more {
        items.len()
    } else {
        limit + more
    };
    assert forall|i: int| 0 <= i < count implies (#[trigger] items[i]) is Some by {
        if i >= limit {
            assert(rest[i - limit] is Some);
        }
    }
    let joined = Seq::new(count, |i: int| items[i]->0);
    assert forall|i: int| 0 <= i < count implies joined[i] == #[trigger] (first.0 + second.0)[i] by {
        if i >= limit {
            assert(rest[i - limit] == items[i]);
        }
    }
    assert(joined =~= first.0 + second.0);
}

/// Where listing from a start begins.
pub proof fn lemma_start_index(keys: Seq<Seq<u8>>, start: Seq<u8>) -> (index: int)
    ensures
        0 <= index <= keys.len(),
        keys_from(keys, start) == keys.skip(index),
        forall|i: int| 0 <= i < index ==> bytes_before(#[trigger] keys[i], start),
        index < keys.len() ==> !bytes_before(keys[index], start),
    decreases keys.len(),
{
    if keys.len() == 0 || !bytes_before(keys[0], start) {
        assert(keys.skip(0) =~= keys);
        0
    } else {
        let rest = keys.skip(1);
        let index = lemma_start_index(rest, start);
        assert(rest.skip(index) =~= keys.skip(index + 1));
        assert forall|i: int| 0 <= i < index + 1 implies bytes_before(#[trigger] keys[i], start) by {
            if i > 0 {
                assert(rest[i - 1] == keys[i]);
            }
        }
        index + 1
    }
}

/// Listing from a later start gives the rest of a listing.
proof fn lemma_keys_resume(keys: Seq<Seq<u8>>, start: Seq<u8>, next: Seq<u8>, count: int)
    requires
        sorted_keys(keys),
        0 < count <= keys_from(keys, start).len(),
        bytes_before(keys_from(keys, start)[count - 1], next),
        count < keys_from(keys, start).len() ==> !bytes_before(keys_from(keys, start)[count], next),
    ensures
        keys_from(keys, next) == keys_from(keys, start).skip(count),
{
    let index = lemma_start_index(keys, start);
    let last = index + count - 1;
    assert(keys_from(keys, start)[count - 1] == keys[last]);
    assert forall|i: int| 0 <= i < index + count implies bytes_before(#[trigger] keys[i], next) by {
        if i < last {
            assert(bytes_before(keys[i], keys[last]));
            lemma_bytes_before_transitive(keys[i], keys[last], next);
        }
    }
    lemma_keys_from(keys, next, index + count);
    assert(keys.skip(index).skip(count) =~= keys.skip(index + count));
}

/// A run of keys is a front of the keys, and a part of it is the run of the rest.
proof fn lemma_run_front(keys: Seq<Seq<u8>>, prefix: Seq<u8>, count: int)
    requires
        0 <= count <= run_of(keys, prefix).len(),
    ensures
        run_of(keys, prefix).len() <= keys.len(),
        run_of(keys.skip(count), prefix) == run_of(keys, prefix).skip(count),
        forall|i: int|
            0 <= i < run_of(keys, prefix).len() ==> #[trigger] run_of(keys, prefix)[i] == keys[i]
                && has_prefix(keys[i], prefix),
    decreases keys.len(),
{
    let run = run_of(keys, prefix);
    if keys.len() == 0 || !has_prefix(keys[0], prefix) {
        assert(keys.skip(0) =~= keys);
        assert(run.skip(0) =~= run);
    } else {
        let rest = keys.skip(1);
        let tail = run_of(rest, prefix);
        assert(run == seq![keys[0]] + tail);
        if count > 0 {
            lemma_run_front(rest, prefix, count - 1);
            assert(rest.skip(count - 1) =~= keys.skip(count));
            assert(tail.skip(count - 1) =~= run.skip(count));
        } else {
            lemma_run_front(rest, prefix, 0);
            assert(keys.skip(0) =~= keys);
            assert(run.skip(0) =~= run);
        }
        assert forall|i: int| 0 <= i < run.len() implies #[trigger] run[i] == keys[i] && has_prefix(
            keys[i],
            prefix,
        ) by {
            if i > 0 {
                assert(run[i] == tail[i - 1]);
                assert(tail[i - 1] == rest[i - 1]);
            }
        }
    }
}

/// What listing events after a sequence finds.
pub open spec fn event_items(image: Image, after: Option<EventSequence>) -> Seq<
    Option<EventRecordView>,
> {
    if after is Some && (after->0).0 == u64::MAX {
        Seq::empty()
    } else {
        let start: u64 = match after {
            Some(sequence) => (sequence.0 + 1) as u64,
            None => 0,
        };
        let keys = keys_from(listed_keys(image.events), u64_key(start));
        Seq::new(keys.len(), |i: int| record_at_key(image, keys[i]))
    }
}

/// A page of events is a page of what listing finds.
pub proof fn lemma_event_items(image: Image, after: Option<EventSequence>, limit: nat)
    ensures
        events_after(image, after, limit) == page_of(event_items(image, after), limit),
{
    if after is Some && (after->0).0 == u64::MAX {
        let none = Seq::<Option<EventRecordView>>::empty();
        assert(Seq::new(0, |i: int| none[i]->0) =~= Seq::<EventRecordView>::empty());
    }
}

/// Listing events after the last one of a page finds what the page left.
pub proof fn lemma_events_resume(
    image: Image,
    keys: Seq<Seq<u8>>,
    after: Option<EventSequence>,
    limit: nat,
    first: Seq<EventRecordView>,
)
    requires
        lists_keys(keys, image.events),
        keys_sized(image.events, 8),
        limit > 0,
        events_after(image, after, limit) == Some((first, true)),
    ensures
        event_items(image, Some(first.last().sequence)) == event_items(image, after).skip(
            limit as int,
        ),
{
    lemma_listed_keys(keys, image.events);
    let start: u64 = match after {
        Some(sequence) => (sequence.0 + 1) as u64,
        None => 0,
    };
    let found = keys_from(keys, u64_key(start));
    let index = lemma_start_index(keys, u64_key(start));
    let items = Seq::new(found.len(), |i: int| record_at_key(image, found[i]));
    let last = first.last().sequence.0;
    assert(items[limit - 1] is Some);
    assert(first.last() == items[limit - 1]->0);
    let key = found[limit - 1];
    lemma_u64_key_of(key);
    let next = found[limit as int];
    assert(next == keys[index + limit]);
    assert(key == keys[index + limit - 1]);
    assert(image.events.contains_key(next));
    lemma_u64_key_of(next);
    lemma_u64_key_order(last, u64_of(next));
    let resumed = (last + 1) as u64;
    lemma_u64_key_order(last, resumed);
    lemma_u64_key_order(u64_of(next), resumed);
    lemma_keys_resume(keys, u64_key(start), u64_key(resumed), limit as int);
    let rest = found.skip(limit as int);
    assert(items.skip(limit as int) =~= Seq::new(
        rest.len(),
        |i: int| record_at_key(image, rest[i]),
    ));
}

/// Listing events in pages leaves none out and lists none twice: a page that more events follow and the
/// page after its last event are one longer page.
pub proof fn lemma_event_pages_join(
    image: Image,
    keys: Seq<Seq<u8>>,
    after: Option<EventSequence>,
    limit: nat,
    more: nat,
    first: Seq<EventRecordView>,
    second: (Seq<EventRecordView>, bool),
)
    requires
        lists_keys(keys, image.events),
        keys_sized(image.events, 8),
        limit > 0,
        events_after(image, after, limit) == Some((first, true)),
        events_after(image, Some(first.last().sequence), more) == Some(second),
    ensures
        events_after(image, after, limit + more) == Some((first + second.0, second.1)),
{
    lemma_events_resume(image, keys, after, limit, first);
    lemma_event_items(image, after, limit);
    lemma_event_items(image, Some(first.last().sequence), more);
    lemma_event_items(image, after, limit + more);
    lemma_page_of_joins(event_items(image, after), limit, more);
}

/// What listing branches after a number finds.
pub open spec fn branch_items(image: Image, after: Option<BranchIdentifier>) -> Seq<
    Option<BranchView>,
> {
    if after is Some && (after->0).0 == u64::MAX {
        Seq::empty()
    } else {
        let start: u64 = match after {
            Some(identifier) => (identifier.0 + 1) as u64,
            None => BRANCH_IDENTIFIER_INITIAL,
        };
        let keys = keys_from(listed_keys(image.branches), u64_key(start));
        Seq::new(keys.len(), |i: int| named_branch(image, keys[i]))
    }
}

/// A page of branches is a page of what listing finds.
pub proof fn lemma_branch_items(image: Image, after: Option<BranchIdentifier>, limit: nat)
    ensures
        branches_after(image, after, limit) == page_of(branch_items(image, after), limit),
{
    if after is Some && (after->0).0 == u64::MAX {
        let none = Seq::<Option<BranchView>>::empty();
        assert(Seq::new(0, |i: int| none[i]->0) =~= Seq::<BranchView>::empty());
    }
}

/// Every branch is stored under its own number.
pub open spec fn branches_placed(image: Image) -> bool {
    forall|key: Seq<u8>| #[trigger]
        image.branches.contains_key(key) && image.branches[key] is Some
            ==> image.branches[key]->0.identifier == u64_of(key)
}

/// Listing branches after the last one of a page finds what the page left.
pub proof fn lemma_branches_resume(
    image: Image,
    keys: Seq<Seq<u8>>,
    after: Option<BranchIdentifier>,
    limit: nat,
    first: Seq<BranchView>,
)
    requires
        lists_keys(keys, image.branches),
        keys_sized(image.branches, 8),
        branches_placed(image),
        limit > 0,
        branches_after(image, after, limit) == Some((first, true)),
    ensures
        branch_items(image, Some(BranchIdentifier(first.last().identifier))) == branch_items(
            image,
            after,
        ).skip(limit as int),
{
    lemma_listed_keys(keys, image.branches);
    let start: u64 = match after {
        Some(identifier) => (identifier.0 + 1) as u64,
        None => BRANCH_IDENTIFIER_INITIAL,
    };
    let found = keys_from(keys, u64_key(start));
    let index = lemma_start_index(keys, u64_key(start));
    let items = Seq::new(found.len(), |i: int| named_branch(image, found[i]));
    let last = first.last().identifier;
    assert(items[limit - 1] is Some);
    assert(first.last() == items[limit - 1]->0);
    let key = found[limit - 1];
    assert(key == keys[index + limit - 1]);
    assert(image.branches.contains_key(key));
    lemma_u64_key_of(key);
    let next = found[limit as int];
    assert(next == keys[index + limit]);
    assert(image.branches.contains_key(next));
    lemma_u64_key_of(next);
    lemma_u64_key_order(last, u64_of(next));
    let resumed = (last + 1) as u64;
    lemma_u64_key_order(last, resumed);
    lemma_u64_key_order(u64_of(next), resumed);
    lemma_keys_resume(keys, u64_key(start), u64_key(resumed), limit as int);
    let rest = found.skip(limit as int);
    assert(items.skip(limit as int) =~= Seq::new(
        rest.len(),
        |i: int| named_branch(image, rest[i]),
    ));
}

/// Listing branches in pages leaves none out and lists none twice, where each is stored under its own
/// number.
pub proof fn lemma_branch_pages_join(
    image: Image,
    keys: Seq<Seq<u8>>,
    after: Option<BranchIdentifier>,
    limit: nat,
    more: nat,
    first: Seq<BranchView>,
    second: (Seq<BranchView>, bool),
)
    requires
        lists_keys(keys, image.branches),
        keys_sized(image.branches, 8),
        branches_placed(image),
        limit > 0,
        branches_after(image, after, limit) == Some((first, true)),
        branches_after(image, Some(BranchIdentifier(first.last().identifier)), more) == Some(
            second,
        ),
    ensures
        branches_after(image, after, limit + more) == Some((first + second.0, second.1)),
{
    lemma_branches_resume(image, keys, after, limit, first);
    lemma_branch_items(image, after, limit);
    lemma_branch_items(image, Some(BranchIdentifier(first.last().identifier)), more);
    lemma_branch_items(image, after, limit + more);
    lemma_page_of_joins(branch_items(image, after), limit, more);
}

/// A key of two numbers that starts with the first.
pub proof fn lemma_pair_of(first: u64, key: Seq<u8>)
    requires
        has_prefix(key, u64_key(first)),
        key.len() == 16,
    ensures
        key == pair_key(first, u64_of(key.skip(8))),
{
    lemma_named_key_prefix(first, key);
    lemma_u64_key_of(key.skip(8));
}

/// A key of three numbers that starts with the first two.
pub proof fn lemma_triple_of(first: u64, second: u64, key: Seq<u8>)
    requires
        has_prefix(key, pair_key(first, second)),
        key.len() == 24,
    ensures
        key == triple_key(first, second, u64_of(key.skip(16))),
{
    lemma_u64_key_of(key.skip(16));
    assert(key =~= key.take(16) + key.skip(16));
}

/// What listing the events of a branch after a position finds.
pub open spec fn branch_event_items(
    image: Image,
    branch: BranchIdentifier,
    after: Option<BranchPosition>,
) -> Seq<Option<EventRecordView>> {
    let start = position_start(branch, after)->Ok_0;
    let keys = run_of(keys_from(listed_keys(image.branch_events), pair_key(branch.0, start)), u64_key(branch.0));
    Seq::new(keys.len(), |i: int| branch_event_at(image, branch, keys[i]))
}

/// Listing the events of a branch after the last one of a page finds what the page left.
pub proof fn lemma_branch_events_resume(
    image: Image,
    keys: Seq<Seq<u8>>,
    branch: BranchIdentifier,
    after: Option<BranchPosition>,
    limit: nat,
    first: Seq<EventRecordView>,
)
    requires
        lists_keys(keys, image.branch_events),
        keys_sized(image.branch_events, 16),
        limit > 0,
        branch_events_after(image, branch, after, limit) == Some((first, true)),
    ensures
        first.last().branch_position is Some,
        position_start(branch, first.last().branch_position) is Ok,
        branch_event_items(image, branch, first.last().branch_position) == branch_event_items(
            image,
            branch,
            after,
        ).skip(limit as int),
{
    lemma_listed_keys(keys, image.branch_events);
    let start = position_start(branch, after)->Ok_0;
    let from = pair_key(branch.0, start);
    let prefix = u64_key(branch.0);
    let found = keys_from(keys, from);
    let index = lemma_start_index(keys, from);
    let run = run_of(found, prefix);
    let items = Seq::new(run.len(), |i: int| branch_event_at(image, branch, run[i]));
    lemma_run_front(found, prefix, limit as int);
    assert(items[limit - 1] is Some);
    assert(first.last() == items[limit - 1]->0);
    let key = run[limit - 1];
    let next = run[limit as int];
    assert(key == keys[index + limit - 1]);
    assert(next == keys[index + limit]);
    assert(image.branch_events.contains_key(next));
    lemma_pair_of(branch.0, key);
    lemma_pair_of(branch.0, next);
    let ordinal = u64_of(key.skip(8));
    let following = u64_of(next.skip(8));
    assert(lies_at(first.last(), branch, ordinal));
    lemma_pair_key_order(branch.0, ordinal, branch.0, following);
    let resumed = (ordinal + 1) as u64;
    lemma_pair_key_order(branch.0, ordinal, branch.0, resumed);
    lemma_pair_key_order(branch.0, following, branch.0, resumed);
    lemma_keys_resume(keys, from, pair_key(branch.0, resumed), limit as int);
    let rest = run.skip(limit as int);
    assert(items.skip(limit as int) =~= Seq::new(
        rest.len(),
        |i: int| branch_event_at(image, branch, rest[i]),
    ));
}

/// Listing the events of a branch in pages leaves none out and lists none twice.
pub proof fn lemma_branch_event_pages_join(
    image: Image,
    keys: Seq<Seq<u8>>,
    branch: BranchIdentifier,
    after: Option<BranchPosition>,
    limit: nat,
    more: nat,
    first: Seq<EventRecordView>,
    second: (Seq<EventRecordView>, bool),
)
    requires
        lists_keys(keys, image.branch_events),
        keys_sized(image.branch_events, 16),
        limit > 0,
        branch_events_after(image, branch, after, limit) == Some((first, true)),
        branch_events_after(image, branch, first.last().branch_position, more) == Some(second),
    ensures
        branch_events_after(image, branch, after, limit + more) == Some(
            (first + second.0, second.1),
        ),
{
    lemma_branch_events_resume(image, keys, branch, after, limit, first);
    lemma_page_of_joins(branch_event_items(image, branch, after), limit, more);
}

/// What listing the events of a file on a branch after a position finds.
pub open spec fn branch_file_event_items(
    image: Image,
    branch: BranchIdentifier,
    file: FileIdentifier,
    after: Option<BranchPosition>,
) -> Seq<Option<EventRecordView>> {
    let start = position_start(branch, after)->Ok_0;
    let keys = run_of(keys_from(listed_keys(image.branch_file_events), triple_key(branch.0, file.0, start)), pair_key(branch.0, file.0));
    Seq::new(keys.len(), |i: int| branch_file_event_at(image, branch, file, keys[i]))
}

/// Listing the events of a file on a branch after the last one of a page finds what the page left.
pub proof fn lemma_branch_file_events_resume(
    image: Image,
    keys: Seq<Seq<u8>>,
    branch: BranchIdentifier,
    file: FileIdentifier,
    after: Option<BranchPosition>,
    limit: nat,
    first: Seq<EventRecordView>,
)
    requires
        lists_keys(keys, image.branch_file_events),
        keys_sized(image.branch_file_events, 24),
        limit > 0,
        branch_file_events_after(image, branch, file, after, limit) == Some((first, true)),
    ensures
        first.last().branch_position is Some,
        position_start(branch, first.last().branch_position) is Ok,
        branch_file_event_items(image, branch, file, first.last().branch_position) == branch_file_event_items(
            image,
            branch,
            file, after,
        ).skip(limit as int),
{
    lemma_listed_keys(keys, image.branch_file_events);
    let start = position_start(branch, after)->Ok_0;
    let from = triple_key(branch.0, file.0, start);
    let prefix = pair_key(branch.0, file.0);
    let found = keys_from(keys, from);
    let index = lemma_start_index(keys, from);
    let run = run_of(found, prefix);
    let items = Seq::new(run.len(), |i: int| branch_file_event_at(image, branch, file, run[i]));
    lemma_run_front(found, prefix, limit as int);
    assert(items[limit - 1] is Some);
    assert(first.last() == items[limit - 1]->0);
    let key = run[limit - 1];
    let next = run[limit as int];
    assert(key == keys[index + limit - 1]);
    assert(next == keys[index + limit]);
    assert(image.branch_file_events.contains_key(next));
    lemma_triple_of(branch.0, file.0, key);
    lemma_triple_of(branch.0, file.0, next);
    let ordinal = u64_of(key.skip(16));
    let following = u64_of(next.skip(16));
    assert(lies_at(first.last(), branch, ordinal));
    lemma_triple_key_order(branch.0, file.0, ordinal, branch.0, file.0, following);
    let resumed = (ordinal + 1) as u64;
    lemma_triple_key_order(branch.0, file.0, ordinal, branch.0, file.0, resumed);
    lemma_triple_key_order(branch.0, file.0, following, branch.0, file.0, resumed);
    lemma_keys_resume(keys, from, triple_key(branch.0, file.0, resumed), limit as int);
    let rest = run.skip(limit as int);
    assert(items.skip(limit as int) =~= Seq::new(
        rest.len(),
        |i: int| branch_file_event_at(image, branch, file, rest[i]),
    ));
}

/// Listing the events of a file on a branch in pages leaves none out and lists none twice.
pub proof fn lemma_branch_file_event_pages_join(
    image: Image,
    keys: Seq<Seq<u8>>,
    branch: BranchIdentifier,
    file: FileIdentifier,
    after: Option<BranchPosition>,
    limit: nat,
    more: nat,
    first: Seq<EventRecordView>,
    second: (Seq<EventRecordView>, bool),
)
    requires
        lists_keys(keys, image.branch_file_events),
        keys_sized(image.branch_file_events, 24),
        limit > 0,
        branch_file_events_after(image, branch, file, after, limit) == Some((first, true)),
        branch_file_events_after(image, branch, file, first.last().branch_position, more) == Some(second),
    ensures
        branch_file_events_after(image, branch, file, after, limit + more) == Some(
            (first + second.0, second.1),
        ),
{
    lemma_branch_file_events_resume(image, keys, branch, file, after, limit, first);
    lemma_page_of_joins(branch_file_event_items(image, branch, file, after), limit, more);
}

/// Without a sequence to pass, the events that a page of a file takes are the first ones.
pub proof fn lemma_walk_is_page(
    items: Seq<Option<EventRecordView>>,
    limit: nat,
    taken: Seq<EventRecordView>,
)
    requires
        taken.len() <= limit,
    ensures
        match file_walk(items, None, limit, taken) {
            Some((records, follow)) => {
                let count = (limit - taken.len()) as nat;
                &&& page_of(items, count) is Some
                &&& records == taken + (page_of(items, count)->0).0
                &&& follow == (page_of(items, count)->0).1
                &&& follow ==> items[count as int] is Some
            },
            None => true,
        },
        ({
            let count = (limit - taken.len()) as nat;
            page_of(items, count) is Some && (items.len() > count ==> items[count as int] is Some)
                ==> file_walk(items, None, limit, taken) is Some
        }),
    decreases items.len(),
{
    let count = (limit - taken.len()) as nat;
    if items.len() == 0 {
        assert(taken + Seq::<EventRecordView>::new(0, |i: int| items[i]->0) =~= taken);
    } else if items[0] is Some {
        if taken.len() == limit {
            assert(taken + Seq::<EventRecordView>::new(0, |i: int| items[i]->0) =~= taken);
        } else {
            let rest = items.skip(1);
            let record = items[0]->0;
            lemma_walk_is_page(rest, limit, taken.push(record));
            let fewer = (count - 1) as nat;
            if page_of(rest, fewer) is Some {
                assert forall|i: int|
                    0 <= i < count && i < items.len() implies (#[trigger] items[i]) is Some by {
                    if i > 0 {
                        assert(rest[i - 1] is Some);
                    }
                }
                assert((page_of(items, count)->0).0 =~= seq![record] + (page_of(rest, fewer)->0).0);
                assert(taken.push(record) + (page_of(rest, fewer)->0).0 =~= taken + (page_of(
                    items,
                    count,
                )->0).0);
            }
            if page_of(items, count) is Some {
                assert forall|i: int|
                    0 <= i < fewer && i < rest.len() implies (#[trigger] rest[i]) is Some by {
                    assert(items[i + 1] is Some);
                }
            }
        }
    }
}

/// Two pages of a walk without a sequence to pass are one page.
proof fn lemma_walks_join(
    items: Seq<Option<EventRecordView>>,
    limit: nat,
    more: nat,
    first: Seq<EventRecordView>,
    second: (Seq<EventRecordView>, bool),
)
    requires
        limit > 0,
        file_walk(items, None, limit, Seq::empty()) == Some((first, true)),
        file_walk(items.skip(limit as int), None, more, Seq::empty()) == Some(second),
    ensures
        file_walk(items, None, limit + more, Seq::empty()) == Some(
            (first + second.0, second.1),
        ),
{
    let none = Seq::<EventRecordView>::empty();
    let others = items.skip(limit as int);
    lemma_walk_is_page(items, limit, none);
    lemma_walk_is_page(others, more, none);
    lemma_walk_is_page(items, limit + more, none);
    assert(none + (page_of(items, limit)->0).0 =~= (page_of(items, limit)->0).0);
    assert(none + (page_of(others, more)->0).0 =~= (page_of(others, more)->0).0);
    lemma_page_of_joins(items, limit, more);
    if items.len() > limit + more {
        assert(others[more as int] == items[(limit + more) as int]);
    }
    assert(none + (page_of(items, limit + more)->0).0 =~= (page_of(items, limit + more)->0).0);
}

/// A page of a walk that more follow ends with the last item that it takes.
proof fn lemma_walk_ends(
    items: Seq<Option<EventRecordView>>,
    limit: nat,
    first: Seq<EventRecordView>,
)
    requires
        limit > 0,
        file_walk(items, None, limit, Seq::empty()) == Some((first, true)),
    ensures
        items.len() > limit,
        items[limit - 1] == Some(first.last()),
{
    let none = Seq::<EventRecordView>::empty();
    lemma_walk_is_page(items, limit, none);
    assert(none + (page_of(items, limit)->0).0 =~= (page_of(items, limit)->0).0);
    assert(items[limit - 1] is Some);
}

/// What listing the events of a file on a branch from a position finds.
pub open spec fn file_event_items(
    image: Image,
    branch: BranchIdentifier,
    file: FileIdentifier,
    start: u64,
) -> Seq<Option<EventRecordView>> {
    let keys = run_of(
        keys_from(listed_keys(image.branch_file_events), triple_key(branch.0, file.0, start)),
        pair_key(branch.0, file.0),
    );
    Seq::new(keys.len(), |i: int| file_event_at(image, branch, file, keys[i]))
}

/// Listing the events of a file after the last one of a page finds what the page left.
pub proof fn lemma_file_events_resume(
    image: Image,
    keys: Seq<Seq<u8>>,
    branch: BranchIdentifier,
    file: FileIdentifier,
    after: Option<EventSequence>,
    limit: nat,
    first: Seq<EventRecordView>,
)
    requires
        lists_keys(keys, image.branch_file_events),
        keys_sized(image.branch_file_events, 24),
        limit > 0,
        file_start(image, branch, after) is Some,
        (file_start(image, branch, after)->0).1 is None,
        file_events_after(image, branch, file, after, limit) == Some((first, true)),
    ensures
        ({
            let start = (file_start(image, branch, after)->0).0;
            let next = file_start(image, branch, Some(first.last().sequence));
            &&& next is Some
            &&& (next->0).1 is None
            &&& file_event_items(image, branch, file, (next->0).0) == file_event_items(
                image,
                branch,
                file,
                start,
            ).skip(limit as int)
        }),
{
    lemma_listed_keys(keys, image.branch_file_events);
    let start = (file_start(image, branch, after)->0).0;
    let from = triple_key(branch.0, file.0, start);
    let prefix = pair_key(branch.0, file.0);
    let found = keys_from(keys, from);
    let index = lemma_start_index(keys, from);
    let run = run_of(found, prefix);
    let items = Seq::new(run.len(), |i: int| file_event_at(image, branch, file, run[i]));
    lemma_walk_ends(items, limit, first);
    lemma_run_front(found, prefix, limit as int);
    let key = run[limit - 1];
    let next = run[limit as int];
    assert(key == keys[index + limit - 1]);
    assert(next == keys[index + limit]);
    assert(image.branch_file_events.contains_key(next));
    lemma_triple_of(branch.0, file.0, key);
    lemma_triple_of(branch.0, file.0, next);
    let ordinal = u64_of(key.skip(16));
    let following = u64_of(next.skip(16));
    assert(lies_at(first.last(), branch, ordinal));
    lemma_triple_key_order(branch.0, file.0, ordinal, branch.0, file.0, following);
    let resumed = (ordinal + 1) as u64;
    lemma_triple_key_order(branch.0, file.0, ordinal, branch.0, file.0, resumed);
    lemma_triple_key_order(branch.0, file.0, following, branch.0, file.0, resumed);
    lemma_keys_resume(keys, from, triple_key(branch.0, file.0, resumed), limit as int);
    assert(file_start(image, branch, Some(first.last().sequence)) == Some(
        (resumed, None::<EventSequence>),
    ));
    let rest = run.skip(limit as int);
    assert(items.skip(limit as int) =~= Seq::new(
        rest.len(),
        |i: int| file_event_at(image, branch, file, rest[i]),
    ));
}

/// Listing the events of a file in pages leaves none out and lists none twice, where the first page
/// starts at the beginning or after an event of the branch.
pub proof fn lemma_file_event_pages_join(
    image: Image,
    keys: Seq<Seq<u8>>,
    branch: BranchIdentifier,
    file: FileIdentifier,
    after: Option<EventSequence>,
    limit: nat,
    more: nat,
    first: Seq<EventRecordView>,
    second: (Seq<EventRecordView>, bool),
)
    requires
        lists_keys(keys, image.branch_file_events),
        keys_sized(image.branch_file_events, 24),
        limit > 0,
        file_start(image, branch, after) is Some,
        (file_start(image, branch, after)->0).1 is None,
        file_events_after(image, branch, file, after, limit) == Some((first, true)),
        first.last().sequence.0 < u64::MAX,
        file_events_after(image, branch, file, Some(first.last().sequence), more) == Some(second),
    ensures
        file_events_after(image, branch, file, after, limit + more) == Some(
            (first + second.0, second.1),
        ),
{
    lemma_file_events_resume(image, keys, branch, file, after, limit, first);
    let items = file_event_items(image, branch, file, (file_start(image, branch, after)->0).0);
    lemma_walks_join(items, limit, more, first, second);
}

} // verus!
