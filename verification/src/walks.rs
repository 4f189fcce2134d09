//! Walks hand out whole listings: every record once, in order, however many are loaded at a time.

use vstd::prelude::*;

use crate::branches::{branches_after, describes};
use crate::database::{BranchView, Image};
use crate::error::FilesystemError;
use crate::filesystem::{
    BranchIdentifier, BranchPosition, BranchRecord, EventRecord, EventRecordView, EventSequence,
    FileIdentifier,
};
use crate::history::{
    branch_events_after, branch_file_events_after, events_after, file_events_after, file_start,
    file_walk, page_of, record_views,
};
use crate::interface::{
    branch_event_walk_page, describe_all, event_walk_page, position_cursor, sequence_cursor,
    unwalked, walks, walks_branches,
};
use crate::pages::{
    branch_event_items, branch_file_event_items, branch_items, branches_placed, event_items,
    file_event_items, keys_sized, lemma_branch_events_resume, lemma_branch_file_events_resume,
    lemma_branch_items, lemma_branches_resume, lemma_event_items, lemma_events_resume,
    lemma_file_events_resume, lemma_walk_is_page,
};
use crate::paging::PagedRecords;
use crate::storage::StorageView;
use crate::table::lists_keys;

verus! {

/// The steps of a walk over events from its start: each state of the walk, and what each step hands out
/// when the walk loads the given pages.
pub open spec fn walked<Cursor: Copy>(
    page: spec_fn(Option<Cursor>) -> Option<(Seq<EventRecordView>, Option<Cursor>)>,
    states: Seq<PagedRecords<Cursor, EventRecord>>,
    handed: Seq<Option<Result<EventRecord, FilesystemError>>>,
) -> bool {
    &&& states.len() == handed.len() + 1
    &&& unwalked(states[0])
    &&& forall|i: int|
        0 <= i < handed.len() ==> walks(
            states[i],
            states[i + 1],
            #[trigger] handed[i],
            page(states[i].after),
        )
}

/// The steps hand out the records in order, and after the last one nothing.
pub open spec fn hands_out(
    handed: Seq<Option<Result<EventRecord, FilesystemError>>>,
    all: Seq<EventRecordView>,
) -> bool {
    forall|i: int|
        0 <= i < handed.len() ==> match #[trigger] handed[i] {
            Some(Ok(record)) => i < all.len() && record@ == all[i],
            Some(Err(_)) => false,
            None => i >= all.len(),
        }
}

/// Where all records after a cursor are listed, the page after it is a front of them, and the page's
/// cursor is where the rest of them are listed.
spec fn pages_follow<Cursor, T>(
    page: spec_fn(Option<Cursor>) -> Option<(Seq<T>, Option<Cursor>)>,
    complete: spec_fn(Option<Cursor>, Seq<T>) -> bool,
) -> bool {
    forall|after: Option<Cursor>, rest: Seq<T>| #[trigger]
        complete(after, rest) ==> match page(after) {
            None => false,
            Some((first, cursor)) => {
                &&& first.len() <= rest.len()
                &&& first == rest.take(first.len() as int)
                &&& cursor is None ==> first == rest
                &&& cursor is Some ==> first.len() > 0 && complete(
                    cursor,
                    rest.skip(first.len() as int),
                )
            },
        }
}

/// What a walk still has to hand out is its loaded records and then the given ones.
spec fn on_course<Cursor: Copy>(
    complete: spec_fn(Option<Cursor>, Seq<EventRecordView>) -> bool,
    state: PagedRecords<Cursor, EventRecord>,
    left: Seq<EventRecordView>,
    rest: Seq<EventRecordView>,
) -> bool {
    &&& left == record_views(state.remaining()) + rest
    &&& state.exhausted ==> rest.len() == 0
    &&& !state.exhausted ==> complete(state.after, rest)
}

proof fn lemma_walk_step<Cursor: Copy>(
    page: spec_fn(Option<Cursor>) -> Option<(Seq<EventRecordView>, Option<Cursor>)>,
    complete: spec_fn(Option<Cursor>, Seq<EventRecordView>) -> bool,
    before: PagedRecords<Cursor, EventRecord>,
    after: PagedRecords<Cursor, EventRecord>,
    next: Option<Result<EventRecord, FilesystemError>>,
    left: Seq<EventRecordView>,
    rest: Seq<EventRecordView>,
) -> (later: Seq<EventRecordView>)
    requires
        pages_follow(page, complete),
        walks(before, after, next, page(before.after)),
        on_course(complete, before, left, rest),
    ensures
        left.len() > 0 ==> next is Some && next->0 is Ok && next->0->Ok_0@ == left[0],
        left.len() == 0 ==> next is None,
        on_course(
            complete,
            after,
            if left.len() > 0 {
                left.skip(1)
            } else {
                left
            },
            later,
        ),
{
    let none = Seq::<EventRecordView>::empty();
    if before.remaining().len() > 0 {
        let loaded = before.remaining();
        assert(record_views(after.remaining()) =~= record_views(loaded).skip(1));
        assert(left.skip(1) =~= record_views(after.remaining()) + rest);
        rest
    } else {
        assert(left =~= rest);
        if before.exhausted {
            assert(left =~= record_views(after.remaining()) + none);
            none
        } else {
            let (first, cursor) = page(before.after)->0;
            if first.len() == 0 {
                assert(left =~= record_views(after.remaining()) + none);
                none
            } else {
                let later = if cursor is Some {
                    rest.skip(first.len() as int)
                } else {
                    none
                };
                assert(first[0] == rest[0]);
                assert(left.skip(1) =~= record_views(after.remaining()) + later);
                later
            }
        }
    }
}

proof fn lemma_walk_hands_out<Cursor: Copy>(
    page: spec_fn(Option<Cursor>) -> Option<(Seq<EventRecordView>, Option<Cursor>)>,
    complete: spec_fn(Option<Cursor>, Seq<EventRecordView>) -> bool,
    states: Seq<PagedRecords<Cursor, EventRecord>>,
    handed: Seq<Option<Result<EventRecord, FilesystemError>>>,
    all: Seq<EventRecordView>,
    count: nat,
) -> (rest: Seq<EventRecordView>)
    requires
        pages_follow(page, complete),
        walked(page, states, handed),
        complete(None, all),
        count <= handed.len(),
    ensures
        hands_out(handed.take(count as int), all),
        on_course(
            complete,
            states[count as int],
            all.skip(
                if count < all.len() {
                    count as int
                } else {
                    all.len() as int
                },
            ),
            rest,
        ),
    decreases count,
{
    if count == 0 {
        assert(all.skip(0) =~= record_views(states[0].remaining()) + all);
        all
    } else {
        let index = count - 1;
        let left = all.skip(
            if index < all.len() {
                index
            } else {
                all.len() as int
            },
        );
        let rest = lemma_walk_hands_out(page, complete, states, handed, all, index as nat);
        assert(walks(states[index], states[index + 1], handed[index], page(states[index].after)));
        let later = lemma_walk_step(
            page,
            complete,
            states[index],
            states[index + 1],
            handed[index],
            left,
            rest,
        );
        assert forall|i: int| 0 <= i < count implies match #[trigger] handed.take(count as int)[i] {
            Some(Ok(record)) => i < all.len() && record@ == all[i],
            Some(Err(_)) => false,
            None => i >= all.len(),
        } by {
            if i < index {
                assert(handed.take(index)[i] == handed[i]);
            }
        }
        if index < all.len() {
            assert(left.skip(1) =~= all.skip(count as int));
        }
        later
    }
}

/// Where a listing finds everything, each page of it does, and so does listing what the page left.
proof fn lemma_page_of_rest<T>(items: Seq<Option<T>>, limit: nat, most: nat, all: Seq<T>)
    requires
        limit > 0,
        page_of(items, most) == Some((all, false)),
    ensures
        items.len() == all.len(),
        forall|i: int| 0 <= i < items.len() ==> (#[trigger] items[i]) is Some,
        page_of(items, limit) is Some,
        (page_of(items, limit)->0).1 == (limit < all.len()),
        limit < all.len() ==> (page_of(items, limit)->0).0 == all.take(limit as int),
        limit >= all.len() ==> (page_of(items, limit)->0).0 == all,
        limit < all.len() ==> page_of(items.skip(limit as int), most) == Some(
            (all.skip(limit as int), false),
        ),
{
    assert(items.len() == all.len());
    if limit < all.len() {
        let rest = items.skip(limit as int);
        assert((page_of(items, limit)->0).0 =~= all.take(limit as int));
        assert forall|i: int| 0 <= i < rest.len() implies (#[trigger] rest[i]) is Some by {
            assert(items[i + limit] is Some);
        }
        assert(Seq::new(rest.len(), |i: int| rest[i]->0) =~= all.skip(limit as int));
    } else {
        assert((page_of(items, limit)->0).0 =~= all);
    }
}

/// A walk over all events hands out every event once, in order, however many it loads at a time.
pub proof fn lemma_event_walk_is_complete(
    storage: StorageView,
    keys: Seq<Seq<u8>>,
    limit: nat,
    states: Seq<PagedRecords<EventSequence, EventRecord>>,
    handed: Seq<Option<Result<EventRecord, FilesystemError>>>,
    most: nat,
    all: Seq<EventRecordView>,
)
    requires
        lists_keys(keys, storage.image.events),
        keys_sized(storage.image.events, 8),
        limit > 0,
        walked(
            |after: Option<EventSequence>|
                sequence_cursor(event_walk_page(storage, None, after, limit)),
            states,
            handed,
        ),
        events_after(storage.image, None, most) == Some((all, false)),
    ensures
        hands_out(handed, all),
{
    let image = storage.image;
    let page = |after: Option<EventSequence>|
        sequence_cursor(event_walk_page(storage, None, after, limit));
    let complete = |after: Option<EventSequence>, rest: Seq<EventRecordView>|
        events_after(image, after, most) == Some((rest, false));
    assert forall|after: Option<EventSequence>, rest: Seq<EventRecordView>| #[trigger]
        complete(after, rest) implies match page(after) {
        None => false,
        Some((first, cursor)) => {
            &&& first.len() <= rest.len()
            &&& first == rest.take(first.len() as int)
            &&& cursor is None ==> first == rest
            &&& cursor is Some ==> first.len() > 0 && complete(
                cursor,
                rest.skip(first.len() as int),
            )
        },
    } by {
        let items = event_items(image, after);
        lemma_event_items(image, after, most);
        lemma_event_items(image, after, limit);
        lemma_page_of_rest(items, limit, most, rest);
        if limit < rest.len() {
            let first = rest.take(limit as int);
            lemma_events_resume(image, keys, after, limit, first);
            lemma_event_items(image, Some(first.last().sequence), most);
        } else {
            assert(rest.take(rest.len() as int) =~= rest);
        }
    }
    let _ = lemma_walk_hands_out(page, complete, states, handed, all, handed.len());
    assert(handed.take(handed.len() as int) =~= handed);
}

/// A walk over the events of a branch hands out every event of the branch once, in order.
pub proof fn lemma_branch_event_walk_is_complete(
    storage: StorageView,
    keys: Seq<Seq<u8>>,
    branch: BranchIdentifier,
    limit: nat,
    states: Seq<PagedRecords<BranchPosition, EventRecord>>,
    handed: Seq<Option<Result<EventRecord, FilesystemError>>>,
    most: nat,
    all: Seq<EventRecordView>,
)
    requires
        lists_keys(keys, storage.image.branch_events),
        keys_sized(storage.image.branch_events, 16),
        limit > 0,
        walked(
            |after: Option<BranchPosition>|
                position_cursor(branch_event_walk_page(storage, branch, None, after, limit)),
            states,
            handed,
        ),
        branch_events_after(storage.image, branch, None, most) == Some((all, false)),
    ensures
        hands_out(handed, all),
{
    let image = storage.image;
    let page = |after: Option<BranchPosition>|
        position_cursor(branch_event_walk_page(storage, branch, None, after, limit));
    let complete = |after: Option<BranchPosition>, rest: Seq<EventRecordView>|
        branch_events_after(image, branch, after, most) == Some((rest, false));
    assert forall|after: Option<BranchPosition>, rest: Seq<EventRecordView>| #[trigger]
        complete(after, rest) implies match page(after) {
        None => false,
        Some((first, cursor)) => {
            &&& first.len() <= rest.len()
            &&& first == rest.take(first.len() as int)
            &&& cursor is None ==> first == rest
            &&& cursor is Some ==> first.len() > 0 && complete(
                cursor,
                rest.skip(first.len() as int),
            )
        },
    } by {
        lemma_page_of_rest(branch_event_items(image, branch, after), limit, most, rest);
        if limit < rest.len() {
            let first = rest.take(limit as int);
            lemma_branch_events_resume(image, keys, branch, after, limit, first);
        } else {
            assert(rest.take(rest.len() as int) =~= rest);
        }
    }
    let _ = lemma_walk_hands_out(page, complete, states, handed, all, handed.len());
    assert(handed.take(handed.len() as int) =~= handed);
}

/// A walk over the events of a file on a branch hands out every one of them once, in order.
pub proof fn lemma_branch_file_event_walk_is_complete(
    storage: StorageView,
    keys: Seq<Seq<u8>>,
    branch: BranchIdentifier,
    file: FileIdentifier,
    limit: nat,
    states: Seq<PagedRecords<BranchPosition, EventRecord>>,
    handed: Seq<Option<Result<EventRecord, FilesystemError>>>,
    most: nat,
    all: Seq<EventRecordView>,
)
    requires
        lists_keys(keys, storage.image.branch_file_events),
        keys_sized(storage.image.branch_file_events, 24),
        limit > 0,
        walked(
            |after: Option<BranchPosition>|
                position_cursor(branch_event_walk_page(storage, branch, Some(file), after, limit)),
            states,
            handed,
        ),
        branch_file_events_after(storage.image, branch, file, None, most) == Some((all, false)),
    ensures
        hands_out(handed, all),
{
    let image = storage.image;
    let page = |after: Option<BranchPosition>|
        position_cursor(branch_event_walk_page(storage, branch, Some(file), after, limit));
    let complete = |after: Option<BranchPosition>, rest: Seq<EventRecordView>|
        branch_file_events_after(image, branch, file, after, most) == Some((rest, false));
    assert forall|after: Option<BranchPosition>, rest: Seq<EventRecordView>| #[trigger]
        complete(after, rest) implies match page(after) {
        None => false,
        Some((first, cursor)) => {
            &&& first.len() <= rest.len()
            &&& first == rest.take(first.len() as int)
            &&& cursor is None ==> first == rest
            &&& cursor is Some ==> first.len() > 0 && complete(
                cursor,
                rest.skip(first.len() as int),
            )
        },
    } by {
        lemma_page_of_rest(branch_file_event_items(image, branch, file, after), limit, most, rest);
        if limit < rest.len() {
            let first = rest.take(limit as int);
            lemma_branch_file_events_resume(image, keys, branch, file, after, limit, first);
        } else {
            assert(rest.take(rest.len() as int) =~= rest);
        }
    }
    let _ = lemma_walk_hands_out(page, complete, states, handed, all, handed.len());
    assert(handed.take(handed.len() as int) =~= handed);
}

/// Without a sequence to pass, a listing of the events of a file that finds everything is a page of what
/// is found, and every page of that is listed.
proof fn lemma_file_walk_rest(
    items: Seq<Option<EventRecordView>>,
    limit: nat,
    most: nat,
    all: Seq<EventRecordView>,
)
    requires
        limit > 0,
        file_walk(items, None, most, Seq::empty()) == Some((all, false)),
    ensures
        file_walk(items, None, limit, Seq::empty()) == Some(
            if limit < all.len() {
                (all.take(limit as int), true)
            } else {
                (all, false)
            },
        ),
        limit < all.len() ==> file_walk(items.skip(limit as int), None, most, Seq::empty()) == Some(
            (all.skip(limit as int), false),
        ),
{
    let none = Seq::<EventRecordView>::empty();
    lemma_walk_is_page(items, most, none);
    assert(none + (page_of(items, most)->0).0 =~= (page_of(items, most)->0).0);
    lemma_page_of_rest(items, limit, most, all);
    lemma_walk_is_page(items, limit, none);
    assert(none + (page_of(items, limit)->0).0 =~= (page_of(items, limit)->0).0);
    if limit < all.len() {
        let rest = items.skip(limit as int);
        lemma_walk_is_page(rest, most, none);
        assert(none + (page_of(rest, most)->0).0 =~= (page_of(rest, most)->0).0);
    }
}

/// A walk over the events of a file on the active branch hands out every one of them once, in order,
/// where none has the last sequence there is.
pub proof fn lemma_file_event_walk_is_complete(
    storage: StorageView,
    keys: Seq<Seq<u8>>,
    file: FileIdentifier,
    limit: nat,
    states: Seq<PagedRecords<EventSequence, EventRecord>>,
    handed: Seq<Option<Result<EventRecord, FilesystemError>>>,
    most: nat,
    all: Seq<EventRecordView>,
)
    requires
        lists_keys(keys, storage.image.branch_file_events),
        keys_sized(storage.image.branch_file_events, 24),
        limit > 0,
        walked(
            |after: Option<EventSequence>|
                sequence_cursor(event_walk_page(storage, Some(file), after, limit)),
            states,
            handed,
        ),
        file_events_after(
            storage.image,
            BranchIdentifier(storage.write.active_branch_identifier),
            file,
            None,
            most,
        ) == Some((all, false)),
        forall|i: int| 0 <= i < all.len() ==> (#[trigger] all[i]).sequence.0 < u64::MAX,
    ensures
        hands_out(handed, all),
{
    let image = storage.image;
    let branch = BranchIdentifier(storage.write.active_branch_identifier);
    let page = |after: Option<EventSequence>|
        sequence_cursor(event_walk_page(storage, Some(file), after, limit));
    let complete = |after: Option<EventSequence>, rest: Seq<EventRecordView>|
        {
            &&& after is Some ==> (after->0).0 < u64::MAX
            &&& file_start(image, branch, after) is Some
            &&& (file_start(image, branch, after)->0).1 is None
            &&& file_events_after(image, branch, file, after, most) == Some((rest, false))
            &&& forall|i: int| 0 <= i < rest.len() ==> (#[trigger] rest[i]).sequence.0 < u64::MAX
        };
    assert forall|after: Option<EventSequence>, rest: Seq<EventRecordView>| #[trigger]
        complete(after, rest) implies match page(after) {
        None => false,
        Some((first, cursor)) => {
            &&& first.len() <= rest.len()
            &&& first == rest.take(first.len() as int)
            &&& cursor is None ==> first == rest
            &&& cursor is Some ==> first.len() > 0 && complete(
                cursor,
                rest.skip(first.len() as int),
            )
        },
    } by {
        let start = (file_start(image, branch, after)->0).0;
        let items = file_event_items(image, branch, file, start);
        lemma_file_walk_rest(items, limit, most, rest);
        if limit < rest.len() {
            let first = rest.take(limit as int);
            lemma_file_events_resume(image, keys, branch, file, after, limit, first);
            assert(first.last() == rest[limit - 1]);
            let others = rest.skip(limit as int);
            assert forall|i: int| 0 <= i < others.len() implies (#[trigger] others[i]).sequence.0
                < u64::MAX by {
                assert(others[i] == rest[i + limit]);
            }
        } else {
            assert(rest.take(rest.len() as int) =~= rest);
        }
    }
    assert(complete(None, all));
    let _ = lemma_walk_hands_out(page, complete, states, handed, all, handed.len());
    assert(handed.take(handed.len() as int) =~= handed);
}

/// The steps of a walk over the branches from its start: each state of the walk, and what each step
/// hands out when the walk loads the given pages.
pub open spec fn walked_branches(
    page: spec_fn(Option<BranchIdentifier>) -> Option<(Seq<BranchView>, bool)>,
    states: Seq<PagedRecords<BranchIdentifier, BranchRecord>>,
    handed: Seq<Option<Result<BranchRecord, FilesystemError>>>,
) -> bool {
    &&& states.len() == handed.len() + 1
    &&& unwalked(states[0])
    &&& forall|i: int|
        0 <= i < handed.len() ==> walks_branches(
            states[i],
            states[i + 1],
            #[trigger] handed[i],
            page(states[i].after),
        )
}

/// The steps hand out records that describe the branches in order, and after the last one nothing.
pub open spec fn hands_out_branches(
    handed: Seq<Option<Result<BranchRecord, FilesystemError>>>,
    all: Seq<BranchView>,
) -> bool {
    forall|i: int|
        0 <= i < handed.len() ==> match #[trigger] handed[i] {
            Some(Ok(record)) => i < all.len() && describes(record, all[i]),
            Some(Err(_)) => false,
            None => i >= all.len(),
        }
}

/// What a walk over the branches still has to hand out is its loaded records and then the given ones.
spec fn branches_on_course(
    image: Image,
    most: nat,
    state: PagedRecords<BranchIdentifier, BranchRecord>,
    left: Seq<BranchView>,
) -> bool {
    let loaded = state.remaining().len();
    &&& loaded <= left.len()
    &&& describe_all(state.remaining(), left.take(loaded as int))
    &&& state.exhausted ==> loaded == left.len()
    &&& !state.exhausted ==> branches_after(image, state.after, most) == Some(
        (left.skip(loaded as int), false),
    )
}

proof fn lemma_branch_walk_step(
    image: Image,
    keys: Seq<Seq<u8>>,
    limit: nat,
    most: nat,
    before: PagedRecords<BranchIdentifier, BranchRecord>,
    after: PagedRecords<BranchIdentifier, BranchRecord>,
    next: Option<Result<BranchRecord, FilesystemError>>,
    left: Seq<BranchView>,
)
    requires
        lists_keys(keys, image.branches),
        keys_sized(image.branches, 8),
        branches_placed(image),
        limit > 0,
        walks_branches(before, after, next, branches_after(image, before.after, limit)),
        branches_on_course(image, most, before, left),
    ensures
        left.len() > 0 ==> next is Some && next->0 is Ok && describes(next->0->Ok_0, left[0]),
        left.len() == 0 ==> next is None,
        branches_on_course(
            image,
            most,
            after,
            if left.len() > 0 {
                left.skip(1)
            } else {
                left
            },
        ),
{
    let loaded = before.remaining().len();
    if loaded > 0 {
        let front = left.take(loaded as int);
        assert(describes(before.remaining()[0], front[0]));
        assert(left.skip(1).skip(loaded - 1) =~= left.skip(loaded as int));
        assert forall|i: int| 0 <= i < loaded - 1 implies describes(
            #[trigger] after.remaining()[i],
            left.skip(1).take(loaded - 1)[i],
        ) by {
            assert(after.remaining()[i] == before.remaining()[i + 1]);
            assert(front[i + 1] == left[i + 1]);
        }
    } else if !before.exhausted {
        assert(left.skip(0) =~= left);
        lemma_branch_items(image, before.after, most);
        lemma_branch_items(image, before.after, limit);
        lemma_page_of_rest(branch_items(image, before.after), limit, most, left);
        let (first, more) = branches_after(image, before.after, limit)->0;
        if first.len() > 0 {
            assert(first[0] == left[0]);
            assert(left.skip(1).take(first.len() - 1) =~= first.skip(1));
            assert(left.skip(1).skip(first.len() - 1) =~= left.skip(first.len() as int));
            if more {
                let last = Some(BranchIdentifier(first.last().identifier));
                lemma_branches_resume(image, keys, before.after, limit, first);
                lemma_branch_items(image, last, most);
            }
        }
    }
}

proof fn lemma_branch_walk_hands_out(
    image: Image,
    keys: Seq<Seq<u8>>,
    limit: nat,
    most: nat,
    states: Seq<PagedRecords<BranchIdentifier, BranchRecord>>,
    handed: Seq<Option<Result<BranchRecord, FilesystemError>>>,
    all: Seq<BranchView>,
    count: nat,
)
    requires
        lists_keys(keys, image.branches),
        keys_sized(image.branches, 8),
        branches_placed(image),
        limit > 0,
        walked_branches(
            |after: Option<BranchIdentifier>| branches_after(image, after, limit),
            states,
            handed,
        ),
        branches_after(image, None, most) == Some((all, false)),
        count <= handed.len(),
    ensures
        hands_out_branches(handed.take(count as int), all),
        branches_on_course(
            image,
            most,
            states[count as int],
            all.skip(
                if count < all.len() {
                    count as int
                } else {
                    all.len() as int
                },
            ),
        ),
    decreases count,
{
    if count == 0 {
        assert(all.skip(0) =~= all);
    } else {
        let index = count - 1;
        let left = all.skip(
            if index < all.len() {
                index
            } else {
                all.len() as int
            },
        );
        lemma_branch_walk_hands_out(image, keys, limit, most, states, handed, all, index as nat);
        let page = |after: Option<BranchIdentifier>| branches_after(image, after, limit);
        assert(walks_branches(
            states[index],
            states[index + 1],
            handed[index],
            page(states[index].after),
        ));
        lemma_branch_walk_step(
            image,
            keys,
            limit,
            most,
            states[index],
            states[index + 1],
            handed[index],
            left,
        );
        assert forall|i: int| 0 <= i < count implies match #[trigger] handed.take(count as int)[i] {
            Some(Ok(record)) => i < all.len() && describes(record, all[i]),
            Some(Err(_)) => false,
            None => i >= all.len(),
        } by {
            if i < index {
                assert(handed.take(index)[i] == handed[i]);
            }
        }
        if index < all.len() {
            assert(left.skip(1) =~= all.skip(count as int));
        }
    }
}

/// A walk over the branches hands out every branch once, in the order of their numbers, where each is
/// stored under its own.
pub proof fn lemma_branch_walk_is_complete(
    image: Image,
    keys: Seq<Seq<u8>>,
    limit: nat,
    states: Seq<PagedRecords<BranchIdentifier, BranchRecord>>,
    handed: Seq<Option<Result<BranchRecord, FilesystemError>>>,
    most: nat,
    all: Seq<BranchView>,
)
    requires
        lists_keys(keys, image.branches),
        keys_sized(image.branches, 8),
        branches_placed(image),
        limit > 0,
        walked_branches(
            |after: Option<BranchIdentifier>| branches_after(image, after, limit),
            states,
            handed,
        ),
        branches_after(image, None, most) == Some((all, false)),
    ensures
        hands_out_branches(handed, all),
{
    lemma_branch_walk_hands_out(image, keys, limit, most, states, handed, all, handed.len());
    assert(handed.take(handed.len() as int) =~= handed);
}

} // verus!
