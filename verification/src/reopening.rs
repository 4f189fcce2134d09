//! Opening again: what a filesystem has written out passes every check of an opening.

use vstd::prelude::*;

use crate::branches::{branch_at, named_branch};
use crate::counters::counted;
use crate::database::Image;
use crate::durability::{all_kept, kept, lemma_kept_is_stored, persisted};
use crate::history::record_at_key;
use crate::indexes::indexed;
use crate::inode::INODE_ROOT;
use crate::keys::{lemma_u64_key_of, lemma_u64_key_order, lemma_u64_round_trip, u64_key, u64_of};
use crate::opening::{
    active_branch_sound, counters_fresh, largest_inode, largest_key, newest_event_is, opened,
    stored_counters, stored_soundly,
};
use crate::persist::stored_state;
use crate::roots::{head_filed, rooted_branches};
use crate::soundness::{all_sound_states, lemma_head_is_sound};
use crate::states::lemma_finite_listed;
use crate::storage::StorageView;
use crate::table::listed_keys;

verus! {

/// The largest of numbers that are all below one is below it.
proof fn lemma_largest_key_below(keys: Seq<Seq<u8>>, least: u64, next: u64)
    requires
        least < next,
        forall|i: int|
            0 <= i < keys.len() ==> (#[trigger] keys[i]).len() == 8 && u64_of(keys[i]) < next,
    ensures
        largest_key(keys, least) is Some,
        largest_key(keys, least)->0 < next,
    decreases keys.len(),
{
    if keys.len() > 0 {
        let rest = keys.drop_last();
        assert forall|i: int| 0 <= i < rest.len() implies (#[trigger] rest[i]).len() == 8 && u64_of(
            rest[i],
        ) < next by {
            assert(rest[i] == keys[i]);
        }
        lemma_largest_key_below(rest, least, next);
        assert(keys[keys.len() - 1].len() == 8);
    }
}

/// The inode numbers of a kept state are below the next one.
proof fn lemma_state_numbers_below(image: Image, name: Seq<u8>, least: u64, next: u64)
    requires
        kept(image.nodes, name, next),
        least < next,
    ensures
        ({
            let state = stored_state(image.nodes, name)->0;
            &&& stored_state(image.nodes, name) is Some
            &&& largest_key(listed_keys(state.inodes), least) is Some
            &&& largest_key(listed_keys(state.inodes), least)->0 < next
        }),
{
    lemma_kept_is_stored(image.nodes, name, next);
    let state = stored_state(image.nodes, name)->0;
    let keys = listed_keys(state.inodes);
    lemma_finite_listed(state.inodes);
    assert forall|i: int| 0 <= i < keys.len() implies (#[trigger] keys[i]).len() == 8 && u64_of(
        keys[i],
    ) < next by {
        assert(state.inodes.contains_key(keys[i]));
        lemma_u64_key_of(keys[i]);
        assert(state.inode(u64_of(keys[i])) is Some);
    }
    lemma_largest_key_below(keys, least, next);
}

/// No stored state has an inode whose number is still to be given.
proof fn lemma_largest_inode_below(image: Image, keys: Seq<Seq<u8>>, next: u64)
    requires
        all_kept(image, next),
        INODE_ROOT < next,
        forall|i: int|
            0 <= i < keys.len() ==> image.branch_roots.contains_key(#[trigger] keys[i])
                && image.branch_roots[keys[i]] is Some,
    ensures
        largest_inode(image, keys) is Some,
        largest_inode(image, keys)->0 < next,
    decreases keys.len(),
{
    if keys.len() > 0 {
        let rest = keys.drop_last();
        assert forall|i: int| 0 <= i < rest.len() implies image.branch_roots.contains_key(
            #[trigger] rest[i],
        ) && image.branch_roots[rest[i]] is Some by {
            assert(rest[i] == keys[i]);
        }
        lemma_largest_inode_below(image, rest, next);
        let last = keys.last();
        assert(last == keys[keys.len() - 1]);
        lemma_state_numbers_below(
            image,
            image.branch_roots[last]->0.namespace_identifier,
            largest_inode(image, rest)->0,
            next,
        );
    }
}

/// The newest event has the last sequence.
proof fn lemma_newest_event(storage: StorageView)
    requires
        indexed(storage),
        counted(storage),
    ensures
        newest_event_is(storage.image, storage.write.last_event_sequence),
{
    let image = storage.image;
    let sequence = storage.write.last_event_sequence;
    let keys = listed_keys(image.events);
    assert(image.events.contains_key(u64_key(sequence)));
    assert(keys.contains(u64_key(sequence)));
    let at = choose|i: int| 0 <= i < keys.len() && keys[i] == u64_key(sequence);
    let last = keys.last();
    assert(last == keys[keys.len() - 1]);
    assert(image.events.contains_key(last));
    assert(record_at_key(image, last) is Some);
    lemma_u64_key_of(last);
    lemma_u64_round_trip(sequence);
    if u64_of(last) != sequence {
        assert(at < keys.len() - 1);
        lemma_u64_key_order(sequence, u64_of(last));
    }
}

/// The numbers that were given out are below the counters.
proof fn lemma_counters_are_fresh(storage: StorageView)
    requires
        persisted(storage),
        indexed(storage),
        counted(storage),
        rooted_branches(storage),
    ensures
        counters_fresh(
            storage.image,
            storage.write.next_inode_number,
            storage.write.next_branch_identifier,
        ),
{
    let image = storage.image;
    let roots = listed_keys(image.branch_roots);
    let branches = listed_keys(image.branches);
    assert forall|i: int| 0 <= i < roots.len() implies image.branch_roots.contains_key(
        #[trigger] roots[i],
    ) && image.branch_roots[roots[i]] is Some by {
        assert(image.branch_roots.contains_key(roots[i]));
    }
    lemma_largest_inode_below(image, roots, storage.write.next_inode_number);
    assert forall|i: int| 0 <= i < branches.len() implies (#[trigger] branches[i]).len() == 8
        && u64_of(branches[i]) < storage.write.next_branch_identifier by {
        assert(image.branches.contains_key(branches[i]));
        assert(named_branch(image, branches[i]) is Some);
        lemma_u64_key_of(branches[i]);
        assert(branch_at(image, u64_of(branches[i])) is Some);
    }
    assert(branch_at(image, storage.active.branch.identifier) is Some);
    lemma_largest_key_below(branches, 0, storage.write.next_branch_identifier);
}

/// The active branch stands where its newest state says, and that state has a root directory.
proof fn lemma_active_is_sound(storage: StorageView)
    requires
        indexed(storage),
        rooted_branches(storage),
        all_sound_states(storage),
    ensures
        active_branch_sound(storage.image, storage.write.active_branch_identifier),
{
    let number = storage.write.active_branch_identifier;
    assert(branch_at(storage.image, number) == Some(storage.active.branch));
    assert(head_filed(storage.image, number));
    lemma_head_is_sound(storage, number);
}

/// What a filesystem has written out passes every check of an opening, and opening it gives the
/// counters, the branch and a state that shows the same.
pub proof fn lemma_stored_soundly(storage: StorageView)
    requires
        persisted(storage),
        indexed(storage),
        counted(storage),
        rooted_branches(storage),
        all_sound_states(storage),
    ensures
        stored_soundly(storage.image),
        opened(storage.image) is Some,
        opened(storage.image)->0.write == storage.write,
        opened(storage.image)->0.active.branch == storage.active.branch,
        opened(storage.image)->0.image == storage.image,
        crate::states::alike(opened(storage.image)->0.namespace(), storage.namespace()),
{
    assert(stored_counters(storage.image) == Some(storage.write));
    lemma_newest_event(storage);
    lemma_counters_are_fresh(storage);
    lemma_active_is_sound(storage);
}

} // verus!
