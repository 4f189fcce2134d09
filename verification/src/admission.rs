//! What tables are accepted when a filesystem is opened: their counters are past everything that was
//! given out, the newest event is the one that they tell, and the active branch stands on a state with
//! a root directory.

use vstd::prelude::*;

use crate::branches::branch_at;
use crate::database::Image;
use crate::error::FilesystemError;
use crate::filesystem::{BranchIdentifier, BranchPosition};
use crate::history::{event_of, root_of};
use crate::inode::StoredNodeKind;
use crate::keys::{lemma_u64_key_of, lemma_u64_key_order, lemma_u64_round_trip, u64_key, u64_of};
use crate::metadata::{
    active_branch_identifier_key, last_event_sequence_key, next_branch_identifier_key,
    next_inode_number_key, number_at, schema_version_key,
};
use crate::opening::{largest_inode, largest_key, stored_soundly};
use crate::persist::stored_state;
use crate::states::listed;
use crate::table::listed_keys;

verus! {

proof fn lemma_largest_key_bounds(keys: Seq<Seq<u8>>, least: u64, i: int)
    requires
        largest_key(keys, least) is Some,
    ensures
        least <= largest_key(keys, least)->0,
        0 <= i < keys.len() ==> keys[i].len() == 8 && u64_of(keys[i]) <= largest_key(
            keys,
            least,
        )->0,
    decreases keys.len(),
{
    if keys.len() > 0 {
        lemma_largest_key_bounds(keys.drop_last(), least, i);
        if 0 <= i < keys.len() - 1 {
            assert(keys.drop_last()[i] == keys[i]);
        }
    }
}

proof fn lemma_largest_inode_bounds(image: Image, keys: Seq<Seq<u8>>, i: int, number: u64)
    requires
        largest_inode(image, keys) is Some,
        0 <= i < keys.len(),
        ({
            let root = image.branch_roots[keys[i]];
            let state = stored_state(image.nodes, root->0.namespace_identifier);
            root is Some && state is Some ==> listed(state->0.inodes) && state->0.inode(
                number,
            ) is Some
        }),
    ensures
        ({
            let root = image.branch_roots[keys[i]];
            &&& root is Some
            &&& stored_state(image.nodes, root->0.namespace_identifier) is Some
            &&& number <= largest_inode(image, keys)->0
        }),
    decreases keys.len(),
{
    let root = image.branch_roots[keys.last()]->0;
    let state = stored_state(image.nodes, root.namespace_identifier)->0;
    let front = largest_inode(image, keys.drop_last())->0;
    if i == keys.len() - 1 {
        let inodes = listed_keys(state.inodes);
        assert(state.inodes.contains_key(u64_key(number)));
        let at = choose|at: int| 0 <= at < inodes.len() && inodes[at] == u64_key(number);
        lemma_largest_key_bounds(inodes, front, at);
        lemma_u64_round_trip(number);
    } else {
        assert(keys.drop_last()[i] == keys[i]);
        lemma_largest_inode_bounds(image, keys.drop_last(), i, number);
        lemma_largest_key_bounds(listed_keys(state.inodes), front, 0);
    }
}

/// Accepted tables are in the first layout, and the numbers of inodes that are still to be given out
/// start past the root directory.
pub proof fn lemma_accepted_layout(image: Image)
    requires
        stored_soundly(image),
    ensures
        number_at(image.metadata, schema_version_key()) == Ok::<u64, FilesystemError>(0),
        number_at(image.metadata, next_inode_number_key()) is Ok,
        number_at(image.metadata, next_inode_number_key())->Ok_0 >= 2,
{
}

/// In accepted tables no branch has a number that is still to be given out.
pub proof fn lemma_accepted_branch_is_older(image: Image, number: u64)
    requires
        stored_soundly(image),
        listed(image.branches),
        image.branches.contains_key(u64_key(number)),
    ensures
        number_at(image.metadata, next_branch_identifier_key()) is Ok,
        number < number_at(image.metadata, next_branch_identifier_key())->Ok_0,
{
    let keys = listed_keys(image.branches);
    let at = choose|at: int| 0 <= at < keys.len() && keys[at] == u64_key(number);
    lemma_largest_key_bounds(keys, 0, at);
    lemma_u64_round_trip(number);
}

/// In accepted tables every state that a branch went through can be read, and none has an inode with a
/// number that is still to be given out.
pub proof fn lemma_accepted_inode_is_older(image: Image, key: Seq<u8>, number: u64)
    requires
        stored_soundly(image),
        listed(image.branch_roots),
        image.branch_roots.contains_key(key),
        ({
            let root = image.branch_roots[key];
            let state = stored_state(image.nodes, root->0.namespace_identifier);
            root is Some && state is Some ==> listed(state->0.inodes) && state->0.inode(
                number,
            ) is Some
        }),
    ensures
        image.branch_roots[key] is Some,
        stored_state(image.nodes, image.branch_roots[key]->0.namespace_identifier) is Some,
        number_at(image.metadata, next_inode_number_key()) is Ok,
        number < number_at(image.metadata, next_inode_number_key())->Ok_0,
{
    let keys = listed_keys(image.branch_roots);
    let at = choose|at: int| 0 <= at < keys.len() && keys[at] == key;
    lemma_largest_inode_bounds(image, keys, at, number);
}

/// In accepted tables the sequence that they tell as the last is that of a readable event, and no event
/// has a later one.
pub proof fn lemma_accepted_event_is_last(image: Image, sequence: u64)
    requires
        stored_soundly(image),
        listed(image.events),
    ensures
        ({
            let last = number_at(image.metadata, last_event_sequence_key());
            &&& last is Ok
            &&& event_of(image, last->Ok_0) is Ok
            &&& event_of(image, last->Ok_0)->Ok_0 is Some
            &&& event_of(image, last->Ok_0)->Ok_0->0.sequence.0 == last->Ok_0
            &&& image.events.contains_key(u64_key(sequence)) ==> sequence <= last->Ok_0
        }),
{
    let keys = listed_keys(image.events);
    let last = number_at(image.metadata, last_event_sequence_key())->Ok_0;
    lemma_u64_key_of(keys.last());
    assert(keys.last() == u64_key(last));
    if image.events.contains_key(u64_key(sequence)) && last < sequence {
        let at = choose|at: int| 0 <= at < keys.len() && keys[at] == u64_key(sequence);
        lemma_u64_round_trip(sequence);
        assert(at < keys.len() - 1);
        assert(crate::bytes::bytes_before(keys[at], keys[keys.len() - 1]));
        lemma_u64_key_order(last, sequence);
        crate::bytes::lemma_bytes_before_asymmetric(u64_key(last), u64_key(sequence));
    }
}

/// In accepted tables the active branch is there, the state of its head is the one that is recorded at
/// its position, and that state has a root directory.
pub proof fn lemma_accepted_branch_stands(image: Image)
    requires
        stored_soundly(image),
    ensures
        ({
            let number = number_at(image.metadata, active_branch_identifier_key());
            let branch = branch_at(image, number->Ok_0);
            let head = BranchPosition {
                branch_identifier: BranchIdentifier(number->Ok_0),
                ordinal: branch->0.head_ordinal,
            };
            let state = stored_state(image.nodes, branch->0.namespace_identifier);
            &&& number is Ok
            &&& branch is Some
            &&& root_of(image, head) is Some
            &&& root_of(image, head)->0.sequence == branch->0.head_sequence
            &&& root_of(image, head)->0.namespace_identifier == branch->0.namespace_identifier
            &&& state is Some
            &&& state->0.inode(1) is Some
            &&& state->0.inode(1)->0.kind == StoredNodeKind::Directory
        }),
{
}

} // verus!
