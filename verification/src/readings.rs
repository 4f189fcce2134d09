//! Reading from a consistent filesystem: every file of every state is sound, a snapshot reads as the
//! file did right after its event, what was written is read back, and none of that changes later.

use vstd::prelude::*;

use crate::chunks::{lemma_reading_bytes, range_bytes, range_readable};
use crate::database::Image;
use crate::error::FuseError;
use crate::files::{
    byte_at, lemma_collected_ready, lemma_file_kept, lemma_reading_gives_bytes, manifest_of,
    sound_file, stocked,
};
use crate::filesystem::FileSnapshot;
use crate::history::{clipped, manifest_of_contents, root_of};
use crate::inode::{InodeView, StoredNodeKind};
use crate::manifest::CONTENT_MANIFEST_MAX_DEPTH;
use crate::operations::consistent;
use crate::persist::stored_state;
use crate::recorded::{recorded_as, snapshots_filed, states_readable};
use crate::roots::{roots_filed, roots_rise};
use crate::runs::{lemma_run_is_consistent, lemma_run_keeps_past, past_kept, run, Step};
use crate::soundness::stored_sound;
use crate::storage::{read_result, readable_length, StorageView};

verus! {

/// Every regular file of a consistent filesystem is sound, at most as deep as there were events.
pub proof fn lemma_every_file_is_sound(storage: StorageView, number: u64)
    requires
        consistent(storage),
        storage.namespace().inode(number) is Some,
        storage.namespace().inode(number)->0.kind == StoredNodeKind::RegularFile,
    ensures
        stocked(storage.image.manifests, storage.image.chunks),
        sound_file(
            storage.image,
            storage.namespace().inode(number)->0,
            storage.write.last_event_sequence as nat,
        ),
{
    reveal(consistent);
}

/// Reading a regular file of a consistent filesystem gives its bytes from the offset on, as many as are
/// asked for and there, unless the file is deeper than a reading goes.
pub proof fn lemma_every_file_is_read(
    storage: StorageView,
    number: u64,
    offset: u64,
    size: u32,
    levels: nat,
)
    requires
        consistent(storage),
        storage.namespace().inode(number) is Some,
        storage.namespace().inode(number)->0.kind == StoredNodeKind::RegularFile,
        levels <= CONTENT_MANIFEST_MAX_DEPTH + 1,
        storage.write.last_event_sequence <= levels || sound_file(
            storage.image,
            storage.namespace().inode(number)->0,
            levels,
        ),
    ensures
        ({
            let inode = storage.namespace().inode(number)->0;
            &&& sound_file(storage.image, inode, levels)
            &&& read_result(storage.image, storage.namespace(), number, offset, size) == Ok::<
                Seq<u8>,
                FuseError,
            >(
                Seq::new(
                    if offset >= inode.size {
                        0
                    } else {
                        readable_length(inode.size, offset, size) as nat
                    },
                    |k: int| byte_at(storage.image, inode, offset + k, levels),
                ),
            )
        }),
{
    let inode = storage.namespace().inode(number)->0;
    lemma_every_file_is_sound(storage, number);
    if storage.write.last_event_sequence <= levels {
        lemma_file_kept(
            storage.image,
            storage.image,
            inode,
            storage.write.last_event_sequence as nat,
            levels,
        );
    }
    lemma_reading_gives_bytes(
        storage.image,
        storage.namespace(),
        number,
        inode,
        offset,
        size,
        levels,
    );
}

/// In a consistent filesystem the states and snapshots are filed, their sequences rise along each branch,
/// and every state can be loaded, so that the snapshot found at or before a sequence is the newest one.
pub proof fn lemma_snapshots_are_in_order(storage: StorageView)
    requires
        consistent(storage),
    ensures
        roots_filed(storage.image),
        roots_rise(storage.image),
        states_readable(storage.image),
        snapshots_filed(storage.image),
{
    reveal(consistent);
    let levels = storage.write.last_event_sequence as nat;
    assert forall|key: Seq<u8>| #[trigger]
        storage.image.branch_roots.contains_key(key) && storage.image.branch_roots[key] is Some implies
        stored_state(
        storage.image.nodes,
        storage.image.branch_roots[key]->0.namespace_identifier,
    ) is Some by {
        assert(stored_sound(
            storage.image,
            storage.image.branch_roots[key]->0.namespace_identifier,
            levels,
        ));
    }
}

/// What the state at the position of a snapshot has of the file.
pub open spec fn recorded_inode(image: Image, snapshot: FileSnapshot) -> InodeView {
    let root = root_of(image, snapshot.branch_position)->0;
    stored_state(image.nodes, root.namespace_identifier)->0.inode(
        snapshot.file_identifier.0,
    )->0
}

/// A snapshot is of a sound regular file of the state at its position.
pub proof fn lemma_snapshot_is_sound(storage: StorageView, snapshot: FileSnapshot)
    requires
        consistent(storage),
        recorded_as(storage.image, snapshot),
    ensures
        ({
            let inode = recorded_inode(storage.image, snapshot);
            &&& stocked(storage.image.manifests, storage.image.chunks)
            &&& inode.kind == StoredNodeKind::RegularFile
            &&& inode.size == snapshot.file_size
            &&& sound_file(storage.image, inode, storage.write.last_event_sequence as nat)
            &&& manifest_of_contents(
                storage.image,
                snapshot.file_identifier,
                snapshot.branch_position,
            ) == Some(manifest_of(inode))
        }),
{
    reveal(consistent);
    let position = snapshot.branch_position;
    let root = root_of(storage.image, position)->0;
    let key = crate::keys::pair_key(position.branch_identifier.0, position.ordinal);
    assert(storage.image.branch_roots.contains_key(key));
    assert(stored_sound(
        storage.image,
        root.namespace_identifier,
        storage.write.last_event_sequence as nat,
    ));
    let state = stored_state(storage.image.nodes, root.namespace_identifier)->0;
    assert(state.inode(snapshot.file_identifier.0) is Some);
}

/// A range of a snapshot reads as the file did right after the event of the snapshot, up to its end,
/// unless the file is deeper than a reading goes.
pub proof fn lemma_snapshot_reads_state(
    storage: StorageView,
    snapshot: FileSnapshot,
    offset: u64,
    length: u64,
    levels: nat,
)
    requires
        consistent(storage),
        recorded_as(storage.image, snapshot),
        levels <= CONTENT_MANIFEST_MAX_DEPTH + 1,
        sound_file(storage.image, recorded_inode(storage.image, snapshot), levels),
        length <= usize::MAX,
    ensures
        ({
            let image = storage.image;
            let inode = recorded_inode(image, snapshot);
            let manifest = manifest_of_contents(
                image,
                snapshot.file_identifier,
                snapshot.branch_position,
            );
            let count = clipped(snapshot.file_size, offset, length);
            &&& manifest is Some
            &&& count > 0 ==> range_readable(
                image.manifests,
                image.chunks,
                manifest->0,
                offset,
                count,
            )
            &&& count > 0 ==> range_bytes(
                image.manifests,
                image.chunks,
                manifest->0,
                offset,
                count,
            ) == Seq::new(count as nat, |k: int| byte_at(image, inode, offset + k, levels))
        }),
{
    let image = storage.image;
    let inode = recorded_inode(image, snapshot);
    let count = clipped(snapshot.file_size, offset, length);
    lemma_snapshot_is_sound(storage, snapshot);
    let manifest = manifest_of(inode);
    if count > 0 {
        let end = (offset + count) as u64;
        crate::contents::lemma_reading_follows_cells(
            image.manifests,
            manifest,
            offset,
            end,
            levels,
        );
        lemma_collected_ready(image.manifests, image.chunks, manifest, offset, end, 0);
        let bytes = range_bytes(image.manifests, image.chunks, manifest, offset, count);
        let expected = Seq::new(count as nat, |k: int| byte_at(image, inode, offset + k, levels));
        assert forall|k: int| 0 <= k < count implies bytes[k] == #[trigger] expected[k] by {
            lemma_reading_bytes(
                image.manifests,
                image.chunks,
                manifest,
                offset,
                count,
                levels,
                k,
            );
        }
        assert(bytes =~= expected);
    }
}

/// Whatever is done later, a sound file keeps its bytes.
pub proof fn lemma_bytes_stay(
    states: Seq<StorageView>,
    steps: Seq<Step>,
    i: int,
    j: int,
    inode: InodeView,
    levels: nat,
)
    requires
        run(states, steps),
        consistent(states[0]),
        0 <= i <= j < states.len(),
        sound_file(states[i].image, inode, levels),
    ensures
        sound_file(states[j].image, inode, levels),
        forall|position: int| #[trigger]
            byte_at(states[j].image, inode, position, levels) == byte_at(
                states[i].image,
                inode,
                position,
                levels,
            ),
{
    lemma_run_is_consistent(states, steps, i);
    lemma_run_keeps_past(states, steps, i, j);
    assert(stocked(states[i].image.manifests, states[i].image.chunks)) by {
        reveal(consistent);
    }
    assert(states[i].image.manifests.submap_of(states[j].image.manifests)
        && states[i].image.chunks.submap_of(states[j].image.chunks)) by {
        reveal(past_kept);
    }
    lemma_file_kept(states[i].image, states[j].image, inode, levels, levels);
}

/// Whatever is done later, a snapshot stays what it was: it is still of the same file of the same state,
/// with the same bytes.
pub proof fn lemma_snapshot_stays(
    states: Seq<StorageView>,
    steps: Seq<Step>,
    i: int,
    j: int,
    snapshot: FileSnapshot,
    levels: nat,
)
    requires
        run(states, steps),
        consistent(states[0]),
        0 <= i <= j < states.len(),
        recorded_as(states[i].image, snapshot),
    ensures
        ({
            let inode = recorded_inode(states[i].image, snapshot);
            &&& recorded_as(states[j].image, snapshot)
            &&& recorded_inode(states[j].image, snapshot) == inode
            &&& sound_file(states[i].image, inode, levels) ==> sound_file(
                states[j].image,
                inode,
                levels,
            ) && forall|position: int| #[trigger]
                byte_at(states[j].image, inode, position, levels) == byte_at(
                    states[i].image,
                    inode,
                    position,
                    levels,
                )
        }),
{
    let inode = recorded_inode(states[i].image, snapshot);
    crate::runs::lemma_past_is_read_later(
        states,
        steps,
        i,
        j,
        snapshot.branch_position,
        snapshot.file_identifier,
        0,
    );
    if sound_file(states[i].image, inode, levels) {
        lemma_bytes_stay(states, steps, i, j, inode, levels);
    }
}

} // verus!
