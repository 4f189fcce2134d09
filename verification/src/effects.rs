//! The whole effect of an operation on a consistent filesystem: when it succeeds, what it leaves of
//! names, files and snapshots, and the one event that it adds.

use vstd::prelude::*;

use crate::changes::{rename_change, ChangeView, InodeChange};
use crate::chunks::{range_bytes, range_readable};
use crate::commit::{next_position, placed_event};
use crate::database::SnapshotView;
use crate::depth::{lemma_append_keeps_levels, room};
use crate::durability::{lemma_commit_appends_event, persisted};
use crate::error::{FilesystemError, FuseError};
use crate::extents::{data_cuts, is_partition};
use crate::files::{
    byte_at, lemma_write_is_read_back, manifest_of, names_agree, sound_file, stocked,
};
use crate::filesystem::{
    EventKind, EventPayload, EventRecordView, EventSequence, FileEventPayloadPart, FileIdentifier,
};
use crate::history::{contents_at, event_of, manifest_of_part};
use crate::inode::{InodeView, StoredNodeKind, StoredTime};
use crate::links::{lemma_rename_counts_links, links_counted};
use crate::manifest::CONTENT_MANIFEST_MAX_DEPTH;
use crate::naming::{lemma_renamed_has_moved, lemma_renamed_inodes};
use crate::operations::{
    commit_planned, commits, consistent, faithful, lemma_operation_behaves,
    lemma_operation_keeps_consistent, lemma_parts_sound, planned, Operation, Planned,
};
use crate::payloads::lemma_write_keeps_both_parts;
use crate::soundness::{rooted, same_file};
use crate::storage::{
    content_sound, inode_commit, plain_commit, write_commit, PreparedView, StorageView,
};
use crate::success::{lemma_change_succeeds, lemma_write_succeeds, pieces_agree, sequences_given};
use crate::timeline::lemma_write_leaves_snapshot;
use crate::tree::tree_sound;
use crate::writes::{write_change, ContentChange};

verus! {

/// What an operation that answers with an inode prepares is the commit of the change that it plans.
pub proof fn lemma_inode_commit_is_planned(
    storage: StorageView,
    result: Result<InodeChange, FuseError>,
)
    ensures
        match (inode_commit(storage, result), result) {
            (Ok((_, prepared)), Ok(made)) => commit_planned(
                storage,
                Planned::of_change(made.change),
            ) == Some(prepared),
            (Err(_), Ok(made)) => commit_planned(
                storage,
                Planned::of_change(made.change),
            ) is None,
            (Ok(_), Err(_)) => false,
            (Err(_), Err(_)) => true,
        },
{
    reveal(commit_planned);
}

/// What an operation without an answer prepares is the commit of the change that it plans.
pub proof fn lemma_plain_commit_is_planned(
    storage: StorageView,
    result: Result<ChangeView, FuseError>,
)
    ensures
        match (plain_commit(storage, result), result) {
            (Ok(prepared), Ok(change)) => commit_planned(storage, Planned::of_change(change))
                == Some(prepared),
            (Err(_), Ok(change)) => commit_planned(storage, Planned::of_change(change)) is None,
            (Ok(_), Err(_)) => false,
            (Err(_), Err(_)) => true,
        },
{
    reveal(commit_planned);
}

/// What a change of file contents prepares is the commit of what it plans.
pub proof fn lemma_content_commit_is_planned(storage: StorageView, content: ContentChange)
    ensures
        match storage.prepare_content(content) {
            Ok(prepared) => commit_planned(storage, Planned::of_content(content)) == Some(prepared),
            Err(_) => commit_planned(storage, Planned::of_content(content)) is None,
        },
{
    reveal(commit_planned);
}

/// Every change of names or attributes that the rules allow is committed, as long as the branch has a
/// position left.
pub proof fn lemma_allowed_is_committed(
    storage: StorageView,
    operation: Operation,
    now: StoredTime,
    created_at: time::UtcDateTime,
)
    requires
        consistent(storage),
        planned(storage, operation, now, created_at) is Some,
        planned(storage, operation, now, created_at)->0.manifest is None,
    ensures
        commit_planned(storage, planned(storage, operation, now, created_at)->0) is Some
            <==> storage.active.branch.head_ordinal < u64::MAX,
{
    let made = planned(storage, operation, now, created_at)->0;
    assert(rooted(storage.namespace())) by {
        reveal(consistent);
    }
    lemma_operation_behaves(storage, operation, now, created_at);
    lemma_behaved_is_committed(storage, made.change);
}

proof fn lemma_behaved_is_committed(storage: StorageView, change: ChangeView)
    requires
        consistent(storage),
        storage.write.sequence_to_give() == Ok::<EventSequence, FuseError>(change.event.sequence),
    ensures
        commit_planned(storage, Planned::of_change(change)) is Some
            <==> storage.active.branch.head_ordinal < u64::MAX,
{
    reveal(consistent);
    reveal(commit_planned);
    lemma_change_succeeds(storage, change);
}

/// A commit adds its event as the newest one, at the next position of the branch, and no other.
pub proof fn lemma_commit_adds_event(
    storage: StorageView,
    made: Planned,
    prepared: PreparedView,
    other: u64,
)
    requires
        commit_planned(storage, made) == Some(prepared),
        crate::durability::contents_only(made.rows),
    ensures
        ({
            let after = storage.after(prepared);
            let sequence = made.change.event.sequence.0;
            &&& event_of(after.image, sequence) == Ok::<Option<EventRecordView>, FilesystemError>(
                Some(placed_event(storage.active, made.change.event)),
            )
            &&& event_of(storage.image, sequence) == Ok::<Option<EventRecordView>, FilesystemError>(
                None,
            )
            &&& other != sequence ==> event_of(after.image, other) == event_of(storage.image, other)
            &&& after.write.last_event_sequence == sequence
            &&& after.active.branch.head_ordinal == storage.active.branch.head_ordinal + 1
        }),
{
    reveal(commit_planned);
    lemma_commit_appends_event(
        storage,
        made.change,
        made.rows,
        made.payload,
        made.manifest,
        prepared,
        other,
    );
}

/// The commit of a write, where it succeeds.
#[verifier::opaque]
pub open spec fn committed_write(
    storage: StorageView,
    number: u64,
    offset: u64,
    data: Seq<u8>,
    append: bool,
    clear_privileges: bool,
    now: StoredTime,
    created_at: time::UtcDateTime,
) -> Option<PreparedView> {
    match write_commit(
        storage,
        number,
        offset,
        data,
        append,
        clear_privileges,
        now,
        created_at,
    ) {
        Ok(prepared) => Some(prepared),
        Err(_) => None,
    }
}

/// No two contents that meet in a write share a hash, and what it stores decodes back.
#[verifier::opaque]
pub open spec fn faithful_write(
    storage: StorageView,
    number: u64,
    offset: u64,
    data: Seq<u8>,
    append: bool,
    clear_privileges: bool,
    now: StoredTime,
    created_at: time::UtcDateTime,
) -> bool {
    match write_change(
        storage.image,
        storage.namespace(),
        storage.write,
        number,
        offset,
        data,
        append,
        clear_privileges,
        now,
        created_at,
    ) {
        Ok(content) => match storage.prepare_content(content) {
            Ok(prepared) => faithful(storage, Planned::of_content(content), prepared),
            Err(_) => true,
        },
        Err(_) => true,
    }
}

/// What a write that succeeds has planned and committed.
proof fn lemma_write_made(
    storage: StorageView,
    number: u64,
    offset: u64,
    data: Seq<u8>,
    append: bool,
    clear_privileges: bool,
    now: StoredTime,
    created_at: time::UtcDateTime,
    prepared: PreparedView,
)
    requires
        committed_write(
            storage,
            number,
            offset,
            data,
            append,
            clear_privileges,
            now,
            created_at,
        ) == Some(prepared),
        faithful_write(
            storage,
            number,
            offset,
            data,
            append,
            clear_privileges,
            now,
            created_at,
        ),
    ensures
        ({
            let content = write_change(
                storage.image,
                storage.namespace(),
                storage.write,
                number,
                offset,
                data,
                append,
                clear_privileges,
                now,
                created_at,
            )->Ok_0;
            &&& write_commit(
                storage,
                number,
                offset,
                data,
                append,
                clear_privileges,
                now,
                created_at,
            ) == Ok::<PreparedView, FuseError>(prepared)
            &&& content_sound(content)
            &&& names_agree(storage.image, prepared.batch)
            &&& commits(
                storage,
                Operation::Write { number, offset, data, append, clear_privileges },
                now,
                created_at,
                prepared,
            )
        }),
{
    reveal(committed_write);
    reveal(faithful_write);
    let content = write_change(
        storage.image,
        storage.namespace(),
        storage.write,
        number,
        offset,
        data,
        append,
        clear_privileges,
        now,
        created_at,
    )->Ok_0;
    assert(content_sound(content) && names_agree(storage.image, prepared.batch)) by {
        reveal(faithful);
        lemma_parts_sound(content);
    }
    assert(commit_planned(storage, Planned::of_content(content)) == Some(prepared)) by {
        reveal(commit_planned);
    }
}

/// The contents of a file after a write.
proof fn lemma_write_contents(
    storage: StorageView,
    number: u64,
    inode: InodeView,
    offset: u64,
    data: Seq<u8>,
    append: bool,
    clear_privileges: bool,
    now: StoredTime,
    created_at: time::UtcDateTime,
    levels: nat,
    prepared: PreparedView,
)
    requires
        consistent(storage),
        storage.namespace().inode(number) == Some(inode),
        sound_file(storage.image, inode, levels),
        levels <= CONTENT_MANIFEST_MAX_DEPTH,
        committed_write(
            storage,
            number,
            offset,
            data,
            append,
            clear_privileges,
            now,
            created_at,
        ) == Some(prepared),
        faithful_write(
            storage,
            number,
            offset,
            data,
            append,
            clear_privileges,
            now,
            created_at,
        ),
        data.len() > 0 ==> is_partition(data_cuts(data), data.len() as int),
    ensures
        ({
            let start = if append {
                inode.size
            } else {
                offset
            };
            let end = start + data.len();
            let after = storage.after(prepared);
            let new = after.namespace().inode(number)->0;
            &&& after.namespace().inode(number) is Some
            &&& new.size == if inode.size < end {
                end
            } else {
                inode.size as int
            }
            &&& sound_file(after.image, new, levels + 1)
            &&& forall|position: int|
                position >= 0 ==> (#[trigger] byte_at(after.image, new, position, levels + 1)) == (
                if start <= position < end {
                    data[position - start]
                } else {
                    byte_at(storage.image, inode, position, levels)
                })
        }),
{
    lemma_write_made(
        storage,
        number,
        offset,
        data,
        append,
        clear_privileges,
        now,
        created_at,
        prepared,
    );
    lemma_stocked(storage);
    lemma_write_is_read_back(
        storage,
        number,
        inode,
        offset,
        data,
        append,
        clear_privileges,
        now,
        created_at,
        prepared,
        levels,
    );
}

/// A write at or after the end of a file keeps its levels where there is room.
proof fn lemma_write_levels(
    storage: StorageView,
    number: u64,
    inode: InodeView,
    offset: u64,
    data: Seq<u8>,
    append: bool,
    clear_privileges: bool,
    now: StoredTime,
    created_at: time::UtcDateTime,
    levels: nat,
    prepared: PreparedView,
)
    requires
        consistent(storage),
        storage.namespace().inode(number) == Some(inode),
        sound_file(storage.image, inode, levels),
        levels <= CONTENT_MANIFEST_MAX_DEPTH,
        committed_write(
            storage,
            number,
            offset,
            data,
            append,
            clear_privileges,
            now,
            created_at,
        ) == Some(prepared),
        faithful_write(
            storage,
            number,
            offset,
            data,
            append,
            clear_privileges,
            now,
            created_at,
        ),
        data.len() > 0 ==> is_partition(data_cuts(data), data.len() as int),
    ensures
        ({
            let after = storage.after(prepared);
            let start = if append {
                inode.size
            } else {
                offset
            };
            start >= inode.size && data.len() > 0 && room(
                storage.image.manifests,
                manifest_of(inode),
                inode.size as int,
                levels,
            ) > 0 ==> sound_file(after.image, after.namespace().inode(number)->0, levels)
        }),
{
    lemma_write_made(
        storage,
        number,
        offset,
        data,
        append,
        clear_privileges,
        now,
        created_at,
        prepared,
    );
    lemma_stocked(storage);
    let start = if append {
        inode.size
    } else {
        offset
    };
    if start >= inode.size && data.len() > 0 && room(
        storage.image.manifests,
        manifest_of(inode),
        inode.size as int,
        levels,
    ) > 0 {
        lemma_append_keeps_levels(
            storage,
            number,
            inode,
            offset,
            data,
            append,
            clear_privileges,
            now,
            created_at,
            prepared,
            levels,
        );
    }
}

/// The parts that the event of a write keeps.
proof fn lemma_write_parts(
    storage: StorageView,
    number: u64,
    inode: InodeView,
    offset: u64,
    data: Seq<u8>,
    append: bool,
    clear_privileges: bool,
    now: StoredTime,
    created_at: time::UtcDateTime,
    levels: nat,
    prepared: PreparedView,
    from: u64,
    length: u64,
)
    requires
        consistent(storage),
        storage.namespace().inode(number) == Some(inode),
        sound_file(storage.image, inode, levels),
        levels <= CONTENT_MANIFEST_MAX_DEPTH,
        committed_write(
            storage,
            number,
            offset,
            data,
            append,
            clear_privileges,
            now,
            created_at,
        ) == Some(prepared),
        faithful_write(
            storage,
            number,
            offset,
            data,
            append,
            clear_privileges,
            now,
            created_at,
        ),
        data.len() > 0 ==> is_partition(data_cuts(data), data.len() as int),
        length <= usize::MAX,
    ensures
        ({
            let start = if append {
                inode.size
            } else {
                offset
            };
            let end = start + data.len();
            let old_end = if end < inode.size {
                end
            } else {
                inode.size as int
            };
            let after = storage.after(prepared).image;
            let sequence = (storage.write.last_event_sequence + 1) as u64;
            let data_part = manifest_of_part(after, sequence, FileEventPayloadPart::Written);
            let old_part = manifest_of_part(after, sequence, FileEventPayloadPart::Overwritten);
            &&& data.len() > 0 && from + length <= data.len() ==> data_part is Some
                && range_readable(
                after.manifests,
                after.chunks,
                data_part->0,
                from,
                length,
            ) && range_bytes(after.manifests, after.chunks, data_part->0, from, length)
                == data.subrange(from as int, from + length)
            &&& start < old_end && from + length <= old_end - start ==> old_part is Some
                && range_readable(
                after.manifests,
                after.chunks,
                old_part->0,
                from,
                length,
            ) && range_bytes(after.manifests, after.chunks, old_part->0, from, length) == Seq::new(
                length as nat,
                |k: int| byte_at(storage.image, inode, start + from + k, levels),
            )
        }),
{
    lemma_write_made(
        storage,
        number,
        offset,
        data,
        append,
        clear_privileges,
        now,
        created_at,
        prepared,
    );
    lemma_stocked(storage);
    lemma_write_keeps_both_parts(
        storage,
        number,
        inode,
        offset,
        data,
        append,
        clear_privileges,
        now,
        created_at,
        prepared,
        levels,
        from,
        length,
    );
}

/// The snapshot that a write leaves.
proof fn lemma_write_snapshot(
    storage: StorageView,
    number: u64,
    inode: InodeView,
    offset: u64,
    data: Seq<u8>,
    append: bool,
    clear_privileges: bool,
    now: StoredTime,
    created_at: time::UtcDateTime,
    levels: nat,
    prepared: PreparedView,
)
    requires
        consistent(storage),
        storage.namespace().inode(number) == Some(inode),
        sound_file(storage.image, inode, levels),
        levels <= CONTENT_MANIFEST_MAX_DEPTH,
        committed_write(
            storage,
            number,
            offset,
            data,
            append,
            clear_privileges,
            now,
            created_at,
        ) == Some(prepared),
        faithful_write(
            storage,
            number,
            offset,
            data,
            append,
            clear_privileges,
            now,
            created_at,
        ),
        data.len() > 0 ==> is_partition(data_cuts(data), data.len() as int),
    ensures
        ({
            let after = storage.after(prepared);
            let new = after.namespace().inode(number)->0;
            contents_at(after.image, FileIdentifier(number), next_position(storage.active)) == Some(
                SnapshotView {
                    file_size: new.size,
                    sequence: (storage.write.last_event_sequence + 1) as u64,
                    content_manifest_identifier: manifest_of(new),
                },
            )
        }),
{
    lemma_write_made(
        storage,
        number,
        offset,
        data,
        append,
        clear_privileges,
        now,
        created_at,
        prepared,
    );
    lemma_write_leaves_snapshot(
        storage,
        number,
        offset,
        data,
        append,
        clear_privileges,
        now,
        created_at,
        prepared,
    );
}

/// A write keeps a filesystem consistent.
proof fn lemma_write_consistent(
    storage: StorageView,
    number: u64,
    inode: InodeView,
    offset: u64,
    data: Seq<u8>,
    append: bool,
    clear_privileges: bool,
    now: StoredTime,
    created_at: time::UtcDateTime,
    levels: nat,
    prepared: PreparedView,
)
    requires
        consistent(storage),
        storage.namespace().inode(number) == Some(inode),
        sound_file(storage.image, inode, levels),
        levels <= CONTENT_MANIFEST_MAX_DEPTH,
        committed_write(
            storage,
            number,
            offset,
            data,
            append,
            clear_privileges,
            now,
            created_at,
        ) == Some(prepared),
        faithful_write(
            storage,
            number,
            offset,
            data,
            append,
            clear_privileges,
            now,
            created_at,
        ),
        data.len() > 0 ==> is_partition(data_cuts(data), data.len() as int),
    ensures
        consistent(storage.after(prepared)),
{
    lemma_write_made(
        storage,
        number,
        offset,
        data,
        append,
        clear_privileges,
        now,
        created_at,
        prepared,
    );
    lemma_operation_keeps_consistent(
        storage,
        Operation::Write { number, offset, data, append, clear_privileges },
        now,
        created_at,
        prepared,
    );
}

proof fn lemma_stocked(storage: StorageView)
    requires
        consistent(storage),
    ensures
        stocked(storage.image.manifests, storage.image.chunks),
{
    reveal(consistent);
}

/// A write succeeds and adds its event.
proof fn lemma_write_record(
    storage: StorageView,
    number: u64,
    inode: InodeView,
    offset: u64,
    data: Seq<u8>,
    append: bool,
    clear_privileges: bool,
    now: StoredTime,
    created_at: time::UtcDateTime,
    levels: nat,
)
    requires
        consistent(storage),
        storage.namespace().inode(number) == Some(inode),
        sound_file(storage.image, inode, levels),
        levels <= CONTENT_MANIFEST_MAX_DEPTH,
        (if append {
            inode.size
        } else {
            offset
        }) + data.len() <= u64::MAX,
        storage.write.last_event_sequence < u64::MAX,
        storage.active.branch.head_ordinal < u64::MAX,
        data.len() > 0 ==> is_partition(data_cuts(data), data.len() as int),
        pieces_agree(storage.image.chunks, data),
    ensures
        ({
            let start = if append {
                inode.size
            } else {
                offset
            };
            let end = start + data.len();
            let old_end = if end < inode.size {
                end
            } else {
                inode.size as int
            };
            let committed = committed_write(
                storage,
                number,
                offset,
                data,
                append,
                clear_privileges,
                now,
                created_at,
            );
            let sequence = (storage.write.last_event_sequence + 1) as u64;
            let found = event_of(storage.after(committed->0).image, sequence);
            let record = found->Ok_0->0;
            &&& committed is Some
            &&& found is Ok
            &&& found->Ok_0 is Some
            &&& record.kind == EventKind::FileWritten
            &&& record.file_identifier == Some(FileIdentifier(number))
            &&& record.offset == Some(start)
            &&& record.byte_length == Some(data.len() as u64)
            &&& record.payload == EventPayload::FileWrite {
                old_file_size: inode.size,
                new_file_size: if inode.size < end {
                    end as u64
                } else {
                    inode.size
                },
                overwritten_byte_length: if start < old_end {
                    (old_end - start) as u64
                } else {
                    0
                },
                written_byte_length: data.len() as u64,
            }
        }),
{
    reveal(committed_write);
    assert(persisted(storage) && crate::indexes::indexed(storage) && sequences_given(storage)
        && stocked(storage.image.manifests, storage.image.chunks)) by {
        reveal(consistent);
    }
    lemma_write_succeeds(
        storage,
        number,
        inode,
        offset,
        data,
        append,
        clear_privileges,
        now,
        created_at,
        levels,
    );
}

/// A write into a file of a consistent filesystem succeeds, unless its end does not fit, the sequences
/// or positions are used up, or the file is deeper than a reading goes. The filesystem stays
/// consistent. The file has the data where it was written and its old bytes elsewhere; a write at or
/// after its end adds a level only where there is no room. The one event that is added states offset,
/// length and sizes; its parts read as the data and as the bytes that were there before; and the
/// snapshot at its position is the file as it then is.
pub proof fn lemma_write_effects(
    storage: StorageView,
    number: u64,
    inode: InodeView,
    offset: u64,
    data: Seq<u8>,
    append: bool,
    clear_privileges: bool,
    now: StoredTime,
    created_at: time::UtcDateTime,
    levels: nat,
    from: u64,
    length: u64,
)
    requires
        consistent(storage),
        storage.namespace().inode(number) == Some(inode),
        sound_file(storage.image, inode, levels),
        levels <= CONTENT_MANIFEST_MAX_DEPTH,
        (if append {
            inode.size
        } else {
            offset
        }) + data.len() <= u64::MAX,
        storage.write.last_event_sequence < u64::MAX,
        storage.active.branch.head_ordinal < u64::MAX,
        data.len() > 0 ==> is_partition(data_cuts(data), data.len() as int),
        pieces_agree(storage.image.chunks, data),
        length <= usize::MAX,
        faithful_write(
            storage,
            number,
            offset,
            data,
            append,
            clear_privileges,
            now,
            created_at,
        ),
    ensures
        ({
            let start = if append {
                inode.size
            } else {
                offset
            };
            let end = start + data.len();
            let old_end = if end < inode.size {
                end
            } else {
                inode.size as int
            };
            let committed = committed_write(
                storage,
                number,
                offset,
                data,
                append,
                clear_privileges,
                now,
                created_at,
            );
            let prepared = committed->0;
            let after = storage.after(prepared);
            let new = after.namespace().inode(number)->0;
            let sequence = (storage.write.last_event_sequence + 1) as u64;
            let found = event_of(after.image, sequence);
            let record = found->Ok_0->0;
            let data_part = manifest_of_part(
                after.image,
                sequence,
                FileEventPayloadPart::Written,
            );
            let old_part = manifest_of_part(
                after.image,
                sequence,
                FileEventPayloadPart::Overwritten,
            );
            &&& committed is Some
            &&& consistent(after)
            &&& after.namespace().inode(number) is Some
            &&& new.size == if inode.size < end {
                end
            } else {
                inode.size as int
            }
            &&& sound_file(after.image, new, levels + 1)
            &&& forall|position: int|
                position >= 0 ==> (#[trigger] byte_at(after.image, new, position, levels + 1)) == (
                if start <= position < end {
                    data[position - start]
                } else {
                    byte_at(storage.image, inode, position, levels)
                })
            &&& start >= inode.size && data.len() > 0 && room(
                storage.image.manifests,
                manifest_of(inode),
                inode.size as int,
                levels,
            ) > 0 ==> sound_file(after.image, new, levels)
            &&& found is Ok
            &&& found->Ok_0 is Some
            &&& record.kind == EventKind::FileWritten
            &&& record.file_identifier == Some(FileIdentifier(number))
            &&& record.offset == Some(start)
            &&& record.byte_length == Some(data.len() as u64)
            &&& record.payload == EventPayload::FileWrite {
                old_file_size: inode.size,
                new_file_size: new.size,
                overwritten_byte_length: if start < old_end {
                    (old_end - start) as u64
                } else {
                    0
                },
                written_byte_length: data.len() as u64,
            }
            &&& data.len() > 0 && from + length <= data.len() ==> data_part is Some
                && range_readable(
                after.image.manifests,
                after.image.chunks,
                data_part->0,
                from,
                length,
            ) && range_bytes(
                after.image.manifests,
                after.image.chunks,
                data_part->0,
                from,
                length,
            ) == data.subrange(from as int, from + length)
            &&& start < old_end && from + length <= old_end - start ==> old_part is Some
                && range_readable(
                after.image.manifests,
                after.image.chunks,
                old_part->0,
                from,
                length,
            ) && range_bytes(
                after.image.manifests,
                after.image.chunks,
                old_part->0,
                from,
                length,
            ) == Seq::new(
                length as nat,
                |k: int| byte_at(storage.image, inode, start + from + k, levels),
            )
            &&& contents_at(
                after.image,
                FileIdentifier(number),
                next_position(storage.active),
            ) == Some(
                SnapshotView {
                    file_size: new.size,
                    sequence,
                    content_manifest_identifier: manifest_of(new),
                },
            )
        }),
{
    lemma_write_record(
        storage,
        number,
        inode,
        offset,
        data,
        append,
        clear_privileges,
        now,
        created_at,
        levels,
    );
    let prepared = committed_write(
        storage,
        number,
        offset,
        data,
        append,
        clear_privileges,
        now,
        created_at,
    )->0;
    lemma_write_consistent(
        storage,
        number,
        inode,
        offset,
        data,
        append,
        clear_privileges,
        now,
        created_at,
        levels,
        prepared,
    );
    lemma_write_contents(
        storage,
        number,
        inode,
        offset,
        data,
        append,
        clear_privileges,
        now,
        created_at,
        levels,
        prepared,
    );
    lemma_write_levels(
        storage,
        number,
        inode,
        offset,
        data,
        append,
        clear_privileges,
        now,
        created_at,
        levels,
        prepared,
    );
    lemma_write_parts(
        storage,
        number,
        inode,
        offset,
        data,
        append,
        clear_privileges,
        now,
        created_at,
        levels,
        prepared,
        from,
        length,
    );
    lemma_write_snapshot(
        storage,
        number,
        inode,
        offset,
        data,
        append,
        clear_privileges,
        now,
        created_at,
        levels,
        prepared,
    );
}

/// A rename that the rules allow is committed, as long as the branch has a position left, and keeps the
/// filesystem consistent. What had the old name has the new one, and no other name changes. The one
/// event that is added is about what was renamed. The contents of every file that is still there are
/// the same. Where the tree is sound and its links are counted, they stay counted; left out are a name
/// that is renamed to another name of the same file, and a directory that moves into one whose links
/// are used up.
pub proof fn lemma_rename_effects(
    storage: StorageView,
    parent: u64,
    name: Seq<u8>,
    new_parent: u64,
    new_name: Seq<u8>,
    no_replace: bool,
    now: StoredTime,
    created_at: time::UtcDateTime,
    change: ChangeView,
    other_parent: u64,
    other_name: Seq<u8>,
    number: u64,
)
    requires
        consistent(storage),
        rename_change(
            storage.namespace(),
            storage.write,
            parent,
            name,
            new_parent,
            new_name,
            no_replace,
            now,
            created_at,
        ) == Ok::<ChangeView, FuseError>(change),
        storage.active.branch.head_ordinal < u64::MAX,
        commit_planned(storage, Planned::of_change(change)) is Some ==> faithful(
            storage,
            Planned::of_change(change),
            commit_planned(storage, Planned::of_change(change))->0,
        ),
    ensures
        ({
            let before = storage.namespace();
            let committed = commit_planned(storage, Planned::of_change(change));
            let after = storage.after(committed->0);
            let moved = before.entry(parent, name);
            let sequence = (storage.write.last_event_sequence + 1) as u64;
            let found = event_of(after.image, sequence);
            &&& committed is Some
            &&& consistent(after)
            &&& moved is Some
            &&& after.namespace().entry(new_parent, new_name) == moved
            &&& (parent, name) != (new_parent, new_name) ==> after.namespace().entry(
                parent,
                name,
            ) is None
            &&& (other_parent, other_name) != (parent, name) && (other_parent, other_name) != (
                new_parent,
                new_name,
            ) ==> after.namespace().entry(other_parent, other_name) == before.entry(
                other_parent,
                other_name,
            )
            &&& no_replace ==> before.entry(new_parent, new_name) is None
            &&& found is Ok
            &&& found->Ok_0 is Some
            &&& found->Ok_0->0.kind == EventKind::NodeRenamed
            &&& found->Ok_0->0.file_identifier == crate::inode::file_identifier_of(
                moved->0.inode,
                moved->0.kind,
            )
            &&& after.write.last_event_sequence == sequence
            &&& after.namespace().inode(number) is Some ==> {
                &&& before.inode(number) is Some
                &&& same_file(before.inode(number)->0, after.namespace().inode(number)->0)
            }
            &&& tree_sound(before) && links_counted(before) && ((parent, name) == (
                new_parent,
                new_name,
            ) || before.entry(new_parent, new_name) is None || before.entry(
                new_parent,
                new_name,
            )->0.inode != moved->0.inode) && (moved->0.kind == StoredNodeKind::Directory
                && new_parent != parent && before.entry(new_parent, new_name) is None
                ==> before.inode(new_parent)->0.nlink < u32::MAX) ==> links_counted(
                after.namespace(),
            )
        }),
{
    let before = storage.namespace();
    let made = Planned::of_change(change);
    let operation = Operation::Rename { parent, name, new_parent, new_name, no_replace };
    lemma_allowed_is_committed(storage, operation, now, created_at);
    let prepared = commit_planned(storage, made)->0;
    lemma_operation_keeps_consistent(storage, operation, now, created_at, prepared);
    lemma_commit_adds_event(storage, made, prepared, 0);
    assert(prepared.mutation == change.mutation) by {
        reveal(commit_planned);
    }
    lemma_renamed_has_moved(
        before,
        storage.write,
        parent,
        name,
        new_parent,
        new_name,
        no_replace,
        now,
        created_at,
        change,
        other_parent,
        other_name,
    );
    lemma_renamed_inodes(
        before,
        storage.write,
        parent,
        name,
        new_parent,
        new_name,
        no_replace,
        now,
        created_at,
        change,
        number,
    );
    if tree_sound(before) && links_counted(before) && ((parent, name) == (new_parent, new_name)
        || before.entry(new_parent, new_name) is None || before.entry(
        new_parent,
        new_name,
    )->0.inode != before.entry(parent, name)->0.inode) && (before.entry(parent, name)->0.kind
        == StoredNodeKind::Directory && new_parent != parent && before.entry(
        new_parent,
        new_name,
    ) is None ==> before.inode(new_parent)->0.nlink < u32::MAX) {
        lemma_rename_counts_links(
            before,
            storage.write,
            parent,
            name,
            new_parent,
            new_name,
            no_replace,
            now,
            created_at,
            change,
        );
    }
}

} // verus!
