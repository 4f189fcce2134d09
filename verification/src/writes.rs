//! Changing file contents: writing data and changing the size of a file.

use vstd::prelude::*;

use crate::bytes::copy_bytes;
use crate::changes::{
    clear_privileges, inode_of, known_path, optional_inode_path, require_inode, without_privileges,
    ChangeView, PlannedChange,
};
use crate::chunks::{
    chunks_ready, data_puts, pieces_accepted, put_pending_extents, validate_stored_extents,
};
use crate::commit::{payload_named, CommitEventPayloads, PayloadExtents};
use crate::database::{Batch, BatchView, Database, Image, WriteState};
use crate::edit::{
    all_sound, appended_plan, manifest_puts, put_appended_content_manifest,
    put_content_manifest_range, put_replaced_content_manifest, range_plan, replaced_plan,
    ManifestPlan,
};
use crate::error::{Errno, FuseError};
use crate::extents::{
    chunk_bytes, data_cuts, extent_views, extents_slice, is_partition, lemma_placed_pieces,
    placed_data, slice_extents, stored_extents_from_pending, ExtentView, StoredExtent,
};
use crate::filesystem::{
    EventKind, EventPayload, EventRecord, EventRecordView, EventSequence, FileIdentifier,
};
use crate::hash::Blobs;
use crate::inode::{InodeView, StoredInode, StoredNodeKind, StoredTime};
use crate::manifest::{content_manifest_extents_in_range, extents_in_range};
use crate::namespace::{MaterializedBranchState, MutationView, Namespace, StoredMutation};

verus! {

/// A change of file contents to be committed.
#[derive(Debug, PartialEq, Eq)]
pub struct PlannedContent {
    /// The inode after the change.
    pub inode: StoredInode,
    /// The event and the mutation.
    pub change: PlannedChange,
    /// What is stored beside the event.
    pub payloads: CommitEventPayloads,
    /// The chunks and manifests to store.
    pub batch: Batch,
}

/// The value of a change of file contents.
pub ghost struct ContentChange {
    pub inode: InodeView,
    pub change: ChangeView,
    pub payload: PayloadExtents,
    pub plan: ManifestPlan,
    pub rows: BatchView,
}

/// A planned change of file contents agrees with its value.
pub open spec fn planned_as(planned: PlannedContent, expected: ContentChange) -> bool {
    &&& planned.inode@ == expected.inode
    &&& planned.change@ == expected.change
    &&& planned.payloads.event_payload_extents@ == expected.payload
    &&& crate::bytes::optional_view(planned.payloads.snapshot_content_manifest_identifier) == Some(
        expected.plan.identifier,
    )
    &&& planned.batch@ == expected.rows
}

/// The extents of a range of a file, moved to the start; `None` where they cannot be read or their
/// chunks are not ready.
pub open spec fn old_extents(
    manifests: Blobs,
    chunks: Blobs,
    manifest: Seq<u8>,
    start: u64,
    end: u64,
) -> Option<Seq<ExtentView>> {
    match extents_in_range(manifests, manifest, start, end) {
        None => None,
        Some(found) => match extents_slice(found, start, end, 0) {
            None => None,
            Some(sliced) => if chunks_ready(chunks, sliced) {
                Some(sliced)
            } else {
                None
            },
        },
    }
}

/// Reads the extents of a range of a file, moved to the start.
fn read_old_extents(database: &Database, manifest: &[u8], start: u64, end: u64) -> (extents: Result<
    Vec<StoredExtent>,
    FuseError,
>)
    ensures
        match extents {
            Ok(extents) => old_extents(
                database@.manifests,
                database@.chunks,
                manifest@,
                start,
                end,
            ) == Some(extent_views(extents@)),
            Err(error) => error == FuseError::Integrity && old_extents(
                database@.manifests,
                database@.chunks,
                manifest@,
                start,
                end,
            ) is None,
        },
{
    let found = match content_manifest_extents_in_range(
        &database.content_manifest_nodes,
        manifest,
        start,
        end,
    ) {
        Err(_) => return Err(FuseError::Integrity),
        Ok(extents) => extents,
    };
    let sliced = match slice_extents(found.as_slice(), start, end, 0) {
        Err(_) => return Err(FuseError::Integrity),
        Ok(extents) => extents,
    };
    match validate_stored_extents(&database.content_chunks, sliced.as_slice()) {
        Err(error) => Err(error),
        Ok(_) => Ok(sliced),
    }
}

/// The extents that a write overwrites: none past the end of the file.
pub open spec fn overwritten_by_write(
    image: Image,
    manifest: Seq<u8>,
    old_size: u64,
    offset: u64,
    end: u64,
) -> Option<Seq<ExtentView>> {
    if offset >= old_size {
        Some(Seq::empty())
    } else {
        old_extents(
            image.manifests,
            image.chunks,
            manifest,
            offset,
            if end < old_size {
                end
            } else {
                old_size
            },
        )
    }
}

/// The manifest after a write: appended to at or past the end of the file, else replaced in part.
pub open spec fn manifest_after_write(
    manifests: Blobs,
    manifest: Seq<u8>,
    old_size: u64,
    offset: u64,
    end: u64,
    data: Seq<u8>,
) -> Option<ManifestPlan> {
    if offset >= old_size {
        appended_plan(manifests, manifest, old_size, placed_data(offset, data))
    } else {
        replaced_plan(manifest, old_size, offset, end, placed_data(offset, data))
    }
}

/// The change that writes data into a regular file, at its end where appending is asked for.
pub open spec fn write_change(
    image: Image,
    namespace: Namespace,
    write: WriteState,
    number: u64,
    offset: u64,
    data: Seq<u8>,
    append: bool,
    clear_privileges: bool,
    now: StoredTime,
    created_at: time::UtcDateTime,
) -> Result<ContentChange, FuseError> {
    match inode_of(namespace, number) {
        Err(error) => Err(error),
        Ok(inode) => {
            let start = if append {
                inode.size
            } else {
                offset
            };
            let end = (start + data.len()) as u64;
            if inode.kind != StoredNodeKind::RegularFile {
                Err(FuseError::Errno(Errno::EISDIR))
            } else if start + data.len() > u64::MAX {
                Err(FuseError::Errno(Errno::EFBIG))
            } else if write.sequence_to_give() is Err || inode.content_manifest_identifier is None {
                Err(FuseError::Integrity)
            } else {
                let sequence = write.sequence_to_give()->Ok_0;
                let manifest = inode.content_manifest_identifier->0;
                let overwritten = overwritten_by_write(image, manifest, inode.size, start, end);
                let plan = manifest_after_write(
                    image.manifests,
                    manifest,
                    inode.size,
                    start,
                    end,
                    data,
                );
                if overwritten is None || plan is None || !pieces_accepted(
                    image.chunks,
                    data,
                    data_cuts(data),
                ) {
                    Err(FuseError::Integrity)
                } else {
                    Ok(
                        written_content(
                            image,
                            namespace,
                            number,
                            inode,
                            sequence,
                            start,
                            end,
                            data,
                            clear_privileges,
                            overwritten->0,
                            plan->0,
                            now,
                            created_at,
                        ),
                    )
                }
            }
        },
    }
}

/// The change that writes data, once the overwritten extents and the new manifest are known.
pub open spec fn written_content(
    image: Image,
    namespace: Namespace,
    number: u64,
    inode: InodeView,
    sequence: EventSequence,
    start: u64,
    end: u64,
    data: Seq<u8>,
    clear_privileges: bool,
    overwritten: Seq<ExtentView>,
    plan: ManifestPlan,
    now: StoredTime,
    created_at: time::UtcDateTime,
) -> ContentChange {
    let new_size = if inode.size < end {
        end
    } else {
        inode.size
    };
    let overwritten_end = if end < inode.size {
        end
    } else {
        inode.size
    };
    let stored = InodeView {
        size: new_size,
        content_manifest_identifier: Some(plan.identifier),
        mtime: now,
        ctime: now,
        mode: if clear_privileges {
            without_privileges(inode.mode)
        } else {
            inode.mode
        },
        ..inode
    };
    ContentChange {
        inode: stored,
        change: ChangeView {
            event: EventRecordView::plain(
                sequence,
                EventKind::FileWritten,
                created_at,
                Some(FileIdentifier(number)),
                known_path(namespace, number, stored),
                Some(start),
                Some(data.len() as u64),
            ).carrying(
                EventPayload::FileWrite {
                    old_file_size: inode.size,
                    new_file_size: new_size,
                    overwritten_byte_length: if start < overwritten_end {
                        (overwritten_end - start) as u64
                    } else {
                        0
                    },
                    written_byte_length: data.len() as u64,
                },
            ),
            mutation: MutationView::nothing().with_inode(number, stored),
            next_inode_number: None,
        },
        payload: PayloadExtents::FileWrite(overwritten, placed_data(0, data)),
        plan,
        rows: BatchView {
            chunks: data_puts(image.chunks, data),
            manifests: manifest_puts(plan.nodes),
            ..BatchView::nothing()
        },
    }
}

/// What planning a change of file contents gives.
pub open spec fn plans_content(
    result: Result<PlannedContent, FuseError>,
    expected: Result<ContentChange, FuseError>,
) -> bool {
    match result {
        Ok(planned) => {
            &&& expected is Ok
            &&& planned_as(planned, expected->Ok_0)
            &&& all_sound(expected->Ok_0.plan.nodes)
            &&& payload_named(expected->Ok_0.payload)
        },
        Err(error) => expected == Err::<ContentChange, FuseError>(error),
    }
}

/// Plans the writing of data into a regular file.
pub fn plan_write(
    database: &Database,
    state: &MaterializedBranchState,
    write_state: WriteState,
    inode_number: u64,
    offset: u64,
    data: &[u8],
    append: bool,
    clear_suid_sgid: bool,
    now: StoredTime,
    created_at: time::UtcDateTime,
) -> (result: Result<PlannedContent, FuseError>)
    ensures
        plans_content(
            result,
            write_change(
                database@,
                state@,
                write_state,
                inode_number,
                offset,
                data@,
                append,
                clear_suid_sgid,
                now,
                created_at,
            ),
        ),
        result is Ok && data@.len() > 0 ==> is_partition(data_cuts(data@), data@.len() as int),
{
    let inode = match require_inode(state, inode_number) {
        Err(error) => return Err(error),
        Ok(inode) => inode,
    };
    if inode.kind != StoredNodeKind::RegularFile {
        return Err(FuseError::Errno(Errno::EISDIR));
    }
    let start: u64 = if append {
        inode.size
    } else {
        offset
    };
    let length: usize = data.len();
    let end: u64 = match start.checked_add(length as u64) {
        None => return Err(FuseError::Errno(Errno::EFBIG)),
        Some(end) => end,
    };
    let event_sequence = match write_state.next_event_sequence() {
        Err(error) => return Err(error),
        Ok(sequence) => sequence,
    };
    let old_size: u64 = inode.size;
    let previous = match &inode.content_manifest_identifier {
        None => return Err(FuseError::Integrity),
        Some(identifier) => copy_bytes(identifier.as_slice()),
    };
    let new_size: u64 = if old_size < end {
        end
    } else {
        old_size
    };
    let overwritten_end: u64 = if end < old_size {
        end
    } else {
        old_size
    };
    let is_append_write = start >= old_size;
    let written_chunks = chunk_bytes(data);
    proof {
        lemma_placed_pieces(start, written_chunks@, data@);
        lemma_placed_pieces(0, written_chunks@, data@);
    }
    let written_extents = match stored_extents_from_pending(start, written_chunks.as_slice()) {
        Err(error) => return Err(error),
        Ok(extents) => extents,
    };
    let payload_extents = match stored_extents_from_pending(0, written_chunks.as_slice()) {
        Err(error) => return Err(error),
        Ok(extents) => extents,
    };
    let overwritten_extents: Vec<StoredExtent> = if is_append_write {
        Vec::new()
    } else {
        match read_old_extents(database, previous.as_slice(), start, overwritten_end) {
            Err(error) => return Err(error),
            Ok(extents) => extents,
        }
    };
    proof {
        if is_append_write {
            assert(extent_views(overwritten_extents@) =~= Seq::<ExtentView>::empty());
        }
    }
    let mut batch = Batch::new();
    match put_pending_extents(
        &database.content_chunks,
        &mut batch.content_chunks,
        data,
        written_chunks.as_slice(),
    ) {
        Err(error) => return Err(error),
        Ok(_) => {},
    }
    let written = if is_append_write {
        put_appended_content_manifest(
            &database.content_manifest_nodes,
            &mut batch.content_manifest_nodes,
            previous.as_slice(),
            old_size,
            written_extents.as_slice(),
        )
    } else {
        put_replaced_content_manifest(
            &mut batch.content_manifest_nodes,
            previous.as_slice(),
            old_size,
            start,
            end,
            written_extents.as_slice(),
        )
    };
    let content_manifest_identifier = match written {
        Err(_) => return Err(FuseError::Integrity),
        Ok(identifier) => identifier,
    };
    let ghost plan = manifest_after_write(
        database@.manifests,
        previous@,
        old_size,
        start,
        end,
        data@,
    )->0;
    proof {
        let rows = BatchView {
            chunks: data_puts(database@.chunks, data@),
            manifests: manifest_puts(plan.nodes),
            ..BatchView::nothing()
        };
        assert(batch@ =~= rows);
    }
    let mut inode = inode;
    inode.size = new_size;
    inode.content_manifest_identifier = Some(copy_bytes(content_manifest_identifier.as_slice()));
    inode.mtime = now;
    inode.ctime = now;
    if clear_suid_sgid {
        inode.mode = clear_privileges(inode.mode);
    }
    let mut mutation = StoredMutation::default();
    mutation.put_inode(inode_number, &inode);
    let event = EventRecord::new(
        event_sequence,
        EventKind::FileWritten,
        created_at,
        Some(FileIdentifier::new(inode_number)),
        optional_inode_path(inode_number, &inode, state),
        Some(start),
        Some(length as u64),
    ).with_payload(
        EventPayload::FileWrite {
            old_file_size: old_size,
            new_file_size: new_size,
            overwritten_byte_length: if start < overwritten_end {
                overwritten_end - start
            } else {
                0
            },
            written_byte_length: length as u64,
        },
    );
    Ok(
        PlannedContent {
            inode,
            change: PlannedChange { event, mutation, next_inode_number: None },
            payloads: CommitEventPayloads::file_write(
                overwritten_extents,
                payload_extents,
                content_manifest_identifier,
            ),
            batch,
        },
    )
}

/// The manifest after a change of size: the same for a longer file, else a part of it.
pub open spec fn manifest_after_resize(manifest: Seq<u8>, old_size: u64, new_size: u64) -> Option<
    ManifestPlan,
> {
    if new_size > old_size {
        Some(ManifestPlan { identifier: manifest, nodes: Seq::empty() })
    } else {
        range_plan(manifest, 0, new_size)
    }
}

/// The change that gives a regular file another size: none where it has that size. A longer file reads
/// as zeros at its end; what a shorter file loses is kept with the event.
pub open spec fn resize_change(
    image: Image,
    namespace: Namespace,
    write: WriteState,
    number: u64,
    inode: InodeView,
    new_size: u64,
    created_at: time::UtcDateTime,
) -> Result<Option<ContentChange>, FuseError> {
    if inode.kind != StoredNodeKind::RegularFile {
        Err(FuseError::Errno(Errno::EINVAL))
    } else if inode.size == new_size {
        Ok(None)
    } else if write.sequence_to_give() is Err || inode.content_manifest_identifier is None {
        Err(FuseError::Integrity)
    } else {
        let manifest = inode.content_manifest_identifier->0;
        let overwritten = if new_size < inode.size {
            old_extents(image.manifests, image.chunks, manifest, new_size, inode.size)
        } else {
            Some(Seq::empty())
        };
        let plan = manifest_after_resize(manifest, inode.size, new_size);
        if overwritten is None || plan is None {
            Err(FuseError::Integrity)
        } else {
            let stored = InodeView {
                size: new_size,
                content_manifest_identifier: Some(plan->0.identifier),
                ..inode
            };
            Ok(
                Some(
                    ContentChange {
                        inode: stored,
                        change: ChangeView {
                            event: EventRecordView::plain(
                                write.sequence_to_give()->Ok_0,
                                EventKind::FileWritten,
                                created_at,
                                Some(FileIdentifier(number)),
                                known_path(namespace, number, stored),
                                Some(
                                    if new_size < inode.size {
                                        new_size
                                    } else {
                                        inode.size
                                    },
                                ),
                                Some(0),
                            ).carrying(
                                EventPayload::FileWrite {
                                    old_file_size: inode.size,
                                    new_file_size: new_size,
                                    overwritten_byte_length: if new_size < inode.size {
                                        (inode.size - new_size) as u64
                                    } else {
                                        0
                                    },
                                    written_byte_length: 0,
                                },
                            ),
                            mutation: MutationView::nothing().with_inode(number, stored),
                            next_inode_number: None,
                        },
                        payload: PayloadExtents::FileWrite(overwritten->0, Seq::empty()),
                        plan: plan->0,
                        rows: BatchView {
                            manifests: manifest_puts(plan->0.nodes),
                            ..BatchView::nothing()
                        },
                    },
                ),
            )
        }
    }
}

/// Plans another size of a regular file.
pub fn plan_resize(
    database: &Database,
    state: &MaterializedBranchState,
    write_state: WriteState,
    inode_number: u64,
    inode: &StoredInode,
    new_size: u64,
    created_at: time::UtcDateTime,
) -> (result: Result<Option<PlannedContent>, FuseError>)
    ensures
        ({
            let expected = resize_change(
                database@,
                state@,
                write_state,
                inode_number,
                inode@,
                new_size,
                created_at,
            );
            match result {
                Ok(Some(planned)) => {
                    &&& expected is Ok
                    &&& expected->Ok_0 is Some
                    &&& planned_as(planned, expected->Ok_0->0)
                    &&& all_sound(expected->Ok_0->0.plan.nodes)
                    &&& payload_named(expected->Ok_0->0.payload)
                },
                Ok(None) => expected == Ok::<Option<ContentChange>, FuseError>(None),
                Err(error) => expected == Err::<Option<ContentChange>, FuseError>(error),
            }
        }),
{
    if inode.kind != StoredNodeKind::RegularFile {
        return Err(FuseError::Errno(Errno::EINVAL));
    }
    let old_size: u64 = inode.size;
    if old_size == new_size {
        return Ok(None);
    }
    let previous = match &inode.content_manifest_identifier {
        None => return Err(FuseError::Integrity),
        Some(identifier) => copy_bytes(identifier.as_slice()),
    };
    let shrinks = new_size < old_size;
    let overwritten_extents: Vec<StoredExtent> = if shrinks {
        match read_old_extents(database, previous.as_slice(), new_size, old_size) {
            Err(error) => return Err(error),
            Ok(extents) => extents,
        }
    } else {
        Vec::new()
    };
    proof {
        if !shrinks {
            assert(extent_views(overwritten_extents@) =~= Seq::<ExtentView>::empty());
        }
    }
    let event_sequence = match write_state.next_event_sequence() {
        Err(error) => return Err(error),
        Ok(sequence) => sequence,
    };
    let mut batch = Batch::new();
    let content_manifest_identifier = if shrinks {
        match put_content_manifest_range(
            &mut batch.content_manifest_nodes,
            previous.as_slice(),
            0,
            new_size,
        ) {
            Err(_) => return Err(FuseError::Integrity),
            Ok(identifier) => identifier,
        }
    } else {
        copy_bytes(previous.as_slice())
    };
    let ghost plan = manifest_after_resize(previous@, old_size, new_size)->0;
    proof {
        let rows = BatchView { manifests: manifest_puts(plan.nodes), ..BatchView::nothing() };
        assert(batch@ =~= rows);
    }
    let mut resized = inode.clone();
    resized.size = new_size;
    resized.content_manifest_identifier = Some(
        copy_bytes(content_manifest_identifier.as_slice()),
    );
    let mut mutation = StoredMutation::default();
    mutation.put_inode(inode_number, &resized);
    let event = EventRecord::new(
        event_sequence,
        EventKind::FileWritten,
        created_at,
        Some(FileIdentifier::new(inode_number)),
        optional_inode_path(inode_number, &resized, state),
        Some(
            if shrinks {
                new_size
            } else {
                old_size
            },
        ),
        Some(0),
    ).with_payload(
        EventPayload::FileWrite {
            old_file_size: old_size,
            new_file_size: new_size,
            overwritten_byte_length: if shrinks {
                old_size - new_size
            } else {
                0
            },
            written_byte_length: 0,
        },
    );
    let none: Vec<StoredExtent> = Vec::new();
    proof {
        assert(extent_views(none@) =~= Seq::<ExtentView>::empty());
    }
    Ok(
        Some(
            PlannedContent {
                inode: resized,
                change: PlannedChange { event, mutation, next_inode_number: None },
                payloads: CommitEventPayloads::file_write(
                    overwritten_extents,
                    none,
                    content_manifest_identifier,
                ),
                batch,
            },
        ),
    )
}

} // verus!
