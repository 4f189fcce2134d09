//! What history holds byte for byte: the contents of a file at a position stay readable, and an event
//! gives back what it wrote and what it overwrote.

use vstd::prelude::*;

use crate::chunks::{
    data_puts, file_byte, lemma_reading_bytes, pieces_accepted, range_bytes, range_readable,
};
use crate::commit::{
    part_manifests, payload_manifests, payload_rows, placed_event, EVENT_PAYLOAD_PART_OVERWRITTEN,
    EVENT_PAYLOAD_PART_WRITTEN,
};
use crate::contents::{
    cell, complete, lemma_complete_extends, lemma_placed_data,
    lemma_reading_follows_cells, readable_extents, stores,
};
use crate::database::{put_blobs, put_rows, Image};
use crate::durability::lemma_commit_rows;
use crate::edit::{extents_plan, sound};
use crate::error::FuseError;
use crate::extents::{
    data_cuts, extent_cell, extents_slice, is_partition, lemma_slice_keeps_cells, placed_data,
    ExtentView,
};
use crate::files::{
    byte_at, lemma_cell_ready, lemma_collected_ready, lemma_content_rows, lemma_data_held,
    lemma_resize_keeps_bytes, lemma_write_is_read_back, manifest_of, names_agree, sound_file,
    stocked, uncollided,
};
use crate::filesystem::FileEventPayloadPart;
use crate::hash::Blobs;
use crate::history::manifest_of_part;
use crate::inode::{InodeView, StoredTime};
use crate::keys::part_key;
use crate::manifest::{
    collected, collected_children, empty_identifier, extents_in_range, manifest_at, ChildView,
    Manifest, CONTENT_MANIFEST_MAX_DEPTH,
};
use crate::storage::{
    content_sound, resize_commit, write_commit, EntrySnapshot, PreparedView, StorageView,
};
use crate::writes::{old_extents, resize_change, write_change, ContentChange};

verus! {

/// Reading a range of a stored manifest gives the bytes that it describes.
pub proof fn lemma_range_gives_bytes(
    image: Image,
    manifest: Seq<u8>,
    offset: u64,
    length: u64,
    levels: nat,
)
    requires
        stocked(image.manifests, image.chunks),
        complete(image.manifests, manifest, levels),
        levels <= CONTENT_MANIFEST_MAX_DEPTH + 1,
        offset + length <= u64::MAX,
        length <= usize::MAX,
    ensures
        range_readable(image.manifests, image.chunks, manifest, offset, length),
        range_bytes(image.manifests, image.chunks, manifest, offset, length) == Seq::new(
            length as nat,
            |k: int| file_byte(image.manifests, image.chunks, manifest, offset + k, levels),
        ),
{
    let end = (offset + length) as u64;
    lemma_reading_follows_cells(image.manifests, manifest, offset, end, levels);
    if length > 0 {
        lemma_collected_ready(image.manifests, image.chunks, manifest, offset, end, 0);
    }
    let expected = Seq::new(
        length as nat,
        |k: int| file_byte(image.manifests, image.chunks, manifest, offset + k, levels),
    );
    let read = range_bytes(image.manifests, image.chunks, manifest, offset, length);
    assert forall|k: int| 0 <= k < length implies read[k] == #[trigger] expected[k] by {
        lemma_reading_bytes(image.manifests, image.chunks, manifest, offset, length, levels, k);
    }
    assert(read =~= expected);
}

/// What a range of a stored manifest holds stays the same when the stores grow.
pub proof fn lemma_contents_stay(
    image: Image,
    later: Image,
    manifest: Seq<u8>,
    offset: u64,
    length: u64,
    levels: nat,
)
    requires
        stocked(image.manifests, image.chunks),
        stocked(later.manifests, later.chunks),
        image.manifests.submap_of(later.manifests),
        image.chunks.submap_of(later.chunks),
        complete(image.manifests, manifest, levels),
        levels <= CONTENT_MANIFEST_MAX_DEPTH + 1,
        offset + length <= u64::MAX,
        length <= usize::MAX,
    ensures
        range_readable(later.manifests, later.chunks, manifest, offset, length),
        range_bytes(later.manifests, later.chunks, manifest, offset, length) == range_bytes(
            image.manifests,
            image.chunks,
            manifest,
            offset,
            length,
        ),
{
    lemma_complete_extends(image.manifests, later.manifests, manifest, levels, levels);
    lemma_range_gives_bytes(image, manifest, offset, length, levels);
    lemma_range_gives_bytes(later, manifest, offset, length, levels);
    assert forall|position: int| #[trigger]
        file_byte(later.manifests, later.chunks, manifest, position, levels) == file_byte(
            image.manifests,
            image.chunks,
            manifest,
            position,
            levels,
        ) by {
        let place = cell(image.manifests, manifest, position, levels);
        assert(cell(later.manifests, manifest, position, levels) == place);
        if place is Some {
            lemma_cell_ready(image.manifests, image.chunks, manifest, position, levels);
            assert(image.chunks.dom().contains((place->0).0));
            assert(later.chunks.dom().contains((place->0).0));
        }
    }
    assert(range_bytes(later.manifests, later.chunks, manifest, offset, length) =~= range_bytes(
        image.manifests,
        image.chunks,
        manifest,
        offset,
        length,
    ));
}

proof fn lemma_slice_readable(extents: Seq<ExtentView>, start: u64, end: u64, base: u64)
    requires
        readable_extents(extents),
        extents_slice(extents, start, end, base) is Some,
        start <= end,
        base + (end - start) <= u64::MAX,
    ensures
        readable_extents(extents_slice(extents, start, end, base)->0),
    decreases extents.len(),
{
    if start < end && extents.len() > 0 {
        let front = extents.drop_last();
        assert(readable_extents(front)) by {
            assert forall|i: int| 0 <= i < front.len() implies ({
                let extent = #[trigger] front[i];
                extent.end() <= u64::MAX && extent.chunk_offset + extent.length <= u64::MAX
            }) by {
                assert(front[i] == extents[i]);
            }
        }
        lemma_slice_readable(front, start, end, base);
        let last = extents[extents.len() - 1];
        assert(last.end() <= u64::MAX && last.chunk_offset + last.length <= u64::MAX);
    }
}

proof fn lemma_collected_readable(
    nodes: Blobs,
    name: Seq<u8>,
    start: u64,
    end: u64,
    depth: int,
    levels: nat,
)
    requires
        complete(nodes, name, levels),
        collected(nodes, name, start, end, depth) is Some,
        start <= end,
    ensures
        readable_extents(collected(nodes, name, start, end, depth)->0),
    decreases levels, 0nat,
{
    if name != empty_identifier() {
        match manifest_at(nodes, name) {
            None => {},
            Some(Manifest::Extents(extents)) => {
                lemma_slice_readable(extents, start, end, start);
            },
            Some(Manifest::Concat(children)) => {
                lemma_collected_children_readable(
                    nodes,
                    children,
                    start,
                    end,
                    depth + 1,
                    (levels - 1) as nat,
                );
            },
        }
    }
}

proof fn lemma_collected_children_readable(
    nodes: Blobs,
    children: Seq<ChildView>,
    start: u64,
    end: u64,
    depth: int,
    levels: nat,
)
    requires
        forall|i: int|
            0 <= i < children.len() ==> complete(nodes, (#[trigger] children[i]).identifier, levels),
        collected_children(nodes, children, start, end, depth) is Some,
        start <= end,
    ensures
        readable_extents(collected_children(nodes, children, start, end, depth)->0),
    decreases levels, children.len() + 1,
{
    if children.len() > 0 {
        let child = children[children.len() - 1];
        let rest = children.drop_last();
        assert forall|i: int| 0 <= i < rest.len() implies complete(
            nodes,
            (#[trigger] rest[i]).identifier,
            levels,
        ) by {
            assert(rest[i] == children[i]);
        }
        lemma_collected_children_readable(nodes, rest, start, end, depth, levels);
        if !(child.end() <= start || child.logical_offset >= end) {
            lemma_collected_readable(
                nodes,
                child.identifier,
                if start > child.logical_offset { start } else { child.logical_offset },
                if (end as int) < child.end() { end } else { child.end() as u64 },
                depth,
                levels,
            );
        }
    }
}

/// A list of extents that is stored, or has nothing in it, describes just what its extents do.
proof fn lemma_extents_stored(nodes: Blobs, extents: Seq<ExtentView>, position: int)
    requires
        stores(nodes, extents_plan(extents).nodes),
        readable_extents(extents),
    ensures
        complete(nodes, extents_plan(extents).identifier, 1),
        cell(nodes, extents_plan(extents).identifier, position, 1) == extent_cell(
            extents,
            position,
        ),
{
    let name = extents_plan(extents).identifier;
    if extents.len() == 0 {
        assert(extents =~= Seq::empty());
    } else {
        let stored = extents_plan(extents).nodes[0];
        assert(stored == Manifest::Extents(extents));
        assert(sound(stored));
    }
}

proof fn lemma_part_stored(
    storage: StorageView,
    content: ContentChange,
    prepared: PreparedView,
)
    requires
        storage.prepare_content(content) == Ok::<PreparedView, FuseError>(prepared),
        crate::durability::contents_only(content.rows),
        content.payload is FileWrite,
        content.change.event.overwritten_length() is Some,
        content.change.event.written_length() is Some,
    ensures
        ({
            let after = storage.after(prepared).image;
            let event = content.change.event;
            let sequence = event.sequence.0;
            let (overwritten, written) = (
                content.payload->FileWrite_0,
                content.payload->FileWrite_1,
            );
            &&& event.overwritten_length()->0 > 0 ==> manifest_of_part(
                after,
                sequence,
                FileEventPayloadPart::Overwritten,
            ) == Some(extents_plan(overwritten).identifier)
            &&& event.written_length()->0 > 0 ==> manifest_of_part(
                after,
                sequence,
                FileEventPayloadPart::Written,
            ) == Some(extents_plan(written).identifier)
        }),
{
    let event = content.change.event;
    let sequence = event.sequence.0;
    let record = placed_event(storage.active, event);
    lemma_commit_rows(
        storage,
        content.change,
        content.rows,
        content.payload,
        Some(content.plan.identifier),
        prepared,
    );
    let rows = payload_rows(sequence, record, content.payload)->0.payloads;
    let first_key = part_key(sequence, EVENT_PAYLOAD_PART_OVERWRITTEN);
    let second_key = part_key(sequence, EVENT_PAYLOAD_PART_WRITTEN);
    assert(first_key != second_key) by {
        assert(first_key.last() == EVENT_PAYLOAD_PART_OVERWRITTEN);
        assert(second_key.last() == EVENT_PAYLOAD_PART_WRITTEN);
    }
    reveal_with_fuel(put_rows, 3);
    assert(record.overwritten_length() == event.overwritten_length());
    assert(record.written_length() == event.written_length());
    if event.overwritten_length()->0 > 0 && event.written_length()->0 > 0 {
        assert(rows.len() == 2);
        assert(rows[0].0 == first_key);
        assert(rows[1].0 == second_key);
        assert(rows.drop_last().len() == 1);
        assert(rows.drop_last()[0] == rows[0]);
        assert(rows.drop_last().drop_last().len() == 0);
    } else if event.overwritten_length()->0 > 0 {
        assert(rows.len() == 1);
        assert(rows[0].0 == first_key);
    } else if event.written_length()->0 > 0 {
        assert(rows.len() == 1);
        assert(rows[0].0 == second_key);
    }
}

/// The bytes of a part of an event: those of its list of extents, from its start on.
proof fn lemma_part_read(
    image: Image,
    extents: Seq<ExtentView>,
    offset: u64,
    length: u64,
    expected: Seq<u8>,
)
    requires
        stocked(image.manifests, image.chunks),
        stores(image.manifests, extents_plan(extents).nodes),
        readable_extents(extents),
        offset + length <= expected.len() <= u64::MAX,
        length <= usize::MAX,
        forall|position: int|
            0 <= position < expected.len() ==> expected[position] == (match #[trigger] extent_cell(
                extents,
                position,
            ) {
                None => 0,
                Some(place) => image.chunks[place.0][place.1],
            }),
    ensures
        ({
            let manifest = extents_plan(extents).identifier;
            &&& range_readable(image.manifests, image.chunks, manifest, offset, length)
            &&& range_bytes(image.manifests, image.chunks, manifest, offset, length)
                == expected.subrange(offset as int, offset + length)
        }),
{
    let manifest = extents_plan(extents).identifier;
    lemma_extents_stored(image.manifests, extents, 0);
    lemma_range_gives_bytes(image, manifest, offset, length, 1);
    let read = range_bytes(image.manifests, image.chunks, manifest, offset, length);
    let part = expected.subrange(offset as int, offset + length);
    assert forall|k: int| 0 <= k < length implies read[k] == #[trigger] part[k] by {
        lemma_extents_stored(image.manifests, extents, offset + k);
        assert(part[k] == expected[offset + k]);
        let found = extent_cell(extents, offset + k);
        assert(read[k] == file_byte(image.manifests, image.chunks, manifest, offset + k, 1));
    }
    assert(read =~= part);
}

/// Old extents of a sound file give its bytes.
proof fn lemma_old_bytes(
    image: Image,
    later: Image,
    inode: InodeView,
    start: u64,
    end: u64,
    levels: nat,
    position: int,
)
    requires
        stocked(image.manifests, image.chunks),
        sound_file(image, inode, levels),
        levels <= CONTENT_MANIFEST_MAX_DEPTH + 1,
        image.chunks.submap_of(later.chunks),
        start < end,
        old_extents(image.manifests, image.chunks, manifest_of(inode), start, end) is Some,
        0 <= position < end - start,
    ensures
        ({
            let extents = old_extents(
                image.manifests,
                image.chunks,
                manifest_of(inode),
                start,
                end,
            )->0;
            &&& readable_extents(extents)
            &&& byte_at(image, inode, start + position, levels) == (match extent_cell(
                extents,
                position,
            ) {
                None => 0,
                Some(place) => later.chunks[place.0][place.1],
            })
        }),
{
    let manifest = manifest_of(inode);
    lemma_reading_follows_cells(image.manifests, manifest, start, end, levels);
    lemma_collected_readable(image.manifests, manifest, start, end, 0, levels);
    let found = extents_in_range(image.manifests, manifest, start, end)->0;
    lemma_slice_readable(found, start, end, 0);
    lemma_slice_keeps_cells(found, start, end, 0, position);
    let place = cell(image.manifests, manifest, start + position, levels);
    assert(extent_cell(found, start + position) == place);
    if place is Some {
        lemma_cell_ready(image.manifests, image.chunks, manifest, start + position, levels);
        assert(image.chunks.dom().contains((place->0).0));
        assert(later.chunks.dom().contains((place->0).0));
    }
}

/// Reading the stored extents of new data gives the data.
proof fn lemma_new_part_read(before: Blobs, image: Image, data: Seq<u8>, offset: u64, length: u64)
    requires
        stocked(image.manifests, image.chunks),
        stores(image.manifests, extents_plan(placed_data(0, data)).nodes),
        data.len() > 0,
        is_partition(data_cuts(data), data.len() as int),
        pieces_accepted(before, data, data_cuts(data)),
        uncollided(before, data_puts(before, data)),
        image.chunks == put_blobs(before, data_puts(before, data)),
        offset + length <= data.len() <= u64::MAX,
        length <= usize::MAX,
    ensures
        ({
            let manifest = extents_plan(placed_data(0, data)).identifier;
            &&& range_readable(image.manifests, image.chunks, manifest, offset, length)
            &&& range_bytes(image.manifests, image.chunks, manifest, offset, length)
                == data.subrange(offset as int, offset + length)
        }),
{
    let extents = placed_data(0, data);
    lemma_data_held(before, image.chunks, data);
    lemma_placed_data(image.chunks, data, 0, extents_plan(extents).identifier);
    lemma_part_read(image, extents, offset, length, data);
}

/// Reading the stored extents of a part of a file gives the bytes that the file had there.
proof fn lemma_old_part_read(
    image: Image,
    later: Image,
    inode: InodeView,
    start: u64,
    end: u64,
    levels: nat,
    offset: u64,
    length: u64,
)
    requires
        stocked(image.manifests, image.chunks),
        stocked(later.manifests, later.chunks),
        sound_file(image, inode, levels),
        levels <= CONTENT_MANIFEST_MAX_DEPTH + 1,
        image.chunks.submap_of(later.chunks),
        start < end,
        old_extents(image.manifests, image.chunks, manifest_of(inode), start, end) is Some,
        stores(
            later.manifests,
            extents_plan(
                old_extents(image.manifests, image.chunks, manifest_of(inode), start, end)->0,
            ).nodes,
        ),
        offset + length <= end - start,
        length <= usize::MAX,
    ensures
        ({
            let manifest = extents_plan(
                old_extents(image.manifests, image.chunks, manifest_of(inode), start, end)->0,
            ).identifier;
            &&& range_readable(later.manifests, later.chunks, manifest, offset, length)
            &&& range_bytes(later.manifests, later.chunks, manifest, offset, length) == Seq::new(
                length as nat,
                |k: int| byte_at(image, inode, start + offset + k, levels),
            )
        }),
{
    let extents = old_extents(
        image.manifests,
        image.chunks,
        manifest_of(inode),
        start,
        end,
    )->0;
    let expected = Seq::new(
        (end - start) as nat,
        |k: int| byte_at(image, inode, start + k, levels),
    );
    assert forall|position: int| 0 <= position < expected.len() implies expected[position] == (
    match #[trigger] extent_cell(extents, position) {
        None => 0,
        Some(place) => later.chunks[place.0][place.1],
    }) by {
        lemma_old_bytes(image, later, inode, start, end, levels, position);
    }
    lemma_old_bytes(image, later, inode, start, end, levels, 0);
    lemma_part_read(later, extents, offset, length, expected);
    assert(expected.subrange(offset as int, offset + length) =~= Seq::new(
        length as nat,
        |k: int| byte_at(image, inode, start + offset + k, levels),
    ));
}

/// A write keeps with its event what it wrote and what was there before: reading the written part gives
/// the data, and reading the overwritten part gives the old bytes of the file.
pub proof fn lemma_write_keeps_both_parts(
    storage: StorageView,
    number: u64,
    inode: InodeView,
    offset: u64,
    data: Seq<u8>,
    append: bool,
    clear_privileges: bool,
    now: StoredTime,
    created_at: time::UtcDateTime,
    prepared: PreparedView,
    levels: nat,
    from: u64,
    length: u64,
)
    requires
        stocked(storage.image.manifests, storage.image.chunks),
        storage.namespace().inode(number) == Some(inode),
        sound_file(storage.image, inode, levels),
        levels <= CONTENT_MANIFEST_MAX_DEPTH,
        write_commit(
            storage,
            number,
            offset,
            data,
            append,
            clear_privileges,
            now,
            created_at,
        ) == Ok::<PreparedView, FuseError>(prepared),
        content_sound(
            write_change(
                storage.image,
                storage.namespace(),
                storage.write,
                number,
                offset,
                data,
                append,
                clear_privileges,
                now,
                created_at,
            )->Ok_0,
        ),
        data.len() > 0 ==> is_partition(data_cuts(data), data.len() as int),
        names_agree(storage.image, prepared.batch),
        length <= usize::MAX,
    ensures
        ({
            let after = storage.after(prepared).image;
            let sequence = prepared.sequence.0;
            let start = if append {
                inode.size
            } else {
                offset
            };
            let end = if start + data.len() < inode.size {
                start + data.len()
            } else {
                inode.size as int
            };
            let written = manifest_of_part(after, sequence, FileEventPayloadPart::Written);
            let overwritten = manifest_of_part(after, sequence, FileEventPayloadPart::Overwritten);
            &&& data.len() > 0 && from + length <= data.len() ==> written is Some && range_readable(
                after.manifests,
                after.chunks,
                written->0,
                from,
                length,
            ) && range_bytes(after.manifests, after.chunks, written->0, from, length)
                == data.subrange(from as int, from + length)
            &&& start < end && from + length <= end - start ==> overwritten is Some
                && range_readable(after.manifests, after.chunks, overwritten->0, from, length)
                && range_bytes(after.manifests, after.chunks, overwritten->0, from, length)
                == Seq::new(
                length as nat,
                |k: int| byte_at(storage.image, inode, start + from + k, levels),
            )
        }),
{
    let content = write_change(
        storage.image,
        storage.namespace(),
        storage.write,
        number,
        offset,
        data,
        append,
        clear_privileges,
        now,
        created_at,
    )->Ok_0;
    let before = storage.image;
    let after = storage.after(prepared).image;
    let start = if append {
        inode.size
    } else {
        offset
    };
    lemma_write_is_read_back(
        storage,
        number,
        inode,
        offset,
        data,
        append,
        clear_privileges,
        now,
        created_at,
        prepared,
        levels,
    );
    lemma_part_stored(storage, content, prepared);
    lemma_content_rows(storage, content, prepared);
    let event = content.change.event;
    let stored = payload_manifests(event, content.payload);
    let old = content.payload->FileWrite_0;
    let new = placed_data(0, data);
    let first = part_manifests(event.overwritten_length(), old);
    let second = part_manifests(event.written_length(), new);
    assert(stored == first + second);
    assert(stores(after.manifests, first)) by {
        assert forall|i: int| 0 <= i < first.len() implies #[trigger] first[i] == stored[i] by {}
    }
    assert(stores(after.manifests, second)) by {
        assert forall|i: int| 0 <= i < second.len() implies #[trigger] second[i] == stored[
            first.len() + i] by {}
    }
    if data.len() > 0 && from + length <= data.len() {
        lemma_new_part_read(before.chunks, after, data, from, length);
    }
    let end = if start + data.len() < inode.size {
        start + data.len()
    } else {
        inode.size as int
    };
    if start < end && from + length <= end - start {
        lemma_old_part_read(before, after, inode, start, end as u64, levels, from, length);
    }
}

/// Cutting a file off keeps what it loses with the event.
pub proof fn lemma_cut_keeps_lost_part(
    storage: StorageView,
    number: u64,
    inode: InodeView,
    new_size: u64,
    created_at: time::UtcDateTime,
    answer: EntrySnapshot,
    prepared: PreparedView,
    levels: nat,
    from: u64,
    length: u64,
)
    requires
        stocked(storage.image.manifests, storage.image.chunks),
        sound_file(storage.image, inode, levels),
        levels <= CONTENT_MANIFEST_MAX_DEPTH,
        resize_commit(storage, number, inode, new_size, created_at) == Ok::<
            (EntrySnapshot, Option<PreparedView>),
            FuseError,
        >((answer, Some(prepared))),
        content_sound(
            resize_change(
                storage.image,
                storage.namespace(),
                storage.write,
                number,
                inode,
                new_size,
                created_at,
            )->Ok_0->0,
        ),
        names_agree(storage.image, prepared.batch),
        new_size < inode.size,
        from + length <= inode.size - new_size,
        length <= usize::MAX,
    ensures
        ({
            let after = storage.after(prepared).image;
            let lost = manifest_of_part(
                after,
                prepared.sequence.0,
                FileEventPayloadPart::Overwritten,
            );
            &&& lost is Some
            &&& range_readable(after.manifests, after.chunks, lost->0, from, length)
            &&& range_bytes(after.manifests, after.chunks, lost->0, from, length) == Seq::new(
                length as nat,
                |k: int| byte_at(storage.image, inode, new_size + from + k, levels),
            )
        }),
{
    let content = resize_change(
        storage.image,
        storage.namespace(),
        storage.write,
        number,
        inode,
        new_size,
        created_at,
    )->Ok_0->0;
    let before = storage.image;
    let after = storage.after(prepared).image;
    lemma_resize_keeps_bytes(
        storage,
        number,
        inode,
        new_size,
        created_at,
        answer,
        prepared,
        levels,
    );
    lemma_part_stored(storage, content, prepared);
    let event = content.change.event;
    let stored = payload_manifests(event, content.payload);
    let old = content.payload->FileWrite_0;
    let first = part_manifests(event.overwritten_length(), old);
    assert(stores(after.manifests, first)) by {
        assert forall|i: int| 0 <= i < first.len() implies #[trigger] first[i] == stored[i] by {}
    }
    lemma_old_part_read(before, after, inode, new_size, inode.size, levels, from, length);
}

} // verus!
