//! Content chunks: storing the pieces of new data, and reading file bytes out of stored pieces.

use vstd::prelude::*;

use crate::bytes::{bytes_equal, copy_bytes};
use crate::contents::{cell, complete, lemma_reading_follows_cells, within};
use crate::error::{FilesystemError, FuseError};
use crate::extents::{
    data_cuts, extent_cell, extent_views, extents_slice, is_partition, lemma_slice_within,
    pieces_at, ExtentView, PendingExtent, StoredExtent,
};
use crate::hash::{
    blobs, identifier, identifies, put_views, validate_content_chunk,
    validate_prefixed_blake3_identifier_shape, well_shaped, Blobs, BytesPut,
    CONTENT_CHUNK_HASH_BLAKE3,
};
use crate::manifest::{
    collected, collected_children, content_manifest_extents_in_range, extents_in_range, manifest_at,
    ChildView, Manifest, CONTENT_MANIFEST_MAX_DEPTH,
};
use crate::table::Table;

verus! {

/// Turns a stored length into one in memory.
pub fn existing_byte_length_for_storage(length: u64) -> (result: Result<usize, FilesystemError>)
    ensures
        result == (if length <= usize::MAX {
            Ok::<usize, FilesystemError>(length as usize)
        } else {
            Err::<usize, FilesystemError>(FilesystemError::Integrity)
        }),
{
    if length <= usize::MAX as u64 {
        Ok(length as usize)
    } else {
        Err(FilesystemError::Integrity)
    }
}

/// The chunk of an extent is stored, is what its identifier names, and is long enough.
pub open spec fn chunk_ready(chunks: Blobs, extent: ExtentView) -> bool {
    &&& chunks.contains_key(extent.chunk_identifier)
    &&& identifies(
        extent.chunk_identifier,
        CONTENT_CHUNK_HASH_BLAKE3,
        chunks[extent.chunk_identifier],
    )
    &&& extent.chunk_offset + extent.length <= chunks[extent.chunk_identifier].len()
}

/// The chunks of all extents are ready.
pub open spec fn chunks_ready(chunks: Blobs, extents: Seq<ExtentView>) -> bool {
    forall|i: int| 0 <= i < extents.len() ==> chunk_ready(chunks, #[trigger] extents[i])
}

/// Checks that the chunks of all extents are stored, valid and long enough.
pub fn validate_stored_extents(chunks: &Table<Vec<u8>>, extents: &[StoredExtent]) -> (result: Result<
    (),
    FuseError,
>)
    ensures
        result == (if chunks_ready(blobs(chunks@), extent_views(extents@)) {
            Ok::<(), FuseError>(())
        } else {
            Err::<(), FuseError>(FuseError::Integrity)
        }),
{
    let ghost all = extent_views(extents@);
    let mut i: usize = 0;
    while i < extents.len()
        invariant
            i <= extents.len(),
            all == extent_views(extents@),
            forall|j: int| 0 <= j < i ==> chunk_ready(blobs(chunks@), #[trigger] all[j]),
        decreases extents.len() - i,
    {
        let extent = &extents[i];
        proof {
            assert(all[i as int] == extent@);
        }
        match chunks.get(extent.chunk_identifier.as_slice()) {
            None => {
                assert(!chunk_ready(blobs(chunks@), all[i as int]));
                return Err(FuseError::Integrity);
            },
            Some(chunk) => {
                match validate_content_chunk(extent.chunk_identifier.as_slice(), chunk.as_slice()) {
                    Err(_) => {
                        assert(!chunk_ready(blobs(chunks@), all[i as int]));
                        return Err(FuseError::Integrity);
                    },
                    Ok(_) => {},
                }
                let length: usize = chunk.len();
                match extent.chunk_offset.checked_add(extent.length) {
                    None => {
                        assert(!chunk_ready(blobs(chunks@), all[i as int]));
                        return Err(FuseError::Integrity);
                    },
                    Some(chunk_end) => {
                        if chunk_end > length as u64 {
                            assert(!chunk_ready(blobs(chunks@), all[i as int]));
                            return Err(FuseError::Integrity);
                        }
                    },
                }
            },
        }
        i = i + 1;
    }
    Ok(())
}

/// A chunk can be stored under an identifier: the identifier has the right shape, and what is already
/// stored there is valid and the same.
pub open spec fn chunk_accepted(chunks: Blobs, name: Seq<u8>, bytes: Seq<u8>) -> bool {
    &&& well_shaped(name, CONTENT_CHUNK_HASH_BLAKE3)
    &&& chunks.contains_key(name) ==> identifies(name, CONTENT_CHUNK_HASH_BLAKE3, chunks[name])
        && chunks[name] == bytes
}

/// What is stored for a chunk: nothing where it is already there.
pub open spec fn chunk_put(chunks: Blobs, name: Seq<u8>, bytes: Seq<u8>) -> Seq<(Seq<u8>, Seq<u8>)> {
    if chunks.contains_key(name) {
        Seq::empty()
    } else {
        seq![(name, bytes)]
    }
}

/// Stores a chunk unless it is already there.
pub fn put_verified_content_chunk(
    chunks: &Table<Vec<u8>>,
    batch: &mut Vec<BytesPut>,
    chunk_identifier: &[u8],
    bytes: &[u8],
) -> (result: Result<(), FuseError>)
    ensures
        match result {
            Ok(_) => {
                &&& chunk_accepted(blobs(chunks@), chunk_identifier@, bytes@)
                &&& put_views(final(batch)@) == put_views(old(batch)@) + chunk_put(
                    blobs(chunks@),
                    chunk_identifier@,
                    bytes@,
                )
            },
            Err(error) => error == FuseError::Integrity && !chunk_accepted(
                blobs(chunks@),
                chunk_identifier@,
                bytes@,
            ),
        },
{
    match validate_prefixed_blake3_identifier_shape(chunk_identifier, CONTENT_CHUNK_HASH_BLAKE3) {
        Err(_) => return Err(FuseError::Integrity),
        Ok(_) => {},
    }
    match chunks.get(chunk_identifier) {
        Some(existing) => {
            match validate_content_chunk(chunk_identifier, existing.as_slice()) {
                Err(_) => return Err(FuseError::Integrity),
                Ok(_) => {},
            }
            if !bytes_equal(existing.as_slice(), bytes) {
                return Err(FuseError::Integrity);
            }
            proof {
                assert(put_views(batch@) =~= put_views(batch@) + Seq::<
                    (Seq<u8>, Seq<u8>),
                >::empty());
            }
        },
        None => {
            let ghost before = batch@;
            batch.push(
                BytesPut { key: copy_bytes(chunk_identifier), value: copy_bytes(bytes) },
            );
            proof {
                assert(put_views(batch@) =~= put_views(before) + seq![
                    (chunk_identifier@, bytes@),
                ]);
            }
        },
    }
    Ok(())
}

/// What is stored for the first pieces of some data.
pub open spec fn piece_puts(
    chunks: Blobs,
    bytes: Seq<u8>,
    cuts: Seq<(usize, usize)>,
    count: nat,
) -> Seq<(Seq<u8>, Seq<u8>)>
    decreases count,
{
    if count == 0 {
        Seq::empty()
    } else {
        let cut = cuts[count - 1];
        let piece = bytes.subrange(cut.0 as int, cut.0 + cut.1);
        piece_puts(chunks, bytes, cuts, (count - 1) as nat) + chunk_put(
            chunks,
            identifier(CONTENT_CHUNK_HASH_BLAKE3, piece),
            piece,
        )
    }
}

/// What is stored for some data.
pub open spec fn data_puts(chunks: Blobs, bytes: Seq<u8>) -> Seq<(Seq<u8>, Seq<u8>)> {
    piece_puts(chunks, bytes, data_cuts(bytes), data_cuts(bytes).len())
}

/// Every piece of some data can be stored.
pub open spec fn pieces_accepted(
    chunks: Blobs,
    bytes: Seq<u8>,
    cuts: Seq<(usize, usize)>,
) -> bool {
    forall|i: int|
        0 <= i < cuts.len() ==> {
            let piece = bytes.subrange((#[trigger] cuts[i]).0 as int, cuts[i].0 + cuts[i].1);
            chunk_accepted(chunks, identifier(CONTENT_CHUNK_HASH_BLAKE3, piece), piece)
        }
}

/// Stores the pieces of some data that are not stored yet.
pub fn put_pending_extents(
    chunks: &Table<Vec<u8>>,
    batch: &mut Vec<BytesPut>,
    bytes: &[u8],
    pending: &[PendingExtent],
) -> (result: Result<(), FuseError>)
    requires
        pieces_at(pending@, bytes@, data_cuts(bytes@)),
        bytes@.len() > 0 ==> is_partition(data_cuts(bytes@), bytes@.len() as int),
    ensures
        match result {
            Ok(_) => {
                &&& pieces_accepted(blobs(chunks@), bytes@, data_cuts(bytes@))
                &&& put_views(final(batch)@) == put_views(old(batch)@) + data_puts(
                    blobs(chunks@),
                    bytes@,
                )
            },
            Err(error) => error == FuseError::Integrity && !pieces_accepted(
                blobs(chunks@),
                bytes@,
                data_cuts(bytes@),
            ),
        },
{
    let ghost cuts = data_cuts(bytes@);
    let ghost before = put_views(batch@);
    let ghost store = blobs(chunks@);
    let mut i: usize = 0;
    proof {
        assert(before =~= before + piece_puts(store, bytes@, cuts, 0));
    }
    while i < pending.len()
        invariant
            i <= pending.len(),
            store == blobs(chunks@),
            cuts == data_cuts(bytes@),
            pieces_at(pending@, bytes@, cuts),
            cuts.len() > 0 ==> is_partition(cuts, bytes@.len() as int),
            put_views(batch@) == before + piece_puts(store, bytes@, cuts, i as nat),
            forall|j: int|
                0 <= j < i ==> {
                    let piece = bytes@.subrange(
                        (#[trigger] cuts[j]).0 as int,
                        cuts[j].0 + cuts[j].1,
                    );
                    chunk_accepted(store, identifier(CONTENT_CHUNK_HASH_BLAKE3, piece), piece)
                },
        decreases pending.len() - i,
    {
        let extent = &pending[i];
        proof {
            assert(crate::extents::is_piece(
                pending@[i as int],
                bytes@,
                cuts[i as int].0 as int,
                cuts[i as int].0 + cuts[i as int].1,
            ));
            crate::extents::lemma_partition_within(cuts, bytes@.len() as int, i as int);
        }
        let (start, end) = extent.byte_range();
        let piece = vstd::slice::slice_subrange(bytes, start, end);
        let ghost already = put_views(batch@);
        match put_verified_content_chunk(chunks, batch, extent.chunk_identifier.as_slice(), piece) {
            Err(error) => {
                assert(!chunk_accepted(
                    store,
                    identifier(CONTENT_CHUNK_HASH_BLAKE3, piece@),
                    piece@,
                ));
                return Err(error);
            },
            Ok(_) => {},
        }
        proof {
            assert(before + piece_puts(store, bytes@, cuts, i as nat) + chunk_put(
                store,
                identifier(CONTENT_CHUNK_HASH_BLAKE3, piece@),
                piece@,
            ) =~= before + piece_puts(store, bytes@, cuts, (i + 1) as nat));
        }
        i = i + 1;
    }
    Ok(())
}

/// The byte at a file position by some extents: that of the chunk cell, or zero where nothing was
/// written.
pub open spec fn extent_byte(chunks: Blobs, extents: Seq<ExtentView>, position: int) -> u8 {
    match extent_cell(extents, position) {
        None => 0,
        Some(place) => chunks[place.0][place.1],
    }
}

/// Makes zero bytes.
fn zeros(length: usize) -> (bytes: Vec<u8>)
    ensures
        bytes@ == Seq::new(length as nat, |i: int| 0u8),
{
    let mut bytes: Vec<u8> = Vec::with_capacity(length);
    let mut i: usize = 0;
    while i < length
        invariant
            i <= length,
            bytes@.len() == i,
            forall|j: int| 0 <= j < i ==> bytes@[j] == 0,
        decreases length - i,
    {
        bytes.push(0);
        i = i + 1;
    }
    proof {
        assert(bytes@ =~= Seq::new(length as nat, |i: int| 0u8));
    }
    bytes
}

/// Copies a part of one byte string over a part of another.
fn copy_over(bytes: &mut Vec<u8>, destination: usize, source: &Vec<u8>, start: usize, length: usize)
    requires
        destination + length <= old(bytes)@.len(),
        start + length <= source@.len(),
    ensures
        final(bytes)@.len() == old(bytes)@.len(),
        forall|k: int|
            0 <= k < final(bytes)@.len() ==> #[trigger] final(bytes)@[k] == (if destination <= k
                < destination + length {
                source@[start + (k - destination)]
            } else {
                old(bytes)@[k]
            }),
{
    let ghost before = bytes@;
    let total: usize = bytes.len();
    let source_total: usize = source.len();
    let mut i: usize = 0;
    while i < length
        invariant
            i <= length,
            total == bytes@.len(),
            source_total == source@.len(),
            destination + length <= bytes@.len(),
            start + length <= source@.len(),
            bytes@.len() == before.len(),
            forall|k: int|
                0 <= k < bytes@.len() ==> #[trigger] bytes@[k] == (if destination <= k < destination
                    + i {
                    source@[start + (k - destination)]
                } else {
                    before[k]
                }),
        decreases length - i,
    {
        bytes.set(destination + i, source[start + i]);
        i = i + 1;
    }
}

/// Reads the bytes of a range out of the chunks of extents that lie in it, in order, so that a later
/// extent covers an earlier one.
pub fn read_extents(
    chunks: &Table<Vec<u8>>,
    extents: &[StoredExtent],
    offset: u64,
    length: usize,
) -> (bytes: Result<Vec<u8>, FilesystemError>)
    requires
        offset + length <= u64::MAX,
        within(extent_views(extents@), offset, (offset + length) as u64),
    ensures
        match bytes {
            Ok(bytes) => {
                &&& chunks_ready(blobs(chunks@), extent_views(extents@))
                &&& bytes@ == Seq::new(
                    length as nat,
                    |k: int| extent_byte(blobs(chunks@), extent_views(extents@), offset + k),
                )
            },
            Err(error) => error == FilesystemError::Integrity && !chunks_ready(
                blobs(chunks@),
                extent_views(extents@),
            ),
        },
{
    let ghost all = extent_views(extents@);
    let ghost store = blobs(chunks@);
    let mut bytes = zeros(length);
    let mut i: usize = 0;
    proof {
        assert(all.take(0) =~= Seq::<ExtentView>::empty());
    }
    while i < extents.len()
        invariant
            i <= extents.len(),
            offset + length <= u64::MAX,
            all == extent_views(extents@),
            store == blobs(chunks@),
            within(all, offset, (offset + length) as u64),
            bytes@.len() == length,
            forall|j: int| 0 <= j < i ==> chunk_ready(store, #[trigger] all[j]),
            forall|k: int|
                0 <= k < length ==> #[trigger] bytes@[k] == extent_byte(
                    store,
                    all.take(i as int),
                    offset + k,
                ),
        decreases extents.len() - i,
    {
        let extent = &extents[i];
        proof {
            assert(all[i as int] == extent@);
            assert(all.take(i + 1).drop_last() =~= all.take(i as int));
            assert(all.take(i + 1).last() == extent@);
        }
        match chunks.get(extent.chunk_identifier.as_slice()) {
            None => {
                assert(!chunk_ready(store, all[i as int]));
                return Err(FilesystemError::Integrity);
            },
            Some(chunk) => {
                match validate_content_chunk(extent.chunk_identifier.as_slice(), chunk.as_slice()) {
                    Err(error) => {
                        assert(!chunk_ready(store, all[i as int]));
                        return Err(error);
                    },
                    Ok(_) => {},
                }
                let chunk_length: usize = chunk.len();
                match extent.chunk_offset.checked_add(extent.length) {
                    None => {
                        assert(!chunk_ready(store, all[i as int]));
                        return Err(FilesystemError::Integrity);
                    },
                    Some(chunk_end) => {
                        if chunk_end > chunk_length as u64 {
                            assert(!chunk_ready(store, all[i as int]));
                            return Err(FilesystemError::Integrity);
                        }
                    },
                }
                let ghost before = bytes@;
                copy_over(
                    &mut bytes,
                    (extent.logical_offset - offset) as usize,
                    chunk,
                    extent.chunk_offset as usize,
                    extent.length as usize,
                );
                proof {
                    assert forall|k: int| 0 <= k < length implies #[trigger] bytes@[k]
                        == extent_byte(store, all.take(i + 1), offset + k) by {
                        assert(before[k] == extent_byte(store, all.take(i as int), offset + k));
                    }
                }
            },
        }
        i = i + 1;
    }
    proof {
        assert(all.take(i as int) =~= all);
        assert(bytes@ =~= Seq::new(length as nat, |k: int| extent_byte(store, all, offset + k)));
    }
    Ok(bytes)
}

proof fn lemma_collected_within(
    nodes: Blobs,
    identifier: Seq<u8>,
    start: u64,
    end: u64,
    depth: int,
)
    requires
        start <= end,
        collected(nodes, identifier, start, end, depth) is Some,
    ensures
        within(collected(nodes, identifier, start, end, depth)->0, start, end),
    decreases CONTENT_MANIFEST_MAX_DEPTH + 1 - depth, 0nat,
{
    if identifier != crate::manifest::empty_identifier() {
        match manifest_at(nodes, identifier) {
            Some(Manifest::Extents(extents)) => {
                let sliced = extents_slice(extents, start, end, start)->0;
                assert forall|i: int| 0 <= i < sliced.len() implies start <= (
                #[trigger] sliced[i]).logical_offset && sliced[i].end() <= end && sliced[i].length
                    > 0 by {
                    lemma_slice_within(extents, start, end, start, i);
                }
            },
            Some(Manifest::Concat(children)) => {
                lemma_collected_children_within(nodes, children, start, end, depth + 1);
            },
            None => {},
        }
    }
}

proof fn lemma_collected_children_within(
    nodes: Blobs,
    children: Seq<ChildView>,
    start: u64,
    end: u64,
    depth: int,
)
    requires
        start <= end,
        collected_children(nodes, children, start, end, depth) is Some,
    ensures
        within(collected_children(nodes, children, start, end, depth)->0, start, end),
    decreases CONTENT_MANIFEST_MAX_DEPTH + 1 - depth, children.len() + 1,
{
    if children.len() > 0 {
        let child = children.last();
        lemma_collected_children_within(nodes, children.drop_last(), start, end, depth);
        let front = collected_children(nodes, children.drop_last(), start, end, depth)->0;
        if !(child.end() <= start || child.logical_offset >= end) {
            let from = if start > child.logical_offset { start } else { child.logical_offset };
            let to = if (end as int) < child.end() { end } else { child.end() as u64 };
            lemma_collected_within(nodes, child.identifier, from, to, depth);
            let part = collected(nodes, child.identifier, from, to, depth)->0;
            assert forall|i: int| 0 <= i < (front + part).len() implies start <= (
            #[trigger] (front + part)[i]).logical_offset && (front + part)[i].end() <= end && (
            front + part)[i].length > 0 by {
                if i < front.len() {
                    assert((front + part)[i] == front[i]);
                } else {
                    assert((front + part)[i] == part[i - front.len()]);
                }
            }
        }
    }
}

/// A range of a file can be read: it fits, its extents can be collected, and their chunks are ready.
pub open spec fn range_readable(
    nodes: Blobs,
    chunks: Blobs,
    manifest: Seq<u8>,
    offset: u64,
    length: u64,
) -> bool {
    let extents = extents_in_range(nodes, manifest, offset, (offset + length) as u64);
    &&& length <= usize::MAX
    &&& offset + length <= u64::MAX
    &&& extents is Some
    &&& chunks_ready(chunks, extents->0)
}

/// The bytes of a range of a file.
pub open spec fn range_bytes(
    nodes: Blobs,
    chunks: Blobs,
    manifest: Seq<u8>,
    offset: u64,
    length: u64,
) -> Seq<u8> {
    let extents = extents_in_range(nodes, manifest, offset, (offset + length) as u64)->0;
    Seq::new(length as nat, |k: int| extent_byte(chunks, extents, offset + k))
}

/// What reading a range gives: its bytes, or an integrity error where it cannot be read. An empty
/// range is always readable.
pub open spec fn reads_range(
    result: Result<Vec<u8>, FilesystemError>,
    nodes: Blobs,
    chunks: Blobs,
    manifest: Seq<u8>,
    offset: u64,
    length: u64,
) -> bool {
    match result {
        Ok(bytes) => if length == 0 {
            bytes@ == Seq::<u8>::empty()
        } else {
            range_readable(nodes, chunks, manifest, offset, length) && bytes@ == range_bytes(
                nodes,
                chunks,
                manifest,
                offset,
                length,
            )
        },
        Err(error) => error == FilesystemError::Integrity && length > 0 && !range_readable(
            nodes,
            chunks,
            manifest,
            offset,
            length,
        ),
    }
}

/// Reads a range of the file that a manifest describes. Positions where nothing was written read as
/// zero.
pub fn read_manifest_range(
    nodes: &Table<Vec<u8>>,
    chunks: &Table<Vec<u8>>,
    manifest: &[u8],
    offset: u64,
    length: u64,
) -> (bytes: Result<Vec<u8>, FilesystemError>)
    ensures
        reads_range(bytes, blobs(nodes@), blobs(chunks@), manifest@, offset, length),
{
    if length == 0 {
        return Ok(Vec::new());
    }
    let memory_length: usize = match existing_byte_length_for_storage(length) {
        Err(error) => return Err(error),
        Ok(memory_length) => memory_length,
    };
    let end: u64 = match offset.checked_add(length) {
        None => return Err(FilesystemError::Integrity),
        Some(end) => end,
    };
    match content_manifest_extents_in_range(nodes, manifest, offset, end) {
        Err(error) => Err(error),
        Ok(extents) => {
            proof {
                lemma_collected_within(blobs(nodes@), manifest@, offset, end, 0);
            }
            let result = read_extents(chunks, extents.as_slice(), offset, memory_length);
            proof {
                if result is Ok {
                    assert(result->Ok_0@ =~= range_bytes(
                        blobs(nodes@),
                        blobs(chunks@),
                        manifest@,
                        offset,
                        length,
                    ));
                }
            }
            result
        },
    }
}

/// The byte of a file at a position: that of the chunk cell, or zero where nothing was written.
pub open spec fn file_byte(
    nodes: Blobs,
    chunks: Blobs,
    manifest: Seq<u8>,
    position: int,
    levels: nat,
) -> u8 {
    match cell(nodes, manifest, position, levels) {
        None => 0,
        Some(place) => chunks[place.0][place.1],
    }
}

/// Reading a range of a complete manifest gives the bytes of the file at those positions.
pub proof fn lemma_reading_bytes(
    nodes: Blobs,
    chunks: Blobs,
    manifest: Seq<u8>,
    offset: u64,
    length: u64,
    levels: nat,
    k: int,
)
    requires
        complete(nodes, manifest, levels),
        levels <= CONTENT_MANIFEST_MAX_DEPTH + 1,
        offset + length <= u64::MAX,
        0 <= k < length,
    ensures
        extents_in_range(nodes, manifest, offset, (offset + length) as u64) is Some,
        range_bytes(nodes, chunks, manifest, offset, length)[k] == file_byte(
            nodes,
            chunks,
            manifest,
            offset + k,
            levels,
        ),
{
    lemma_reading_follows_cells(nodes, manifest, offset, (offset + length) as u64, levels);
    let extents = extents_in_range(nodes, manifest, offset, (offset + length) as u64)->0;
    assert(extent_cell(extents, offset + k) == cell(nodes, manifest, offset + k, levels));
}

} // verus!
