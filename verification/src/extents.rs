//! Extents: runs of file bytes that lie in content chunks, and the cutting of data into chunks.

use vstd::prelude::*;

use crate::bytes::copy_bytes;
use crate::error::{FilesystemError, FuseError};
use crate::hash::{prefixed_blake3_identifier, CONTENT_CHUNK_HASH_BLAKE3};

verus! {

/// A run of file bytes that lies in a content chunk.
#[derive(Debug, PartialEq, Eq)]
pub struct StoredExtent {
    /// Offset of the run in the file.
    pub logical_offset: u64,
    /// Length of the run.
    pub length: u64,
    /// The chunk that holds it.
    pub chunk_identifier: Vec<u8>,
    /// Offset of the run in the chunk.
    pub chunk_offset: u64,
}

/// The value of an extent.
pub ghost struct ExtentView {
    pub logical_offset: u64,
    pub length: u64,
    pub chunk_identifier: Seq<u8>,
    pub chunk_offset: u64,
}

impl View for StoredExtent {
    type V = ExtentView;

    open spec fn view(&self) -> ExtentView {
        ExtentView {
            logical_offset: self.logical_offset,
            length: self.length,
            chunk_identifier: self.chunk_identifier@,
            chunk_offset: self.chunk_offset,
        }
    }
}

impl Clone for StoredExtent {
    fn clone(&self) -> (extent: Self)
        ensures
            extent@ == self@,
    {
        StoredExtent {
            logical_offset: self.logical_offset,
            length: self.length,
            chunk_identifier: copy_bytes(self.chunk_identifier.as_slice()),
            chunk_offset: self.chunk_offset,
        }
    }
}

/// The values of extents.
pub open spec fn extent_views(extents: Seq<StoredExtent>) -> Seq<ExtentView> {
    Seq::new(extents.len(), |i: int| extents[i]@)
}

impl ExtentView {
    /// The end of the run in the file.
    pub open spec fn end(self) -> int {
        self.logical_offset + self.length
    }

    /// The run holds a file position.
    pub open spec fn covers(self, position: int) -> bool {
        self.logical_offset <= position < self.end()
    }

    /// Where a file position lies: a chunk and an offset in it.
    pub open spec fn cell(self, position: int) -> (Seq<u8>, int) {
        (self.chunk_identifier, self.chunk_offset + position - self.logical_offset)
    }
}

/// Where a file position lies, by the last of some extents that holds it.
pub open spec fn extent_cell(extents: Seq<ExtentView>, position: int) -> Option<(Seq<u8>, int)>
    decreases extents.len(),
{
    if extents.len() == 0 {
        None
    } else if extents.last().covers(position) {
        Some(extents.last().cell(position))
    } else {
        extent_cell(extents.drop_last(), position)
    }
}

/// The part of one extent in a range, moved so that the range starts at `base`. `Some(None)` where
/// it has no part there; `None` where a number does not fit.
pub open spec fn extent_slice(extent: ExtentView, start: u64, end: u64, base: u64) -> Option<
    Option<ExtentView>,
> {
    let from = if start > extent.logical_offset { start as int } else { extent.logical_offset as int };
    let to = if (end as int) < extent.end() { end as int } else { extent.end() };
    if extent.end() > u64::MAX {
        None
    } else if from >= to {
        Some(None)
    } else if base + (from - start) > u64::MAX || extent.chunk_offset + (from
        - extent.logical_offset) > u64::MAX {
        None
    } else {
        Some(
            Some(
                ExtentView {
                    logical_offset: (base + (from - start)) as u64,
                    length: (to - from) as u64,
                    chunk_identifier: extent.chunk_identifier,
                    chunk_offset: (extent.chunk_offset + (from - extent.logical_offset)) as u64,
                },
            ),
        )
    }
}

/// The parts of extents in a range, moved so that the range starts at `base`; `None` where a number
/// does not fit.
pub open spec fn extents_slice(
    extents: Seq<ExtentView>,
    start: u64,
    end: u64,
    base: u64,
) -> Option<Seq<ExtentView>>
    decreases extents.len(),
{
    if start >= end || extents.len() == 0 {
        Some(Seq::empty())
    } else {
        match (
            extents_slice(extents.drop_last(), start, end, base),
            extent_slice(extents.last(), start, end, base),
        ) {
            (Some(front), Some(None)) => Some(front),
            (Some(front), Some(Some(last))) => Some(front.push(last)),
            _ => None,
        }
    }
}

/// A result agrees with an optional value, an integrity error standing for its absence.
pub open spec fn extents_result(
    result: Result<Vec<StoredExtent>, FilesystemError>,
    expected: Option<Seq<ExtentView>>,
) -> bool {
    match result {
        Ok(extents) => expected == Some(extent_views(extents@)),
        Err(error) => error == FilesystemError::Integrity && expected is None,
    }
}

proof fn lemma_slice_fails(extents: Seq<ExtentView>, i: int, start: u64, end: u64, base: u64)
    requires
        0 < i <= extents.len(),
        start < end,
        extents_slice(extents.take(i), start, end, base) is None,
    ensures
        extents_slice(extents, start, end, base) is None,
    decreases extents.len() - i,
{
    if i == extents.len() {
        assert(extents.take(i) =~= extents);
    } else {
        assert(extents.take(i + 1).drop_last() =~= extents.take(i));
        lemma_slice_fails(extents, i + 1, start, end, base);
    }
}

/// Cuts the extents of a range out of others, moved so that the range starts at `logical_base`.
pub fn slice_extents(
    extents: &[StoredExtent],
    start: u64,
    end: u64,
    logical_base: u64,
) -> (sliced: Result<Vec<StoredExtent>, FilesystemError>)
    ensures
        extents_result(sliced, extents_slice(extent_views(extents@), start, end, logical_base)),
{
    let ghost all = extent_views(extents@);
    let mut sliced: Vec<StoredExtent> = Vec::new();
    if start >= end {
        proof {
            assert(extent_views(sliced@) =~= Seq::<ExtentView>::empty());
        }
        return Ok(sliced);
    }
    let mut i: usize = 0;
    proof {
        assert(extent_views(sliced@) =~= Seq::<ExtentView>::empty());
    }
    while i < extents.len()
        invariant
            i <= extents.len(),
            start < end,
            all == extent_views(extents@),
            extents_slice(all.take(i as int), start, end, logical_base) == Some(
                extent_views(sliced@),
            ),
        decreases extents.len() - i,
    {
        let extent = &extents[i];
        let ghost view = extent@;
        let ghost before = sliced@;
        proof {
            assert(all.take(i + 1).drop_last() =~= all.take(i as int));
            assert(all.take(i + 1).last() == view);
            if extents_slice(all.take(i + 1), start, end, logical_base) is None {
                lemma_slice_fails(all, i + 1, start, end, logical_base);
            }
        }
        let extent_end: u64 = match extent.logical_offset.checked_add(extent.length) {
            Some(sum) => sum,
            None => return Err(FilesystemError::Integrity),
        };
        let slice_start: u64 = if start > extent.logical_offset {
            start
        } else {
            extent.logical_offset
        };
        let slice_end: u64 = if end < extent_end {
            end
        } else {
            extent_end
        };
        if slice_start < slice_end {
            let logical_offset: u64 = match logical_base.checked_add(slice_start - start) {
                Some(sum) => sum,
                None => return Err(FilesystemError::Integrity),
            };
            let chunk_offset: u64 = match extent.chunk_offset.checked_add(
                slice_start - extent.logical_offset,
            ) {
                Some(sum) => sum,
                None => return Err(FilesystemError::Integrity),
            };
            sliced.push(
                StoredExtent {
                    logical_offset,
                    length: slice_end - slice_start,
                    chunk_identifier: copy_bytes(extent.chunk_identifier.as_slice()),
                    chunk_offset,
                },
            );
            proof {
                assert(extent_views(sliced@) =~= extent_views(before).push(sliced@.last()@));
            }
        }
        i = i + 1;
    }
    proof {
        assert(all.take(i as int) =~= all);
    }
    Ok(sliced)
}

/// Slicing keeps every position of the range where it was, moved with the range, and adds no other.
pub proof fn lemma_slice_keeps_cells(
    extents: Seq<ExtentView>,
    start: u64,
    end: u64,
    base: u64,
    position: int,
)
    requires
        extents_slice(extents, start, end, base) is Some,
    ensures
        extent_cell(extents_slice(extents, start, end, base)->0, position) == (if base <= position
            < base + (end - start) {
            extent_cell(extents, position - base + start)
        } else {
            None
        }),
    decreases extents.len(),
{
    if start < end && extents.len() > 0 {
        lemma_slice_keeps_cells(extents.drop_last(), start, end, base, position);
        let front = extents_slice(extents.drop_last(), start, end, base)->0;
        let last = extents.last();
        match extent_slice(last, start, end, base) {
            Some(Some(part)) => {
                assert(front.push(part).drop_last() =~= front);
            },
            _ => {},
        }
    }
}

/// What slicing gives lies in the range and is not empty.
pub proof fn lemma_slice_within(extents: Seq<ExtentView>, start: u64, end: u64, base: u64, i: int)
    requires
        extents_slice(extents, start, end, base) is Some,
        0 <= i < extents_slice(extents, start, end, base)->0.len(),
    ensures
        ({
            let part = extents_slice(extents, start, end, base)->0[i];
            &&& base <= part.logical_offset
            &&& part.end() <= base + (end - start)
            &&& part.length > 0
        }),
    decreases extents.len(),
{
    if start < end && extents.len() > 0 {
        let front = extents_slice(extents.drop_last(), start, end, base)->0;
        if i < front.len() {
            lemma_slice_within(extents.drop_last(), start, end, base, i);
        }
    }
}

/// Every extent ends within a length.
pub open spec fn extents_bounded(extents: Seq<ExtentView>, byte_length: u64) -> bool {
    forall|i: int| 0 <= i < extents.len() ==> (#[trigger] extents[i]).end() <= byte_length
}

/// Checks that every extent ends within a length.
pub fn validate_extent_bounds(extents: &[StoredExtent], byte_length: u64) -> (result: Result<
    (),
    FuseError,
>)
    ensures
        result == (if extents_bounded(extent_views(extents@), byte_length) {
            Ok::<(), FuseError>(())
        } else {
            Err::<(), FuseError>(FuseError::Integrity)
        }),
{
    let ghost all = extent_views(extents@);
    let mut i: usize = 0;
    while i < extents.len()
        invariant
            i <= extents.len(),
            all == extent_views(extents@),
            forall|j: int| 0 <= j < i ==> (#[trigger] all[j]).end() <= byte_length,
        decreases extents.len() - i,
    {
        let extent = &extents[i];
        proof {
            assert(all[i as int] == extent@);
        }
        match extent.logical_offset.checked_add(extent.length) {
            None => return Err(FuseError::Integrity),
            Some(end) => {
                if end > byte_length {
                    return Err(FuseError::Integrity);
                }
            },
        }
        i = i + 1;
    }
    Ok(())
}

/// A piece of new data: where it lies in the data, and the identifier of its chunk.
#[derive(Debug, PartialEq, Eq)]
pub struct PendingExtent {
    /// Offset of the piece in the data.
    pub logical_offset: u64,
    /// Length of the piece.
    pub length: u64,
    /// First byte of the piece.
    pub byte_start: usize,
    /// End of the piece.
    pub byte_end: usize,
    /// Identifier of the piece.
    pub chunk_identifier: Vec<u8>,
}

/// `pending` is the piece of `bytes` between two offsets.
pub open spec fn is_piece(pending: PendingExtent, bytes: Seq<u8>, start: int, end: int) -> bool {
    &&& pending.logical_offset == start
    &&& pending.length == end - start
    &&& pending.byte_start == start
    &&& pending.byte_end == end
    &&& pending.chunk_identifier@ == crate::hash::identifier(
        CONTENT_CHUNK_HASH_BLAKE3,
        bytes.subrange(start, end),
    )
}

impl PendingExtent {
    /// Returns the first byte and the end of the piece.
    pub fn byte_range(&self) -> (range: (usize, usize))
        ensures
            range == (self.byte_start, self.byte_end),
    {
        (self.byte_start, self.byte_end)
    }
}

/// Describes the piece of some bytes between two offsets.
pub fn pending_extent(bytes: &[u8], start: usize, end: usize) -> (pending: PendingExtent)
    requires
        start <= end <= bytes@.len(),
    ensures
        is_piece(pending, bytes@, start as int, end as int),
        pending.chunk_identifier@.len() == crate::hash::IDENTIFIER_LENGTH,
{
    let piece = vstd::slice::slice_subrange(bytes, start, end);
    PendingExtent {
        logical_offset: start as u64,
        length: (end - start) as u64,
        byte_start: start,
        byte_end: end,
        chunk_identifier: prefixed_blake3_identifier(CONTENT_CHUNK_HASH_BLAKE3, piece),
    }
}

/// Smallest chunk that data is cut into; shorter data is one chunk.
pub const CONTENT_CHUNK_MIN_SIZE: usize = 16384;

/// Size of chunks that cutting aims at.
pub const CONTENT_CHUNK_TARGET_SIZE: usize = 65536;

/// Largest chunk that data is cut into.
pub const CONTENT_CHUNK_MAX_SIZE: usize = 262144;

/// Seed of the cutting.
pub const CONTENT_CHUNK_FASTCDC_SEED: u64 = 0;

/// The cut points of data by content, for a least, an average and a greatest chunk size and a seed:
/// offset and length of each chunk.
pub uninterp spec fn fastcdc_cuts(
    bytes: Seq<u8>,
    minimum: u32,
    average: u32,
    maximum: u32,
    seed: u64,
) -> Seq<(usize, usize)>;

/// The cut points of data, by content: offset and length of each chunk.
pub open spec fn content_cuts(bytes: Seq<u8>) -> Seq<(usize, usize)> {
    fastcdc_cuts(
        bytes,
        CONTENT_CHUNK_MIN_SIZE as u32,
        CONTENT_CHUNK_TARGET_SIZE as u32,
        CONTENT_CHUNK_MAX_SIZE as u32,
        CONTENT_CHUNK_FASTCDC_SEED,
    )
}

/// Chunks follow one another from the start to the end of data of some length, none empty.
pub open spec fn is_partition(cuts: Seq<(usize, usize)>, length: int) -> bool {
    &&& cuts.len() > 0
    &&& cuts[0].0 == 0
    &&& cuts.last().0 + cuts.last().1 == length
    &&& forall|i: int| 0 <= i < cuts.len() ==> (#[trigger] cuts[i]).1 > 0
    &&& forall|i: int, j: int|
        0 <= i && j == i + 1 && j < cuts.len() ==> (#[trigger] cuts[j]).0 == (#[trigger] cuts[i]).0
            + cuts[i].1
}

/// No chunk is too large, and none but the last is too small.
pub open spec fn within_sizes(cuts: Seq<(usize, usize)>, minimum: int, maximum: int) -> bool {
    &&& forall|i: int| 0 <= i < cuts.len() ==> (#[trigger] cuts[i]).1 <= maximum
    &&& forall|i: int| 0 <= i < cuts.len() - 1 ==> (#[trigger] cuts[i]).1 >= minimum
}

/// Runs the iterator `fastcdc::v2020::FastCDC::with_level_and_seed` of the fastcdc crate over the
/// data, at the first level of normalization. Claimed: the cuts depend on the data, the sizes and the
/// seed alone; the chunks follow one another without gap from the first byte to the last, none is
/// empty, none is larger than the greatest size, and none but the last is smaller than the least
/// one. The bounds on the sizes are those that the constructor insists on; the least size is even,
/// since bytes are looked at in pairs.
#[verifier::external_body]
fn cut_content(bytes: &[u8], minimum: u32, average: u32, maximum: u32, seed: u64) -> (cuts: Vec<
    (usize, usize),
>)
    requires
        bytes@.len() > 0,
        64 <= minimum <= 1048576,
        minimum % 2 == 0,
        256 <= average <= 4194304,
        1024 <= maximum <= 16777216,
        minimum <= average <= maximum,
    ensures
        cuts@ == fastcdc_cuts(bytes@, minimum, average, maximum, seed),
        is_partition(cuts@, bytes@.len() as int),
        within_sizes(cuts@, minimum as int, maximum as int),
{
    fastcdc::v2020::FastCDC::with_level_and_seed(
        bytes,
        minimum,
        average,
        maximum,
        fastcdc::v2020::Normalization::Level1,
        seed,
    )
    .map(|chunk| (chunk.offset, chunk.length))
    .collect()
}

/// Pieces that lie where cuts say.
pub open spec fn pieces_at(
    pending: Seq<PendingExtent>,
    bytes: Seq<u8>,
    cuts: Seq<(usize, usize)>,
) -> bool {
    &&& pending.len() == cuts.len()
    &&& forall|i: int|
        0 <= i < pending.len() ==> is_piece(
            #[trigger] pending[i],
            bytes,
            cuts[i].0 as int,
            cuts[i].0 + cuts[i].1,
        ) && pending[i].chunk_identifier@.len() == crate::hash::IDENTIFIER_LENGTH
}

/// Every chunk of a partition ends within the data.
pub proof fn lemma_partition_within(cuts: Seq<(usize, usize)>, length: int, i: int)
    requires
        is_partition(cuts, length),
        0 <= i < cuts.len(),
    ensures
        cuts[i].0 + cuts[i].1 <= length,
    decreases cuts.len() - i,
{
    if i < cuts.len() - 1 {
        lemma_partition_within(cuts, length, i + 1);
        assert(cuts[i + 1].0 == cuts[i].0 + cuts[i].1);
    }
}

/// Describes the pieces of data that cuts give.
pub fn pieces_from_cuts(bytes: &[u8], cuts: &[(usize, usize)]) -> (pending: Vec<PendingExtent>)
    requires
        is_partition(cuts@, bytes@.len() as int),
    ensures
        pieces_at(pending@, bytes@, cuts@),
{
    let mut pending: Vec<PendingExtent> = Vec::new();
    let total: usize = bytes.len();
    let mut i: usize = 0;
    while i < cuts.len()
        invariant
            i <= cuts.len(),
            total == bytes@.len(),
            pending@.len() == i,
            is_partition(cuts@, bytes@.len() as int),
            forall|j: int|
                0 <= j < i ==> is_piece(
                    #[trigger] pending@[j],
                    bytes@,
                    cuts@[j].0 as int,
                    cuts@[j].0 + cuts@[j].1,
                ) && pending@[j].chunk_identifier@.len() == crate::hash::IDENTIFIER_LENGTH,
        decreases cuts.len() - i,
    {
        proof {
            lemma_partition_within(cuts@, bytes@.len() as int, i as int);
        }
        let cut = cuts[i];
        pending.push(pending_extent(bytes, cut.0, cut.0 + cut.1));
        i = i + 1;
    }
    pending
}

/// The cuts of data: none of empty data, one chunk of short data, else by content.
pub open spec fn data_cuts(bytes: Seq<u8>) -> Seq<(usize, usize)> {
    if bytes.len() == 0 {
        Seq::empty()
    } else if bytes.len() <= CONTENT_CHUNK_MIN_SIZE {
        seq![(0usize, bytes.len() as usize)]
    } else {
        content_cuts(bytes)
    }
}

/// Cuts data into chunks, none larger than the greatest size and none but the last smaller than the
/// least one.
pub fn chunk_bytes(bytes: &[u8]) -> (pending: Vec<PendingExtent>)
    ensures
        pieces_at(pending@, bytes@, data_cuts(bytes@)),
        bytes@.len() > 0 ==> is_partition(data_cuts(bytes@), bytes@.len() as int),
        within_sizes(
            data_cuts(bytes@),
            CONTENT_CHUNK_MIN_SIZE as int,
            CONTENT_CHUNK_MAX_SIZE as int,
        ),
{
    if bytes.len() == 0 {
        return Vec::new();
    }
    if bytes.len() <= CONTENT_CHUNK_MIN_SIZE {
        let mut pending: Vec<PendingExtent> = Vec::new();
        pending.push(pending_extent(bytes, 0, bytes.len()));
        return pending;
    }
    let cuts = cut_content(
        bytes,
        CONTENT_CHUNK_MIN_SIZE as u32,
        CONTENT_CHUNK_TARGET_SIZE as u32,
        CONTENT_CHUNK_MAX_SIZE as u32,
        CONTENT_CHUNK_FASTCDC_SEED,
    );
    pieces_from_cuts(bytes, cuts.as_slice())
}

/// The extents of pieces whose data starts at a file offset.
pub open spec fn placed(logical_offset: u64, pending: Seq<PendingExtent>) -> Seq<ExtentView> {
    Seq::new(
        pending.len(),
        |i: int|
            ExtentView {
                logical_offset: (logical_offset + pending[i].logical_offset) as u64,
                length: pending[i].length,
                chunk_identifier: pending[i].chunk_identifier@,
                chunk_offset: 0,
            },
    )
}

/// The extents of data that starts at a file offset, one for each chunk that it is cut into.
pub open spec fn placed_data(logical_offset: u64, bytes: Seq<u8>) -> Seq<ExtentView> {
    let cuts = data_cuts(bytes);
    Seq::new(
        cuts.len(),
        |i: int|
            ExtentView {
                logical_offset: (logical_offset + cuts[i].0) as u64,
                length: cuts[i].1 as u64,
                chunk_identifier: crate::hash::identifier(
                    CONTENT_CHUNK_HASH_BLAKE3,
                    bytes.subrange(cuts[i].0 as int, cuts[i].0 + cuts[i].1),
                ),
                chunk_offset: 0,
            },
    )
}

/// The pieces of data, placed, are the extents of the data; all can be placed where the data fits.
pub proof fn lemma_placed_pieces(logical_offset: u64, pending: Seq<PendingExtent>, bytes: Seq<u8>)
    requires
        pieces_at(pending, bytes, data_cuts(bytes)),
        bytes.len() > 0 ==> is_partition(data_cuts(bytes), bytes.len() as int),
        logical_offset + bytes.len() <= u64::MAX,
    ensures
        placed(logical_offset, pending) == placed_data(logical_offset, bytes),
        placeable(logical_offset, pending),
        crate::manifest::named_chunks(placed_data(logical_offset, bytes)),
{
    let cuts = data_cuts(bytes);
    assert forall|i: int| 0 <= i < pending.len() implies logical_offset + (
    #[trigger] pending[i]).logical_offset <= u64::MAX && placed(logical_offset, pending)[i]
        == placed_data(logical_offset, bytes)[i]
        && pending[i].chunk_identifier@.len() == crate::hash::IDENTIFIER_LENGTH by {
        assert(is_piece(pending[i], bytes, cuts[i].0 as int, cuts[i].0 + cuts[i].1));
        lemma_partition_within(cuts, bytes.len() as int, i);
    }
    assert(placed(logical_offset, pending) =~= placed_data(logical_offset, bytes)) by {
        assert forall|i: int| 0 <= i < pending.len() implies placed(logical_offset, pending)[i]
            == placed_data(logical_offset, bytes)[i] by {
            assert(logical_offset + pending[i].logical_offset <= u64::MAX);
        }
    }
    assert forall|i: int| 0 <= i < placed_data(logical_offset, bytes).len() implies (
    #[trigger] placed_data(logical_offset, bytes)[i]).chunk_identifier.len()
        == crate::hash::IDENTIFIER_LENGTH by {
        assert(pending[i].chunk_identifier@.len() == crate::hash::IDENTIFIER_LENGTH);
        assert(placed(logical_offset, pending)[i].chunk_identifier
            == pending[i].chunk_identifier@);
    }
}

/// Every piece can be placed at a file offset.
pub open spec fn placeable(logical_offset: u64, pending: Seq<PendingExtent>) -> bool {
    forall|i: int|
        0 <= i < pending.len() ==> logical_offset + (#[trigger] pending[i]).logical_offset
            <= u64::MAX
}

/// Places pieces at a file offset.
pub fn stored_extents_from_pending(
    logical_offset: u64,
    pending_extents: &[PendingExtent],
) -> (extents: Result<Vec<StoredExtent>, FuseError>)
    ensures
        match extents {
            Ok(extents) => placeable(logical_offset, pending_extents@) && extent_views(extents@)
                == placed(logical_offset, pending_extents@),
            Err(error) => error == FuseError::Integrity && !placeable(
                logical_offset,
                pending_extents@,
            ),
        },
{
    let mut extents: Vec<StoredExtent> = Vec::new();
    let mut i: usize = 0;
    while i < pending_extents.len()
        invariant
            i <= pending_extents.len(),
            extents@.len() == i,
            forall|j: int|
                0 <= j < i ==> logical_offset + (#[trigger] pending_extents@[j]).logical_offset
                    <= u64::MAX,
            forall|j: int|
                0 <= j < i ==> (#[trigger] extents@[j])@ == placed(
                    logical_offset,
                    pending_extents@,
                )[j],
        decreases pending_extents.len() - i,
    {
        let pending = &pending_extents[i];
        let offset: u64 = match logical_offset.checked_add(pending.logical_offset) {
            Some(sum) => sum,
            None => return Err(FuseError::Integrity),
        };
        extents.push(
            StoredExtent {
                logical_offset: offset,
                length: pending.length,
                chunk_identifier: copy_bytes(pending.chunk_identifier.as_slice()),
                chunk_offset: 0,
            },
        );
        i = i + 1;
    }
    proof {
        assert(extent_views(extents@) =~= placed(logical_offset, pending_extents@));
    }
    Ok(extents)
}

} // verus!
