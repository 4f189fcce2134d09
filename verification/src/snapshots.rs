//! Snapshots of files: asking for one again at its own position gives it back, and a range of one is
//! that range of the whole.

use vstd::prelude::*;

use crate::bytes::{
    bytes_before, has_prefix, lemma_bytes_before_asymmetric, lemma_bytes_before_irreflexive,
    lemma_bytes_before_total, lemma_bytes_before_transitive,
};
use crate::chunks::{lemma_reading_bytes, range_bytes, range_readable};
use crate::contents::{complete, lemma_reading_follows_cells};
use crate::database::{Image, SnapshotView};
use crate::error::FilesystemError;
use crate::files::{lemma_collected_ready, stocked};
use crate::filesystem::{
    BranchIdentifier, BranchPosition, FileIdentifier, FileSnapshot,
};
use crate::history::{
    clipped, keys_up_to, manifest_of_contents, root_walk, snapshot_by_position, snapshot_in_root,
};
use crate::keys::{lemma_pair_key_order, lemma_triple_key_order, pair_key, triple_key};
use crate::manifest::CONTENT_MANIFEST_MAX_DEPTH;
use crate::pages::{lemma_pair_of, lemma_triple_of};
use crate::states::listed;
use crate::table::{lemma_past_prefix, lemma_prefix_not_before, listed_keys, sorted_keys};

verus! {

/// The keys up to an end are the first ones, and all others come after the end.
pub proof fn lemma_up_to(keys: Seq<Seq<u8>>, end: Seq<u8>)
    ensures
        ({
            let front = keys_up_to(keys, end);
            &&& front.len() <= keys.len()
            &&& front == keys.take(front.len() as int)
            &&& front.len() > 0 ==> !bytes_before(end, front.last())
            &&& forall|i: int|
                front.len() <= i < keys.len() ==> bytes_before(end, #[trigger] keys[i])
        }),
    decreases keys.len(),
{
    if keys.len() == 0 || !bytes_before(end, keys.last()) {
        assert(keys.take(keys.len() as int) =~= keys);
    } else {
        let rest = keys.drop_last();
        lemma_up_to(rest, end);
        let front = keys_up_to(rest, end);
        assert(rest.take(front.len() as int) =~= keys.take(front.len() as int));
        assert forall|i: int| front.len() <= i < keys.len() implies bytes_before(
            end,
            #[trigger] keys[i],
        ) by {
            if i < rest.len() {
                assert(rest[i] == keys[i]);
            }
        }
    }
}

/// The keys up to one of them end with it.
pub proof fn lemma_up_to_key(keys: Seq<Seq<u8>>, at: int)
    requires
        sorted_keys(keys),
        0 <= at < keys.len(),
    ensures
        keys_up_to(keys, keys[at]) == keys.take(at + 1),
{
    let key = keys[at];
    lemma_up_to(keys, key);
    lemma_bytes_before_irreflexive(key);
    let count = keys_up_to(keys, key).len();
    if count > at + 1 {
        assert(keys.take(count as int).last() == keys[count - 1]);
        assert(bytes_before(key, keys[count - 1]));
    }
    if count < at + 1 {
        assert(bytes_before(key, keys[at]));
    }
}

/// A key at or after one with a prefix and before one with it has it too.
pub proof fn lemma_between(prefix: Seq<u8>, low: Seq<u8>, key: Seq<u8>, high: Seq<u8>)
    requires
        has_prefix(low, prefix),
        has_prefix(high, prefix),
        !bytes_before(key, low),
        !bytes_before(high, key),
    ensures
        has_prefix(key, prefix),
{
    lemma_prefix_not_before(prefix, low);
    if bytes_before(key, prefix) {
        if low != prefix {
            lemma_bytes_before_total(low, prefix);
            lemma_bytes_before_transitive(key, prefix, low);
        }
    }
    lemma_bytes_before_total(key, high);
    if !has_prefix(key, prefix) && bytes_before(key, high) {
        lemma_past_prefix(prefix, key, high);
    }
}

/// A walk over the states of a branch that finds a file finds it at once from where it found it.
proof fn lemma_walk_found(
    image: Image,
    branch: BranchIdentifier,
    file: FileIdentifier,
    keys: Seq<Seq<u8>>,
    snapshot: FileSnapshot,
) -> (count: int)
    requires
        root_walk(image, branch, file, None, keys) == Ok::<Option<FileSnapshot>, FilesystemError>(
            Some(snapshot),
        ),
    ensures
        0 < count <= keys.len(),
        keys[count - 1] == pair_key(branch.0, snapshot.branch_position.ordinal),
        snapshot.file_identifier == file,
        snapshot.branch_position.branch_identifier == branch,
        root_walk(image, branch, file, None, keys.take(count)) == Ok::<
            Option<FileSnapshot>,
            FilesystemError,
        >(Some(snapshot)),
    decreases keys.len(),
{
    let last = keys.last();
    if root_walk(image, branch, file, None, keys.drop_last()) == Ok::<
        Option<FileSnapshot>,
        FilesystemError,
    >(Some(snapshot)) && image.branch_roots[last] is Some && snapshot_in_root(
        image,
        file,
        image.branch_roots[last]->0,
    ) == Ok::<Option<SnapshotView>, FilesystemError>(None) {
        let count = lemma_walk_found(image, branch, file, keys.drop_last(), snapshot);
        assert(keys.drop_last().take(count) =~= keys.take(count));
        count
    } else {
        lemma_pair_of(branch.0, last);
        assert(keys.take(keys.len() as int) =~= keys);
        keys.len() as int
    }
}

/// A snapshot that is found on a branch is found again at its own position.
pub proof fn lemma_snapshot_is_found_again(
    image: Image,
    branch: BranchIdentifier,
    file: FileIdentifier,
    position: BranchPosition,
    snapshot: FileSnapshot,
)
    requires
        listed(image.snapshots),
        listed(image.branch_roots),
        position.branch_identifier == branch,
        snapshot_by_position(image, branch, file, position) == Ok::<
            Option<FileSnapshot>,
            FilesystemError,
        >(Some(snapshot)),
    ensures
        snapshot.file_identifier == file,
        snapshot.branch_position.branch_identifier == branch,
        snapshot_by_position(image, branch, file, snapshot.branch_position) == Ok::<
            Option<FileSnapshot>,
            FilesystemError,
        >(Some(snapshot)),
{
    let keys = listed_keys(image.snapshots);
    let prefix = pair_key(branch.0, file.0);
    let end = triple_key(branch.0, file.0, position.ordinal);
    let front = keys_up_to(keys, end);
    lemma_up_to(keys, end);
    if front.len() > 0 && has_prefix(front.last(), prefix) {
        let key = front.last();
        let at = front.len() - 1;
        assert(key == keys[at]);
        lemma_triple_of(branch.0, file.0, key);
        assert(key == triple_key(branch.0, file.0, snapshot.branch_position.ordinal));
        lemma_up_to_key(keys, at);
        assert(keys.take(at + 1).last() == key);
    } else {
        let roots = listed_keys(image.branch_roots);
        let last = pair_key(branch.0, position.ordinal);
        lemma_up_to(roots, last);
        let count = lemma_walk_found(image, branch, file, keys_up_to(roots, last), snapshot);
        let found = snapshot.branch_position.ordinal;
        assert(keys_up_to(roots, last).take(count) =~= roots.take(count));
        assert(roots[count - 1] == pair_key(branch.0, found));
        lemma_up_to_key(roots, count - 1);
        lemma_no_row_before(keys, branch, file, found, position.ordinal, roots, count - 1);
    }
}

/// Where no row of a file comes at or before a position, none does at or before an earlier one.
proof fn lemma_no_row_before(
    keys: Seq<Seq<u8>>,
    branch: BranchIdentifier,
    file: FileIdentifier,
    earlier: u64,
    later: u64,
    roots: Seq<Seq<u8>>,
    at: int,
)
    requires
        sorted_keys(keys),
        0 <= at < keys_up_to(roots, pair_key(branch.0, later)).len(),
        sorted_keys(roots),
        roots[at] == pair_key(branch.0, earlier),
        ({
            let front = keys_up_to(keys, triple_key(branch.0, file.0, later));
            front.len() == 0 || !has_prefix(front.last(), pair_key(branch.0, file.0))
        }),
    ensures
        ({
            let front = keys_up_to(keys, triple_key(branch.0, file.0, earlier));
            front.len() == 0 || !has_prefix(front.last(), pair_key(branch.0, file.0))
        }),
{
    let prefix = pair_key(branch.0, file.0);
    let low = triple_key(branch.0, file.0, earlier);
    let high = triple_key(branch.0, file.0, later);
    let front = keys_up_to(keys, low);
    let more = keys_up_to(keys, high);
    lemma_up_to(keys, low);
    lemma_up_to(keys, high);
    lemma_up_to(roots, pair_key(branch.0, later));
    assert(earlier <= later) by {
        let bound = keys_up_to(roots, pair_key(branch.0, later));
        lemma_pair_key_order(branch.0, later, branch.0, earlier);
        if later < earlier {
            assert(bytes_before(pair_key(branch.0, later), roots[at]));
            if at < bound.len() - 1 {
                assert(bytes_before(roots[at], roots[bound.len() - 1]));
                lemma_bytes_before_transitive(
                    pair_key(branch.0, later),
                    roots[at],
                    roots[bound.len() - 1],
                );
            }
            assert(bound.last() == roots[bound.len() - 1]);
        }
    }
    if front.len() > 0 && has_prefix(front.last(), prefix) {
        let row = front.last();
        let at = front.len() - 1;
        assert(row == keys[at]);
        lemma_triple_key_order(branch.0, file.0, earlier, branch.0, file.0, later);
        assert(!bytes_before(high, row)) by {
            if bytes_before(high, row) && earlier < later {
                lemma_bytes_before_transitive(low, high, row);
            }
        }
        if more.len() <= at {
            assert(bytes_before(high, keys[at]));
        }
        let top = more.last();
        assert(top == keys[more.len() - 1]);
        assert(!bytes_before(top, row)) by {
            if more.len() - 1 > at {
                assert(bytes_before(keys[at], keys[more.len() - 1]));
                if bytes_before(top, row) {
                    lemma_bytes_before_asymmetric(top, row);
                }
            } else {
                lemma_bytes_before_irreflexive(row);
            }
        }
        assert(has_prefix(high, prefix)) by {
            assert(high.take(16) =~= prefix);
        }
        lemma_between(prefix, row, top, high);
    }
}

/// A range of a file as a snapshot has it is that range of the whole, up to the end; past the end there
/// is nothing. The whole must fit in memory.
pub proof fn lemma_snapshot_range_is_part(
    image: Image,
    snapshot: FileSnapshot,
    manifest: Seq<u8>,
    offset: u64,
    length: u64,
    levels: nat,
)
    requires
        stocked(image.manifests, image.chunks),
        manifest_of_contents(image, snapshot.file_identifier, snapshot.branch_position) == Some(
            manifest,
        ),
        complete(image.manifests, manifest, levels),
        levels <= CONTENT_MANIFEST_MAX_DEPTH + 1,
        snapshot.file_size <= usize::MAX,
    ensures
        ({
            let size = snapshot.file_size;
            let count = clipped(size, offset, length);
            let whole = range_bytes(image.manifests, image.chunks, manifest, 0, size);
            &&& range_readable(image.manifests, image.chunks, manifest, 0, size)
            &&& offset >= size ==> count == 0
            &&& offset < size ==> offset + count <= size && (count == length || offset + count
                == size)
            &&& count > 0 ==> {
                &&& range_readable(image.manifests, image.chunks, manifest, offset, count)
                &&& range_bytes(image.manifests, image.chunks, manifest, offset, count)
                    == whole.subrange(offset as int, offset + count)
            }
        }),
{
    let size = snapshot.file_size;
    let count = clipped(size, offset, length);
    let manifests = image.manifests;
    let chunks = image.chunks;
    lemma_reading_follows_cells(manifests, manifest, 0, size, levels);
    if size > 0 {
        lemma_collected_ready(manifests, chunks, manifest, 0, size, 0);
    }
    if count > 0 {
        let end = (offset + count) as u64;
        lemma_reading_follows_cells(manifests, manifest, offset, end, levels);
        lemma_collected_ready(manifests, chunks, manifest, offset, end, 0);
        let whole = range_bytes(manifests, chunks, manifest, 0, size);
        let part = range_bytes(manifests, chunks, manifest, offset, count);
        let expected = whole.subrange(offset as int, offset + count);
        assert forall|k: int| 0 <= k < count implies part[k] == #[trigger] expected[k] by {
            lemma_reading_bytes(manifests, chunks, manifest, offset, count, levels, k);
            lemma_reading_bytes(manifests, chunks, manifest, 0, size, levels, offset + k);
        }
        assert(part =~= expected);
    }
}

} // verus!
