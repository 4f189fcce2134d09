//! Writing content manifests: appending to a file, replacing a part of it, and cutting it off.

use vstd::prelude::*;

use crate::bytes::{bytes_equal, copy_bytes};
use crate::error::FilesystemError;
use crate::extents::{extent_views, ExtentView, StoredExtent};
use crate::hash::{
    blobs, content_manifest_identifier_for_bytes, identifies, put_views,
    validate_prefixed_blake3_identifier_shape, well_shaped, Blobs, BytesPut,
    CONTENT_MANIFEST_HASH_BLAKE3,
};
use crate::manifest::{
    child_views, decodes_back, empty_content_manifest_identifier, empty_identifier,
    encode_content_manifest, encode_content_manifest_node, manifest_at, manifest_encoding,
    manifest_identifier, named_chunks, read_manifest, valid_children, ChildView,
    DecodedContentManifest, Manifest, StoredContentManifestChild,
    CONTENT_MANIFEST_CONCAT_MAX_CHILDREN,
};
use crate::table::Table;

verus! {

/// More levels than any manifest has.
pub const MANIFEST_LEVELS: u64 = u64::MAX;

/// The identifier of a manifest, and the manifests to store for it.
pub ghost struct ManifestPlan {
    pub identifier: Seq<u8>,
    pub nodes: Seq<Manifest>,
}

/// What is stored for manifests.
pub open spec fn manifest_puts(nodes: Seq<Manifest>) -> Seq<(Seq<u8>, Seq<u8>)> {
    Seq::new(nodes.len(), |i: int| (manifest_identifier(nodes[i]), manifest_encoding(nodes[i])))
}

/// A manifest decodes back from its stored form, which its identifier names.
pub open spec fn sound(manifest: Manifest) -> bool {
    &&& decodes_back(manifest)
    &&& identifies(
        manifest_identifier(manifest),
        CONTENT_MANIFEST_HASH_BLAKE3,
        manifest_encoding(manifest),
    )
}

/// Every manifest decodes back from its stored form, which its identifier names.
pub open spec fn all_sound(nodes: Seq<Manifest>) -> bool {
    forall|i: int| 0 <= i < nodes.len() ==> sound(#[trigger] nodes[i])
}

/// A written identifier and the manifests stored for it agree with a plan; an integrity error stands
/// for its absence.
pub open spec fn follows_plan(
    result: Result<Vec<u8>, FilesystemError>,
    before: Seq<BytesPut>,
    after: Seq<BytesPut>,
    plan: Option<ManifestPlan>,
) -> bool {
    match result {
        Ok(identifier) => {
            &&& plan is Some
            &&& identifier@ == plan->0.identifier
            &&& put_views(after) == put_views(before) + manifest_puts(plan->0.nodes)
        },
        Err(error) => error == FilesystemError::Integrity && plan is None,
    }
}

/// The plan for a list of extents: an empty list is named but not stored.
pub open spec fn extents_plan(extents: Seq<ExtentView>) -> ManifestPlan {
    ManifestPlan {
        identifier: manifest_identifier(Manifest::Extents(extents)),
        nodes: if extents.len() == 0 {
            Seq::empty()
        } else {
            seq![Manifest::Extents(extents)]
        },
    }
}

/// The plan for joined manifests: none where they are not in order.
pub open spec fn node_plan(children: Seq<ChildView>) -> Option<ManifestPlan> {
    if valid_children(children) {
        Some(
            ManifestPlan {
                identifier: manifest_identifier(Manifest::Concat(children)),
                nodes: seq![Manifest::Concat(children)],
            },
        )
    } else {
        None
    }
}

/// The children whose window is not empty.
#[verifier::opaque]
pub open spec fn open_children(children: Seq<ChildView>) -> Seq<ChildView> {
    children.filter(|child: ChildView| child.length != 0)
}

/// The plan for joined manifests of which those with an empty window are left out.
pub open spec fn children_plan(children: Seq<ChildView>) -> Option<ManifestPlan> {
    if open_children(children).len() == 0 {
        Some(ManifestPlan { identifier: empty_identifier(), nodes: Seq::empty() })
    } else {
        node_plan(open_children(children))
    }
}

/// The greatest end of some extents.
pub open spec fn extents_end(extents: Seq<ExtentView>) -> int
    decreases extents.len(),
{
    if extents.len() == 0 {
        0
    } else {
        let rest = extents_end(extents.drop_last());
        if extents.last().end() > rest {
            extents.last().end()
        } else {
            rest
        }
    }
}

/// The window of a list of extents, from the start of the first to the greatest end; none for an
/// empty list or where an end does not fit.
pub open spec fn extents_window(extents: Seq<ExtentView>, identifier: Seq<u8>) -> Option<ChildView> {
    if extents.len() == 0 || extents_end(extents) > u64::MAX {
        None
    } else {
        Some(
            ChildView {
                logical_offset: extents[0].logical_offset,
                length: (extents_end(extents) - extents[0].logical_offset) as u64,
                identifier,
            },
        )
    }
}

/// The plan for a manifest and one more after it.
pub open spec fn wrapped_plan(
    identifier: Seq<u8>,
    start: u64,
    end: u64,
    appended: ChildView,
) -> Option<ManifestPlan> {
    let current = if start < end {
        seq![ChildView { logical_offset: start, length: (end - start) as u64, identifier }]
    } else {
        Seq::empty()
    };
    children_plan(current.push(appended))
}

/// The plan for appending to the manifest of the file range between two offsets. A manifest that
/// joins few others takes one more; a full one that reaches the end hands it on to its last child;
/// anything else is joined with it.
pub open spec fn append_plan(
    nodes: Blobs,
    identifier: Seq<u8>,
    start: u64,
    end: u64,
    appended: ChildView,
    levels: nat,
) -> Option<ManifestPlan>
    decreases levels,
{
    if !well_shaped(identifier, CONTENT_MANIFEST_HASH_BLAKE3) {
        None
    } else if identifier == empty_identifier() {
        Some(ManifestPlan { identifier: appended.identifier, nodes: Seq::empty() })
    } else {
        match manifest_at(nodes, identifier) {
            None => None,
            Some(Manifest::Extents(_)) => wrapped_plan(identifier, start, end, appended),
            Some(Manifest::Concat(children)) => {
                let last = children.last();
                if children.len() < CONTENT_MANIFEST_CONCAT_MAX_CHILDREN {
                    node_plan(children.push(appended))
                } else if last.end() != end {
                    wrapped_plan(identifier, start, end, appended)
                } else if levels == 0 || appended.end() > u64::MAX {
                    None
                } else {
                    match append_plan(
                        nodes,
                        last.identifier,
                        last.logical_offset,
                        last.end() as u64,
                        appended,
                        (levels - 1) as nat,
                    ) {
                        None => None,
                        Some(inner) => if appended.end() < last.logical_offset {
                            None
                        } else {
                            match node_plan(
                                children.drop_last().push(
                                    extended_child(last, appended, inner.identifier),
                                ),
                            ) {
                                None => None,
                                Some(outer) => Some(
                                    ManifestPlan {
                                        identifier: outer.identifier,
                                        nodes: inner.nodes + outer.nodes,
                                    },
                                ),
                            }
                        },
                    }
                }
            },
        }
    }
}

/// A child whose window was extended to the end of an appended one.
pub open spec fn extended_child(
    last: ChildView,
    appended: ChildView,
    identifier: Seq<u8>,
) -> ChildView {
    ChildView {
        logical_offset: last.logical_offset,
        length: (appended.end() - last.logical_offset) as u64,
        identifier,
    }
}

/// The plan for appending extents to a file of some length.
pub open spec fn appended_plan(
    nodes: Blobs,
    previous: Seq<u8>,
    previous_length: u64,
    extents: Seq<ExtentView>,
) -> Option<ManifestPlan> {
    if !well_shaped(previous, CONTENT_MANIFEST_HASH_BLAKE3) {
        None
    } else if extents.len() == 0 {
        Some(ManifestPlan { identifier: previous, nodes: Seq::empty() })
    } else if previous == empty_identifier() {
        Some(extents_plan(extents))
    } else {
        match extents_window(extents, extents_plan(extents).identifier) {
            None => None,
            Some(window) => match append_plan(
                nodes,
                previous,
                0,
                previous_length,
                window,
                MANIFEST_LEVELS as nat,
            ) {
                None => None,
                Some(plan) => Some(
                    ManifestPlan {
                        identifier: plan.identifier,
                        nodes: extents_plan(extents).nodes + plan.nodes,
                    },
                ),
            },
        }
    }
}

/// The windows around and of a replaced part.
pub open spec fn replaced_children(
    previous: Seq<u8>,
    previous_length: u64,
    offset: u64,
    end: u64,
    written: Seq<ChildView>,
) -> Seq<ChildView> {
    let before = if offset > 0 {
        seq![
            ChildView {
                logical_offset: 0,
                length: if offset < previous_length { offset } else { previous_length },
                identifier: previous,
            },
        ]
    } else {
        Seq::empty()
    };
    let after = if end < previous_length {
        seq![
            ChildView {
                logical_offset: end,
                length: (previous_length - end) as u64,
                identifier: previous,
            },
        ]
    } else {
        Seq::empty()
    };
    before + written + after
}

/// The plan for replacing the part of a file between two offsets.
pub open spec fn replaced_plan(
    previous: Seq<u8>,
    previous_length: u64,
    offset: u64,
    end: u64,
    extents: Seq<ExtentView>,
) -> Option<ManifestPlan> {
    if !well_shaped(previous, CONTENT_MANIFEST_HASH_BLAKE3) {
        None
    } else if extents.len() == 0 {
        children_plan(replaced_children(previous, previous_length, offset, end, Seq::empty()))
    } else {
        match extents_window(extents, extents_plan(extents).identifier) {
            None => None,
            Some(window) => match children_plan(
                replaced_children(previous, previous_length, offset, end, seq![window]),
            ) {
                None => None,
                Some(plan) => Some(
                    ManifestPlan {
                        identifier: plan.identifier,
                        nodes: extents_plan(extents).nodes + plan.nodes,
                    },
                ),
            },
        }
    }
}

/// The plan for a part of a file.
pub open spec fn range_plan(identifier: Seq<u8>, offset: u64, length: u64) -> Option<ManifestPlan> {
    if !well_shaped(identifier, CONTENT_MANIFEST_HASH_BLAKE3) {
        None
    } else if length == 0 {
        Some(ManifestPlan { identifier: empty_identifier(), nodes: Seq::empty() })
    } else {
        children_plan(seq![ChildView { logical_offset: offset, length, identifier }])
    }
}

proof fn lemma_no_puts(puts: Seq<BytesPut>)
    ensures
        put_views(puts) + manifest_puts(Seq::empty()) == put_views(puts),
{
    assert(put_views(puts) + manifest_puts(Seq::empty()) =~= put_views(puts));
}

proof fn lemma_puts_join(puts: Seq<(Seq<u8>, Seq<u8>)>, first: Seq<Manifest>, second: Seq<Manifest>)
    ensures
        puts + manifest_puts(first) + manifest_puts(second) == puts + manifest_puts(first + second),
{
    assert(puts + manifest_puts(first) + manifest_puts(second) =~= puts + manifest_puts(
        first + second,
    ));
}

/// Stores a list of extents, unless it is empty, and returns its identifier.
pub fn put_content_manifest(batch: &mut Vec<BytesPut>, extents: &[StoredExtent]) -> (identifier: Vec<
    u8,
>)
    ensures
        identifier@ == extents_plan(extent_views(extents@)).identifier,
        well_shaped(identifier@, CONTENT_MANIFEST_HASH_BLAKE3),
        put_views(final(batch)@) == put_views(old(batch)@) + manifest_puts(
            extents_plan(extent_views(extents@)).nodes,
        ),
        named_chunks(extent_views(extents@)) ==> all_sound(
            extents_plan(extent_views(extents@)).nodes,
        ),
{
    let bytes = encode_content_manifest(extents);
    let identifier = content_manifest_identifier_for_bytes(bytes.as_slice());
    if extents.len() > 0 {
        let ghost before = batch@;
        batch.push(BytesPut { key: copy_bytes(identifier.as_slice()), value: bytes });
        proof {
            let plan = extents_plan(extent_views(extents@));
            assert(put_views(batch@) =~= put_views(before) + manifest_puts(plan.nodes));
        }
    } else {
        proof {
            lemma_no_puts(batch@);
        }
    }
    identifier
}

/// Stores joined manifests and returns their identifier.
pub fn put_content_manifest_node(
    batch: &mut Vec<BytesPut>,
    children: &[StoredContentManifestChild],
) -> (identifier: Result<Vec<u8>, FilesystemError>)
    ensures
        follows_plan(identifier, old(batch)@, final(batch)@, node_plan(child_views(children@))),
        identifier is Ok ==> all_sound(node_plan(child_views(children@))->0.nodes),
        identifier is Ok ==> well_shaped(identifier->Ok_0@, CONTENT_MANIFEST_HASH_BLAKE3),
{
    match encode_content_manifest_node(children) {
        Err(error) => Err(error),
        Ok(bytes) => {
            let identifier = content_manifest_identifier_for_bytes(bytes.as_slice());
            let ghost before = batch@;
            batch.push(BytesPut { key: copy_bytes(identifier.as_slice()), value: bytes });
            proof {
                let plan = node_plan(child_views(children@))->0;
                assert(put_views(batch@) =~= put_views(before) + manifest_puts(plan.nodes));
            }
            Ok(identifier)
        },
    }
}

/// Stores joined manifests without those whose window is empty, and returns their identifier.
pub fn put_content_manifest_children(
    batch: &mut Vec<BytesPut>,
    children: Vec<StoredContentManifestChild>,
) -> (identifier: Result<Vec<u8>, FilesystemError>)
    ensures
        follows_plan(identifier, old(batch)@, final(batch)@, children_plan(child_views(children@))),
        identifier is Ok ==> all_sound(children_plan(child_views(children@))->0.nodes),
        identifier is Ok ==> well_shaped(identifier->Ok_0@, CONTENT_MANIFEST_HASH_BLAKE3),
{
    let ghost all = child_views(children@);
    let ghost keep = |child: ChildView| child.length != 0;
    let mut retained: Vec<StoredContentManifestChild> = Vec::new();
    let mut i: usize = 0;
    proof {
        reveal(Seq::filter);
        assert(child_views(retained@) =~= Seq::<ChildView>::empty());
        assert(all.take(0).filter(keep) =~= Seq::<ChildView>::empty());
    }
    while i < children.len()
        invariant
            i <= children.len(),
            all == child_views(children@),
            keep == (|child: ChildView| child.length != 0),
            child_views(retained@) == all.take(i as int).filter(keep),
        decreases children.len() - i,
    {
        let child = &children[i];
        proof {
            reveal(Seq::filter);
            assert(all.take(i + 1).drop_last() =~= all.take(i as int));
            assert(all.take(i + 1).last() == child@);
        }
        if child.length != 0 {
            let ghost before = retained@;
            retained.push(
                StoredContentManifestChild {
                    logical_offset: child.logical_offset,
                    length: child.length,
                    identifier: copy_bytes(child.identifier.as_slice()),
                },
            );
            proof {
                assert(child_views(retained@) =~= child_views(before).push(child@));
            }
        }
        i = i + 1;
    }
    proof {
        assert(all.take(i as int) =~= all);
        reveal(open_children);
        assert(child_views(retained@) == open_children(all));
    }
    if retained.len() == 0 {
        proof {
            lemma_no_puts(batch@);
        }
        return Ok(empty_content_manifest_identifier());
    }
    put_content_manifest_node(batch, retained.as_slice())
}

/// Returns the window of a list of extents.
pub fn content_manifest_child_for_extents(
    extents: &[StoredExtent],
    identifier: Vec<u8>,
) -> (child: Result<StoredContentManifestChild, FilesystemError>)
    ensures
        match child {
            Ok(child) => extents_window(extent_views(extents@), identifier@) == Some(child@),
            Err(error) => error == FilesystemError::Integrity && extents_window(
                extent_views(extents@),
                identifier@,
            ) is None,
        },
{
    let ghost all = extent_views(extents@);
    if extents.len() == 0 {
        return Err(FilesystemError::Integrity);
    }
    let mut end: u64 = 0;
    let mut i: usize = 0;
    proof {
        assert(all.take(0) =~= Seq::<ExtentView>::empty());
    }
    while i < extents.len()
        invariant
            i <= extents.len(),
            all == extent_views(extents@),
            extents_end(all.take(i as int)) == end,
            i > 0 ==> end >= all[0].logical_offset,
        decreases extents.len() - i,
    {
        let extent = &extents[i];
        proof {
            assert(all.take(i + 1).drop_last() =~= all.take(i as int));
            assert(all.take(i + 1).last() == extent@);
            assert(all[i as int] == extent@);
        }
        match extent.logical_offset.checked_add(extent.length) {
            None => {
                proof {
                    lemma_extents_end_grows(all, i + 1);
                }
                return Err(FilesystemError::Integrity);
            },
            Some(sum) => {
                if sum > end {
                    end = sum;
                }
            },
        }
        i = i + 1;
    }
    proof {
        assert(all.take(i as int) =~= all);
    }
    Ok(
        StoredContentManifestChild {
            logical_offset: extents[0].logical_offset,
            length: end - extents[0].logical_offset,
            identifier,
        },
    )
}

proof fn lemma_extents_end_grows(extents: Seq<ExtentView>, i: int)
    requires
        0 <= i <= extents.len(),
    ensures
        extents_end(extents.take(i)) <= extents_end(extents),
    decreases extents.len() - i,
{
    if i < extents.len() {
        assert(extents.take(i + 1).drop_last() =~= extents.take(i));
        lemma_extents_end_grows(extents, i + 1);
    } else {
        assert(extents.take(i) =~= extents);
    }
}

/// Returns the end of a window.
pub fn content_manifest_child_end(child: &StoredContentManifestChild) -> (end: Result<
    u64,
    FilesystemError,
>)
    ensures
        end == (if child@.end() <= u64::MAX {
            Ok::<u64, FilesystemError>(child@.end() as u64)
        } else {
            Err::<u64, FilesystemError>(FilesystemError::Integrity)
        }),
{
    match child.logical_offset.checked_add(child.length) {
        Some(sum) => Ok(sum),
        None => Err(FilesystemError::Integrity),
    }
}

/// Stores a manifest and one more after it, joined.
pub fn put_wrapped_content_manifest_with_appended_child(
    batch: &mut Vec<BytesPut>,
    current_identifier: &[u8],
    current_start: u64,
    current_end: u64,
    appended_child: StoredContentManifestChild,
) -> (identifier: Result<Vec<u8>, FilesystemError>)
    ensures
        follows_plan(
            identifier,
            old(batch)@,
            final(batch)@,
            wrapped_plan(current_identifier@, current_start, current_end, appended_child@),
        ),
        identifier is Ok ==> all_sound(
            wrapped_plan(
                current_identifier@,
                current_start,
                current_end,
                appended_child@,
            )->0.nodes,
        ),
        identifier is Ok ==> well_shaped(identifier->Ok_0@, CONTENT_MANIFEST_HASH_BLAKE3),
{
    let ghost appended = appended_child@;
    let mut children: Vec<StoredContentManifestChild> = Vec::with_capacity(2);
    if current_start < current_end {
        children.push(
            StoredContentManifestChild {
                logical_offset: current_start,
                length: current_end - current_start,
                identifier: copy_bytes(current_identifier),
            },
        );
    }
    children.push(appended_child);
    proof {
        let current = if current_start < current_end {
            seq![
                ChildView {
                    logical_offset: current_start,
                    length: (current_end - current_start) as u64,
                    identifier: current_identifier@,
                },
            ]
        } else {
            Seq::empty()
        };
        assert(child_views(children@) =~= current.push(appended));
    }
    put_content_manifest_children(batch, children)
}

/// Stores the manifest of a file range with one more appended.
pub fn put_content_manifest_with_appended_child(
    nodes: &Table<Vec<u8>>,
    batch: &mut Vec<BytesPut>,
    current_identifier: &[u8],
    current_start: u64,
    current_end: u64,
    appended_child: StoredContentManifestChild,
    levels: u64,
) -> (identifier: Result<Vec<u8>, FilesystemError>)
    ensures
        follows_plan(
            identifier,
            old(batch)@,
            final(batch)@,
            append_plan(
                blobs(nodes@),
                current_identifier@,
                current_start,
                current_end,
                appended_child@,
                levels as nat,
            ),
        ),
        identifier is Ok ==> all_sound(
            append_plan(
                blobs(nodes@),
                current_identifier@,
                current_start,
                current_end,
                appended_child@,
                levels as nat,
            )->0.nodes,
        ),
    decreases levels,
{
    match validate_prefixed_blake3_identifier_shape(
        current_identifier,
        CONTENT_MANIFEST_HASH_BLAKE3,
    ) {
        Err(error) => return Err(error),
        Ok(_) => {},
    }
    let empty_manifest = empty_content_manifest_identifier();
    if bytes_equal(current_identifier, empty_manifest.as_slice()) {
        proof {
            lemma_no_puts(batch@);
        }
        return Ok(appended_child.identifier);
    }
    match read_manifest(nodes, current_identifier) {
        Err(error) => Err(error),
        Ok(DecodedContentManifest::Extents(_)) => put_wrapped_content_manifest_with_appended_child(
            batch,
            current_identifier,
            current_start,
            current_end,
            appended_child,
        ),
        Ok(DecodedContentManifest::Concat(decoded)) => {
            let mut children = decoded;
            let ghost all = child_views(children@);
            let ghost appended = appended_child@;
            if children.len() < CONTENT_MANIFEST_CONCAT_MAX_CHILDREN {
                children.push(appended_child);
                proof {
                    assert(child_views(children@) =~= all.push(appended));
                }
                return put_content_manifest_node(batch, children.as_slice());
            }
            proof {
                crate::manifest::lemma_manifest_in_order(blobs(nodes@), current_identifier@);
                assert(all.last() == children@.last()@);
            }
            let last: StoredContentManifestChild = match children.pop() {
                Some(child) => child,
                None => return Err(FilesystemError::Integrity),
            };
            proof {
                assert(child_views(children@) =~= all.drop_last());
            }
            let last_child_end: u64 = match content_manifest_child_end(&last) {
                Err(error) => return Err(error),
                Ok(end) => end,
            };
            if last_child_end != current_end {
                return put_wrapped_content_manifest_with_appended_child(
                    batch,
                    current_identifier,
                    current_start,
                    current_end,
                    appended_child,
                );
            }
            let appended_child_end: u64 = match content_manifest_child_end(&appended_child) {
                Err(error) => return Err(error),
                Ok(end) => end,
            };
            if levels == 0 {
                return Err(FilesystemError::Integrity);
            }
            let ghost puts_before = put_views(batch@);
            let ghost inner = append_plan(
                blobs(nodes@),
                last@.identifier,
                last@.logical_offset,
                last_child_end,
                appended,
                (levels - 1) as nat,
            );
            let inner_identifier = match put_content_manifest_with_appended_child(
                nodes,
                batch,
                last.identifier.as_slice(),
                last.logical_offset,
                last_child_end,
                appended_child,
                levels - 1,
            ) {
                Err(error) => return Err(error),
                Ok(identifier) => identifier,
            };
            if appended_child_end < last.logical_offset {
                return Err(FilesystemError::Integrity);
            }
            let ghost extended = extended_child(last@, appended, inner_identifier@);
            let ghost front = children@;
            children.push(
                StoredContentManifestChild {
                    logical_offset: last.logical_offset,
                    length: appended_child_end - last.logical_offset,
                    identifier: inner_identifier,
                },
            );
            proof {
                assert(child_views(children@) =~= child_views(front).push(extended));
            }
            let result = put_content_manifest_node(batch, children.as_slice());
            proof {
                if result is Ok {
                    let outer = node_plan(child_views(children@))->0;
                    lemma_puts_join(puts_before, inner->0.nodes, outer.nodes);
                    assert forall|i: int|
                        0 <= i < (inner->0.nodes + outer.nodes).len() implies sound(
                        #[trigger] (inner->0.nodes + outer.nodes)[i],
                    ) by {
                        if i < inner->0.nodes.len() {
                            assert(sound(inner->0.nodes[i]));
                        } else {
                            assert(sound(outer.nodes[i - inner->0.nodes.len()]));
                        }
                    }
                }
            }
            result
        },
    }
}

/// Stores the manifest of a file of some length with extents appended.
pub fn put_appended_content_manifest(
    nodes: &Table<Vec<u8>>,
    batch: &mut Vec<BytesPut>,
    previous_identifier: &[u8],
    previous_length: u64,
    appended_extents: &[StoredExtent],
) -> (identifier: Result<Vec<u8>, FilesystemError>)
    ensures
        follows_plan(
            identifier,
            old(batch)@,
            final(batch)@,
            appended_plan(
                blobs(nodes@),
                previous_identifier@,
                previous_length,
                extent_views(appended_extents@),
            ),
        ),
        identifier is Ok && named_chunks(extent_views(appended_extents@)) ==> all_sound(
            appended_plan(
                blobs(nodes@),
                previous_identifier@,
                previous_length,
                extent_views(appended_extents@),
            )->0.nodes,
        ),
{
    match validate_prefixed_blake3_identifier_shape(
        previous_identifier,
        CONTENT_MANIFEST_HASH_BLAKE3,
    ) {
        Err(error) => return Err(error),
        Ok(_) => {},
    }
    if appended_extents.len() == 0 {
        proof {
            lemma_no_puts(batch@);
        }
        return Ok(copy_bytes(previous_identifier));
    }
    let ghost puts_before = put_views(batch@);
    let ghost first = extents_plan(extent_views(appended_extents@)).nodes;
    let appended_identifier = put_content_manifest(batch, appended_extents);
    let empty_manifest = empty_content_manifest_identifier();
    if bytes_equal(previous_identifier, empty_manifest.as_slice()) {
        return Ok(appended_identifier);
    }
    match content_manifest_child_for_extents(appended_extents, appended_identifier) {
        Err(error) => Err(error),
        Ok(appended_child) => {
            let ghost window = appended_child@;
            let result = put_content_manifest_with_appended_child(
                nodes,
                batch,
                previous_identifier,
                0,
                previous_length,
                appended_child,
                MANIFEST_LEVELS,
            );
            proof {
                if result is Ok {
                    let second = append_plan(
                        blobs(nodes@),
                        previous_identifier@,
                        0,
                        previous_length,
                        window,
                        MANIFEST_LEVELS as nat,
                    )->0.nodes;
                    lemma_puts_join(puts_before, first, second);
                    lemma_sound_join(first, second);
                }
            }
            result
        },
    }
}

proof fn lemma_sound_join(first: Seq<Manifest>, second: Seq<Manifest>)
    ensures
        all_sound(first) && all_sound(second) ==> all_sound(first + second),
{
    if all_sound(first) && all_sound(second) {
        assert forall|i: int| 0 <= i < (first + second).len() implies sound(
            #[trigger] (first + second)[i],
        ) by {
            if i < first.len() {
                assert(sound(first[i]));
            } else {
                assert(sound(second[i - first.len()]));
            }
        }
    }
}

/// Stores the manifest of a file of some length in which the part between two offsets is replaced.
pub fn put_replaced_content_manifest(
    batch: &mut Vec<BytesPut>,
    previous_identifier: &[u8],
    previous_length: u64,
    offset: u64,
    end: u64,
    written_extents: &[StoredExtent],
) -> (identifier: Result<Vec<u8>, FilesystemError>)
    ensures
        follows_plan(
            identifier,
            old(batch)@,
            final(batch)@,
            replaced_plan(
                previous_identifier@,
                previous_length,
                offset,
                end,
                extent_views(written_extents@),
            ),
        ),
        identifier is Ok && named_chunks(extent_views(written_extents@)) ==> all_sound(
            replaced_plan(
                previous_identifier@,
                previous_length,
                offset,
                end,
                extent_views(written_extents@),
            )->0.nodes,
        ),
{
    match validate_prefixed_blake3_identifier_shape(
        previous_identifier,
        CONTENT_MANIFEST_HASH_BLAKE3,
    ) {
        Err(error) => return Err(error),
        Ok(_) => {},
    }
    let ghost puts_before = put_views(batch@);
    let ghost extents = extent_views(written_extents@);
    let mut children: Vec<StoredContentManifestChild> = Vec::new();
    if offset > 0 {
        children.push(
            StoredContentManifestChild {
                logical_offset: 0,
                length: if offset < previous_length {
                    offset
                } else {
                    previous_length
                },
                identifier: copy_bytes(previous_identifier),
            },
        );
    }
    let ghost mut written: Seq<ChildView> = Seq::empty();
    if written_extents.len() > 0 {
        let written_identifier = put_content_manifest(batch, written_extents);
        match content_manifest_child_for_extents(written_extents, written_identifier) {
            Err(error) => return Err(error),
            Ok(child) => {
                proof {
                    written = seq![child@];
                }
                children.push(child);
            },
        }
    }
    if end < previous_length {
        children.push(
            StoredContentManifestChild {
                logical_offset: end,
                length: previous_length - end,
                identifier: copy_bytes(previous_identifier),
            },
        );
    }
    let ghost views = child_views(children@);
    proof {
        assert(views =~= replaced_children(
            previous_identifier@,
            previous_length,
            offset,
            end,
            written,
        ));
    }
    let result = put_content_manifest_children(batch, children);
    proof {
        if result is Ok && extents.len() > 0 {
            let first = extents_plan(extents).nodes;
            let second = children_plan(views)->0.nodes;
            lemma_puts_join(puts_before, first, second);
            lemma_sound_join(first, second);
        }
    }
    result
}

/// Stores the manifest of a part of a file.
pub fn put_content_manifest_range(
    batch: &mut Vec<BytesPut>,
    identifier: &[u8],
    offset: u64,
    length: u64,
) -> (result: Result<Vec<u8>, FilesystemError>)
    ensures
        follows_plan(
            result,
            old(batch)@,
            final(batch)@,
            range_plan(identifier@, offset, length),
        ),
        result is Ok ==> all_sound(range_plan(identifier@, offset, length)->0.nodes),
{
    match validate_prefixed_blake3_identifier_shape(identifier, CONTENT_MANIFEST_HASH_BLAKE3) {
        Err(error) => return Err(error),
        Ok(_) => {},
    }
    if length == 0 {
        proof {
            lemma_no_puts(batch@);
        }
        return Ok(empty_content_manifest_identifier());
    }
    let mut children: Vec<StoredContentManifestChild> = Vec::new();
    children.push(
        StoredContentManifestChild {
            logical_offset: offset,
            length,
            identifier: copy_bytes(identifier),
        },
    );
    proof {
        assert(child_views(children@) =~= seq![
            ChildView { logical_offset: offset, length, identifier: identifier@ },
        ]);
    }
    put_content_manifest_children(batch, children)
}

} // verus!
