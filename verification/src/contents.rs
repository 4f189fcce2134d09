//! What manifests say of file contents, and what writing does to it.

use vstd::prelude::*;

use crate::edit::{
    append_plan, appended_plan, extended_child, extents_end, extents_plan, extents_window,
    node_plan, open_children, range_plan, replaced_children, replaced_plan, sound, wrapped_plan,
    MANIFEST_LEVELS,
};
use crate::extents::{
    data_cuts, extent_cell, extents_slice, is_partition, lemma_partition_within,
    lemma_slice_keeps_cells, lemma_slice_within, placed_data, ExtentView,
};
use crate::hash::{
    identifier, well_shaped, Blobs, CONTENT_CHUNK_HASH_BLAKE3, CONTENT_MANIFEST_HASH_BLAKE3,
};
use crate::manifest::{
    collected, collected_children, empty_identifier, extents_in_range, manifest_at,
    manifest_encoding, manifest_identifier, valid_children, ChildView, Manifest,
    CONTENT_MANIFEST_CONCAT_MAX_CHILDREN, CONTENT_MANIFEST_MAX_DEPTH,
};

verus! {

/// Where a file position lies by a manifest, looking at most some levels down: in the last extent
/// that holds it, or through the window that holds it. `None` where nothing was written.
pub open spec fn cell(nodes: Blobs, identifier: Seq<u8>, position: int, levels: nat) -> Option<
    (Seq<u8>, int),
>
    decreases levels, 0nat,
{
    if levels == 0 || identifier == empty_identifier() {
        None
    } else {
        match manifest_at(nodes, identifier) {
            None => None,
            Some(Manifest::Extents(extents)) => extent_cell(extents, position),
            Some(Manifest::Concat(children)) => child_cell(
                nodes,
                children,
                position,
                (levels - 1) as nat,
            ),
        }
    }
}

/// Where a file position lies by joined manifests.
pub open spec fn child_cell(
    nodes: Blobs,
    children: Seq<ChildView>,
    position: int,
    levels: nat,
) -> Option<(Seq<u8>, int)>
    decreases levels, children.len() + 1,
{
    if children.len() == 0 {
        None
    } else if children.last().covers(position) {
        cell(nodes, children.last().identifier, position, levels)
    } else {
        child_cell(nodes, children.drop_last(), position, levels)
    }
}

/// Every number that reading a list of extents computes fits.
pub open spec fn readable_extents(extents: Seq<ExtentView>) -> bool {
    forall|i: int|
        0 <= i < extents.len() ==> {
            let extent = #[trigger] extents[i];
            &&& extent.end() <= u64::MAX
            &&& extent.chunk_offset + extent.length <= u64::MAX
        }
}

/// A manifest and all it joins are stored and readable, at most some levels deep.
pub open spec fn complete(nodes: Blobs, identifier: Seq<u8>, levels: nat) -> bool
    decreases levels,
{
    &&& levels > 0
    &&& well_shaped(identifier, CONTENT_MANIFEST_HASH_BLAKE3)
    &&& identifier == empty_identifier() || match manifest_at(nodes, identifier) {
        None => false,
        Some(Manifest::Extents(extents)) => readable_extents(extents),
        Some(Manifest::Concat(children)) => forall|i: int|
            0 <= i < children.len() ==> complete(
                nodes,
                (#[trigger] children[i]).identifier,
                (levels - 1) as nat,
            ),
    }
}

/// Nothing is written at or after a file offset.
pub open spec fn bounded(nodes: Blobs, identifier: Seq<u8>, end: int, levels: nat) -> bool {
    forall|position: int|
        position >= end ==> (#[trigger] cell(nodes, identifier, position, levels)) is None
}

/// A manifest describes a file of some length and can be appended to: joined manifests end within the
/// length, and a full one that reaches it ends in one that can be appended to as well.
pub open spec fn appendable(nodes: Blobs, identifier: Seq<u8>, end: int, levels: nat) -> bool
    decreases levels,
{
    &&& complete(nodes, identifier, levels)
    &&& bounded(nodes, identifier, end, levels)
    &&& identifier == empty_identifier() || match manifest_at(nodes, identifier) {
        Some(Manifest::Concat(children)) => {
            &&& children.last().end() <= end
            &&& levels > 0
            &&& children.len() >= CONTENT_MANIFEST_CONCAT_MAX_CHILDREN && children.last().end()
                == end ==> appendable(
                nodes,
                children.last().identifier,
                end,
                (levels - 1) as nat,
            )
        },
        _ => true,
    }
}

proof fn lemma_collected_part(
    nodes: Blobs,
    identifier: Seq<u8>,
    start: u64,
    end: u64,
    depth: int,
    levels: nat,
)
    requires
        complete(nodes, identifier, levels),
        0 <= depth,
        depth + levels <= CONTENT_MANIFEST_MAX_DEPTH + 1,
        start <= end,
    ensures
        collected(nodes, identifier, start, end, depth) is Some,
        forall|position: int| #[trigger]
            extent_cell(collected(nodes, identifier, start, end, depth)->0, position) == (if start
                <= position < end {
                cell(nodes, identifier, position, levels)
            } else {
                None
            }),
        within(collected(nodes, identifier, start, end, depth)->0, start, end),
    decreases levels, 0nat,
{
    if identifier != empty_identifier() {
        match manifest_at(nodes, identifier) {
            None => {},
            Some(Manifest::Extents(extents)) => {
                lemma_slice_exists(extents, start, end);
                let sliced = extents_slice(extents, start, end, start)->0;
                assert forall|position: int| #[trigger] extent_cell(sliced, position) == (if start
                    <= position < end {
                    cell(nodes, identifier, position, levels)
                } else {
                    None
                }) by {
                    lemma_slice_keeps_cells(extents, start, end, start, position);
                }
                assert forall|i: int| 0 <= i < sliced.len() implies start <= (
                #[trigger] sliced[i]).logical_offset && sliced[i].end() <= end && sliced[i].length
                    > 0 by {
                    lemma_slice_within(extents, start, end, start, i);
                }
            },
            Some(Manifest::Concat(children)) => {
                lemma_collected_children_part(
                    nodes,
                    children,
                    start,
                    end,
                    depth + 1,
                    (levels - 1) as nat,
                );
            },
        }
    }
}

/// Extents lie in a range and none is empty.
pub open spec fn within(extents: Seq<ExtentView>, start: u64, end: u64) -> bool {
    forall|i: int|
        0 <= i < extents.len() ==> start <= (#[trigger] extents[i]).logical_offset
            && extents[i].end() <= end && extents[i].length > 0
}

proof fn lemma_slice_exists(extents: Seq<ExtentView>, start: u64, end: u64)
    requires
        readable_extents(extents),
    ensures
        extents_slice(extents, start, end, start) is Some,
    decreases extents.len(),
{
    if start < end && extents.len() > 0 {
        assert(readable_extents(extents.drop_last())) by {
            assert forall|i: int| 0 <= i < extents.drop_last().len() implies ({
                let extent = #[trigger] extents.drop_last()[i];
                &&& extent.end() <= u64::MAX
                &&& extent.chunk_offset + extent.length <= u64::MAX
            }) by {
                assert(extents[i].end() <= u64::MAX);
            }
        }
        lemma_slice_exists(extents.drop_last(), start, end);
        assert(extents[extents.len() - 1].end() <= u64::MAX);
    }
}

proof fn lemma_cells_join(front: Seq<ExtentView>, back: Seq<ExtentView>, position: int)
    ensures
        extent_cell(front + back, position) == (match extent_cell(back, position) {
            Some(found) => Some(found),
            None => extent_cell(front, position),
        }),
    decreases back.len(),
{
    if back.len() == 0 {
        assert(front + back =~= front);
    } else {
        assert((front + back).drop_last() =~= front + back.drop_last());
        lemma_cells_join(front, back.drop_last(), position);
    }
}

proof fn lemma_collected_children_part(
    nodes: Blobs,
    children: Seq<ChildView>,
    start: u64,
    end: u64,
    depth: int,
    levels: nat,
)
    requires
        forall|i: int|
            0 <= i < children.len() ==> complete(
                nodes,
                (#[trigger] children[i]).identifier,
                levels,
            ) && children[i].end() <= u64::MAX,
        forall|i: int, j: int|
            0 <= i < j < children.len() ==> (#[trigger] children[i]).end() <= (
            #[trigger] children[j]).logical_offset,
        0 <= depth,
        depth + levels <= CONTENT_MANIFEST_MAX_DEPTH + 1,
        start <= end,
    ensures
        collected_children(nodes, children, start, end, depth) is Some,
        forall|position: int| #[trigger]
            extent_cell(collected_children(nodes, children, start, end, depth)->0, position) == (
            if start <= position < end {
                child_cell(nodes, children, position, levels)
            } else {
                None
            }),
        within(collected_children(nodes, children, start, end, depth)->0, start, end),
    decreases levels, children.len() + 1,
{
    if children.len() > 0 {
        let child = children.last();
        assert(child == children[children.len() - 1]);
        let rest = children.drop_last();
        assert forall|i: int| 0 <= i < rest.len() implies complete(
            nodes,
            (#[trigger] rest[i]).identifier,
            levels,
        ) && rest[i].end() <= u64::MAX by {
            assert(rest[i] == children[i]);
        }
        assert forall|i: int, j: int| 0 <= i < j < rest.len() implies (#[trigger] rest[i]).end()
            <= (#[trigger] rest[j]).logical_offset by {
            assert(rest[i] == children[i]);
            assert(rest[j] == children[j]);
        }
        lemma_collected_children_part(nodes, rest, start, end, depth, levels);
        let front = collected_children(nodes, rest, start, end, depth)->0;
        assert forall|position: int| position >= child.logical_offset implies (
        #[trigger] child_cell(nodes, rest, position, levels)) is None by {
            assert forall|i: int| 0 <= i < rest.len() implies !(#[trigger] rest[i]).covers(
                position,
            ) by {
                assert(rest[i] == children[i]);
                assert(children[i].end() <= children[children.len() - 1].logical_offset);
            }
            lemma_child_cell_none(nodes, rest, position, levels);
        }
        if child.end() <= start || child.logical_offset >= end {
        } else {
            let from = if start > child.logical_offset { start } else { child.logical_offset };
            let to = if (end as int) < child.end() { end } else { child.end() as u64 };
            lemma_collected_part(nodes, child.identifier, from, to, depth, levels);
            let part = collected(nodes, child.identifier, from, to, depth)->0;
            assert forall|position: int| #[trigger] extent_cell(front + part, position) == (
            if start <= position < end {
                child_cell(nodes, children, position, levels)
            } else {
                None
            }) by {
                lemma_cells_join(front, part, position);
                assert(extent_cell(part, position) == (if from <= position < to {
                    cell(nodes, child.identifier, position, levels)
                } else {
                    None
                }));
                assert(position >= child.logical_offset ==> child_cell(
                    nodes,
                    rest,
                    position,
                    levels,
                ) is None);
            }
            assert forall|i: int| 0 <= i < (front + part).len() implies start <= (
            #[trigger] (front + part)[i]).logical_offset && (front + part)[i].end() <= end && (
            front + part)[i].length > 0 by {
                if i < front.len() {
                    assert((front + part)[i] == front[i]);
                } else {
                    assert((front + part)[i] == part[i - front.len()]);
                }
            }
        }
    }
}

proof fn lemma_child_cell_none(
    nodes: Blobs,
    children: Seq<ChildView>,
    position: int,
    levels: nat,
)
    requires
        forall|i: int| 0 <= i < children.len() ==> !(#[trigger] children[i]).covers(position),
    ensures
        child_cell(nodes, children, position, levels) is None,
    decreases children.len(),
{
    if children.len() > 0 {
        assert(!children[children.len() - 1].covers(position));
        assert forall|i: int| 0 <= i < children.drop_last().len() implies !(
        #[trigger] children.drop_last()[i]).covers(position) by {
            assert(children.drop_last()[i] == children[i]);
        }
        lemma_child_cell_none(nodes, children.drop_last(), position, levels);
    }
}

/// Reading a range of a complete manifest succeeds as long as it is not too deep, and what is read
/// lies where the manifest says: the extents are in the range, none is empty, and each position of
/// the range has the cell that the manifest gives it.
pub proof fn lemma_reading_follows_cells(
    nodes: Blobs,
    identifier: Seq<u8>,
    start: u64,
    end: u64,
    levels: nat,
)
    requires
        complete(nodes, identifier, levels),
        levels <= CONTENT_MANIFEST_MAX_DEPTH + 1,
        start <= end,
    ensures
        extents_in_range(nodes, identifier, start, end) is Some,
        forall|position: int| #[trigger]
            extent_cell(extents_in_range(nodes, identifier, start, end)->0, position) == (
            if start <= position < end {
                cell(nodes, identifier, position, levels)
            } else {
                None
            }),
        within(extents_in_range(nodes, identifier, start, end)->0, start, end),
{
    lemma_collected_part(nodes, identifier, start, end, 0, levels);
}

/// Adding manifests keeps what complete manifests say, and so does looking further down.
pub proof fn lemma_complete_extends(
    nodes: Blobs,
    larger: Blobs,
    identifier: Seq<u8>,
    levels: nat,
    more: nat,
)
    requires
        complete(nodes, identifier, levels),
        nodes.submap_of(larger),
        levels <= more,
    ensures
        complete(larger, identifier, more),
        forall|position: int| #[trigger]
            cell(larger, identifier, position, more) == cell(nodes, identifier, position, levels),
    decreases levels,
{
    if identifier != empty_identifier() {
        lemma_manifest_kept(nodes, larger, identifier);
        match manifest_at(nodes, identifier) {
            Some(Manifest::Concat(children)) => {
                let below = (levels - 1) as nat;
                let below_more = (more - 1) as nat;
                assert forall|i: int| 0 <= i < children.len() implies complete(
                    larger,
                    (#[trigger] children[i]).identifier,
                    below_more,
                ) by {
                    lemma_complete_extends(
                        nodes,
                        larger,
                        children[i].identifier,
                        below,
                        below_more,
                    );
                }
                assert forall|position: int| #[trigger]
                    cell(larger, identifier, position, more) == cell(
                        nodes,
                        identifier,
                        position,
                        levels,
                    ) by {
                    lemma_child_cell_extends(
                        nodes,
                        larger,
                        children,
                        children.len() as int,
                        position,
                        below,
                        below_more,
                    );
                    assert(children.take(children.len() as int) =~= children);
                }
            },
            _ => {},
        }
    }
}

pub proof fn lemma_manifest_kept(nodes: Blobs, larger: Blobs, identifier: Seq<u8>)
    requires
        nodes.submap_of(larger),
        manifest_at(nodes, identifier) is Some,
    ensures
        manifest_at(larger, identifier) == manifest_at(nodes, identifier),
{
    assert(nodes.dom().contains(identifier));
    assert(larger.dom().contains(identifier));
    assert(larger[identifier] == nodes[identifier]);
}

proof fn lemma_child_cell_extends(
    nodes: Blobs,
    larger: Blobs,
    children: Seq<ChildView>,
    count: int,
    position: int,
    levels: nat,
    more: nat,
)
    requires
        0 <= count <= children.len(),
        forall|i: int|
            0 <= i < children.len() ==> complete(nodes, (#[trigger] children[i]).identifier, levels),
        nodes.submap_of(larger),
        levels <= more,
    ensures
        child_cell(larger, children.take(count), position, more) == child_cell(
            nodes,
            children.take(count),
            position,
            levels,
        ),
    decreases levels, count,
{
    if count > 0 {
        assert(children.take(count).last() == children[count - 1]);
        assert(children.take(count).drop_last() =~= children.take(count - 1));
        lemma_complete_extends_at(nodes, larger, children[count - 1].identifier, position, levels, more);
        lemma_child_cell_extends(nodes, larger, children, count - 1, position, levels, more);
    }
}

proof fn lemma_complete_extends_at(
    nodes: Blobs,
    larger: Blobs,
    identifier: Seq<u8>,
    position: int,
    levels: nat,
    more: nat,
)
    requires
        complete(nodes, identifier, levels),
        nodes.submap_of(larger),
        levels <= more,
    ensures
        cell(larger, identifier, position, more) == cell(nodes, identifier, position, levels),
    decreases levels, 0int,
{
    if identifier != empty_identifier() {
        lemma_manifest_kept(nodes, larger, identifier);
        match manifest_at(nodes, identifier) {
            Some(Manifest::Concat(children)) => {
                lemma_child_cell_extends(
                    nodes,
                    larger,
                    children,
                    children.len() as int,
                    position,
                    (levels - 1) as nat,
                    (more - 1) as nat,
                );
                assert(children.take(children.len() as int) =~= children);
            },
            _ => {},
        }
    }
}

/// Manifests are stored under their identifiers, none of which is that of the empty one.
pub open spec fn stores(nodes: Blobs, manifests: Seq<Manifest>) -> bool {
    forall|i: int|
        0 <= i < manifests.len() ==> {
            let manifest = #[trigger] manifests[i];
            &&& sound(manifest)
            &&& manifest_identifier(manifest) != empty_identifier()
            &&& nodes.contains_key(manifest_identifier(manifest))
            &&& nodes[manifest_identifier(manifest)] == manifest_encoding(manifest)
        }
}

/// A window shows a stored list of extents, which lie in it.
pub open spec fn shows(nodes: Blobs, window: ChildView, extents: Seq<ExtentView>) -> bool {
    &&& window.identifier != empty_identifier()
    &&& well_shaped(window.identifier, CONTENT_MANIFEST_HASH_BLAKE3)
    &&& manifest_at(nodes, window.identifier) == Some(Manifest::Extents(extents))
    &&& readable_extents(extents)
    &&& window.length > 0
    &&& window.end() <= u64::MAX
    &&& forall|position: int|
        !window.covers(position) ==> (#[trigger] extent_cell(extents, position)) is None
}

/// Nothing is left out of windows of which none is empty.
pub proof fn lemma_open_children_all(children: Seq<ChildView>)
    requires
        forall|i: int| 0 <= i < children.len() ==> (#[trigger] children[i]).length != 0,
    ensures
        open_children(children) == children,
    decreases children.len(),
{
    reveal(Seq::filter);
    reveal(open_children);
    if children.len() > 0 {
        let rest = children.drop_last();
        assert forall|i: int| 0 <= i < rest.len() implies (#[trigger] rest[i]).length != 0 by {
            assert(rest[i] == children[i]);
        }
        lemma_open_children_all(rest);
        assert(children[children.len() - 1].length != 0);
        assert(open_children(children) =~= open_children(rest).push(children.last()));
        assert(rest.push(children.last()) =~= children);
    } else {
        assert(open_children(children) =~= children);
    }
}

pub proof fn lemma_shown_cell(
    nodes: Blobs,
    window: ChildView,
    extents: Seq<ExtentView>,
    position: int,
    levels: nat,
)
    requires
        shows(nodes, window, extents),
        levels > 0,
    ensures
        complete(nodes, window.identifier, levels),
        cell(nodes, window.identifier, position, levels) == extent_cell(extents, position),
{
}

/// What appending gives: the appended extents where their window is, and the old contents elsewhere
/// from a start on.
pub open spec fn appends(
    nodes: Blobs,
    identifier: Seq<u8>,
    levels: nat,
    larger: Blobs,
    appended: Seq<u8>,
    start: int,
    window: ChildView,
    extents: Seq<ExtentView>,
) -> bool {
    forall|position: int|
        position >= start ==> (#[trigger] cell(larger, appended, position, levels + 1)) == (
        if window.covers(position) {
            extent_cell(extents, position)
        } else {
            cell(nodes, identifier, position, levels)
        })
}

proof fn lemma_wrap(
    nodes: Blobs,
    larger: Blobs,
    identifier: Seq<u8>,
    start: u64,
    end: u64,
    window: ChildView,
    extents: Seq<ExtentView>,
    levels: nat,
)
    requires
        complete(nodes, identifier, levels),
        bounded(nodes, identifier, end as int, levels),
        nodes.submap_of(larger),
        start <= end <= window.logical_offset,
        shows(larger, window, extents),
        wrapped_plan(identifier, start, end, window) is Some ==> stores(
            larger,
            wrapped_plan(identifier, start, end, window)->0.nodes,
        ),
    ensures
        wrapped_plan(identifier, start, end, window) is Some,
        appendable(
            larger,
            wrapped_plan(identifier, start, end, window)->0.identifier,
            window.end(),
            levels + 1,
        ),
        appends(
            nodes,
            identifier,
            levels,
            larger,
            wrapped_plan(identifier, start, end, window)->0.identifier,
            start as int,
            window,
            extents,
        ),
{
    let current = ChildView { logical_offset: start, length: (end - start) as u64, identifier };
    let front = if start < end { seq![current] } else { Seq::empty() };
    let children = front.push(window);
    lemma_open_children_all(children);
    assert(valid_children(children));
    let manifest = Manifest::Concat(children);
    let new = manifest_identifier(manifest);
    let plan = wrapped_plan(identifier, start, end, window)->0;
    assert(plan.nodes[0] == manifest);
    assert(manifest_at(larger, new) == Some(manifest));
    lemma_complete_extends(nodes, larger, identifier, levels, levels);
    lemma_shown_cell(larger, window, extents, 0, levels);
    assert forall|i: int| 0 <= i < children.len() implies complete(
        larger,
        (#[trigger] children[i]).identifier,
        levels,
    ) by {}
    assert(complete(larger, new, levels + 1));
    assert(children.drop_last() =~= front);
    assert forall|position: int| position >= start implies (#[trigger] cell(
        larger,
        new,
        position,
        levels + 1,
    )) == (if window.covers(position) {
        extent_cell(extents, position)
    } else {
        cell(nodes, identifier, position, levels)
    }) by {
        lemma_shown_cell(larger, window, extents, position, levels);
        assert(cell(larger, identifier, position, levels) == cell(
            nodes,
            identifier,
            position,
            levels,
        ));
        assert(cell(larger, new, position, levels + 1) == child_cell(
            larger,
            children,
            position,
            levels,
        ));
        reveal_with_fuel(child_cell, 3);
        if start < end {
            assert(front.drop_last() =~= Seq::<ChildView>::empty());
        }
    }
    assert forall|position: int| position >= window.end() implies (#[trigger] cell(
        larger,
        new,
        position,
        levels + 1,
    )) is None by {
        assert(cell(nodes, identifier, position, levels) is None);
    }
}

/// Appending keeps what a file holds and adds the appended extents: the new manifest can be appended
/// to again and is at most one level deeper.
pub proof fn lemma_append_adds(
    nodes: Blobs,
    larger: Blobs,
    identifier: Seq<u8>,
    start: u64,
    end: u64,
    window: ChildView,
    extents: Seq<ExtentView>,
    fuel: nat,
    levels: nat,
)
    requires
        appendable(nodes, identifier, end as int, levels),
        levels <= fuel,
        nodes.submap_of(larger),
        start <= end <= window.logical_offset,
        shows(larger, window, extents),
        append_plan(nodes, identifier, start, end, window, fuel) is Some,
        stores(larger, append_plan(nodes, identifier, start, end, window, fuel)->0.nodes),
    ensures
        appendable(
            larger,
            append_plan(nodes, identifier, start, end, window, fuel)->0.identifier,
            window.end(),
            levels + 1,
        ),
        appends(
            nodes,
            identifier,
            levels,
            larger,
            append_plan(nodes, identifier, start, end, window, fuel)->0.identifier,
            start as int,
            window,
            extents,
        ),
    decreases levels,
{
    let plan = append_plan(nodes, identifier, start, end, window, fuel)->0;
    if identifier == empty_identifier() {
        assert forall|position: int| (#[trigger] cell(
            larger,
            window.identifier,
            position,
            levels + 1,
        )) == extent_cell(extents, position) by {
            lemma_shown_cell(larger, window, extents, position, levels + 1);
        }
        lemma_shown_cell(larger, window, extents, 0, levels + 1);
    } else {
        match manifest_at(nodes, identifier) {
            Some(Manifest::Extents(_)) => {
                lemma_wrap(nodes, larger, identifier, start, end, window, extents, levels);
            },
            Some(Manifest::Concat(children)) => {
                let last = children.last();
                if children.len() < CONTENT_MANIFEST_CONCAT_MAX_CHILDREN {
                    lemma_push(nodes, larger, identifier, end, window, extents, levels);
                } else if last.end() != end {
                    lemma_wrap(nodes, larger, identifier, start, end, window, extents, levels);
                } else {
                    let inner = append_plan(
                        nodes,
                        last.identifier,
                        last.logical_offset,
                        last.end() as u64,
                        window,
                        (fuel - 1) as nat,
                    )->0;
                    let next = children.drop_last().push(
                        extended_child(last, window, inner.identifier),
                    );
                    let outer = node_plan(next)->0;
                    assert(plan.nodes == inner.nodes + outer.nodes);
                    assert(stores(larger, inner.nodes)) by {
                        assert forall|i: int| 0 <= i < inner.nodes.len() implies ({
                            let manifest = #[trigger] inner.nodes[i];
                            &&& sound(manifest)
                            &&& manifest_identifier(manifest) != empty_identifier()
                            &&& larger.contains_key(manifest_identifier(manifest))
                            &&& larger[manifest_identifier(manifest)] == manifest_encoding(manifest)
                        }) by {
                            assert(plan.nodes[i] == inner.nodes[i]);
                        }
                    }
                    lemma_append_adds(
                        nodes,
                        larger,
                        last.identifier,
                        last.logical_offset,
                        last.end() as u64,
                        window,
                        extents,
                        (fuel - 1) as nat,
                        (levels - 1) as nat,
                    );
                    assert(plan.nodes[inner.nodes.len() as int] == Manifest::Concat(next));
                    assert((levels - 1) as nat + 1 == levels);
                    assert(appendable(nodes, last.identifier, end as int, (levels - 1) as nat));
                    assert(bounded(nodes, last.identifier, last.end(), (levels - 1) as nat));
                    assert(appendable(larger, inner.identifier, window.end(), levels));
                    assert(appends(
                        nodes,
                        last.identifier,
                        (levels - 1) as nat,
                        larger,
                        inner.identifier,
                        last.logical_offset as int,
                        window,
                        extents,
                    ));
                    lemma_replace_last(
                        nodes,
                        larger,
                        identifier,
                        window,
                        extents,
                        inner.identifier,
                        levels,
                    );
                }
            },
            None => {},
        }
    }
}

proof fn lemma_push(
    nodes: Blobs,
    larger: Blobs,
    identifier: Seq<u8>,
    end: u64,
    window: ChildView,
    extents: Seq<ExtentView>,
    levels: nat,
)
    requires
        appendable(nodes, identifier, end as int, levels),
        identifier != empty_identifier(),
        manifest_at(nodes, identifier) is Some,
        manifest_at(nodes, identifier)->0 is Concat,
        ({
            let children = manifest_at(nodes, identifier)->0->Concat_0;
            &&& children.len() < CONTENT_MANIFEST_CONCAT_MAX_CHILDREN
            &&& stores(larger, seq![Manifest::Concat(children.push(window))])
        }),
        nodes.submap_of(larger),
        end <= window.logical_offset,
        shows(larger, window, extents),
    ensures
        ({
            let children = manifest_at(nodes, identifier)->0->Concat_0;
            let new = manifest_identifier(Manifest::Concat(children.push(window)));
            &&& appendable(larger, new, window.end(), levels + 1)
            &&& appends(nodes, identifier, levels, larger, new, 0, window, extents)
            &&& forall|position: int|
                (#[trigger] cell(larger, new, position, levels + 1)) == (if window.covers(
                    position,
                ) {
                    extent_cell(extents, position)
                } else {
                    cell(nodes, identifier, position, levels)
                })
        }),
{
    let children = manifest_at(nodes, identifier)->0->Concat_0;
    let next = children.push(window);
    let manifest = Manifest::Concat(next);
    let new = manifest_identifier(manifest);
    let below = (levels - 1) as nat;
    assert(seq![manifest][0] == manifest);
    assert(manifest_at(larger, new) == Some(manifest));
    assert forall|i: int| 0 <= i < next.len() implies complete(
        larger,
        (#[trigger] next[i]).identifier,
        levels,
    ) by {
        if i < children.len() {
            assert(next[i] == children[i]);
            lemma_complete_extends(nodes, larger, children[i].identifier, below, levels);
        } else {
            lemma_shown_cell(larger, window, extents, 0, levels);
        }
    }
    assert(complete(larger, new, levels + 1));
    assert forall|position: int| (#[trigger] cell(larger, new, position, levels + 1)) == (
    if window.covers(position) {
        extent_cell(extents, position)
    } else {
        cell(nodes, identifier, position, levels)
    }) by {
        lemma_shown_cell(larger, window, extents, position, levels);
        assert(next.drop_last() =~= children);
        assert(cell(larger, new, position, levels + 1) == child_cell(
            larger,
            next,
            position,
            levels,
        ));
        lemma_child_cell_extends(
            nodes,
            larger,
            children,
            children.len() as int,
            position,
            below,
            levels,
        );
        assert(children.take(children.len() as int) =~= children);
    }
    assert forall|position: int| position >= window.end() implies (#[trigger] cell(
        larger,
        new,
        position,
        levels + 1,
    )) is None by {
        assert(cell(nodes, identifier, position, levels) is None);
    }
    assert forall|position: int| position >= window.end() implies (#[trigger] cell(
        larger,
        window.identifier,
        position,
        levels,
    )) is None by {
        lemma_shown_cell(larger, window, extents, position, levels);
    }
    lemma_shown_cell(larger, window, extents, 0, levels);
    assert(appendable(larger, window.identifier, window.end(), levels));
}

proof fn lemma_replace_last(
    nodes: Blobs,
    larger: Blobs,
    identifier: Seq<u8>,
    window: ChildView,
    extents: Seq<ExtentView>,
    inner: Seq<u8>,
    levels: nat,
)
    requires
        complete(nodes, identifier, levels),
        identifier != empty_identifier(),
        manifest_at(nodes, identifier) is Some,
        manifest_at(nodes, identifier)->0 is Concat,
        nodes.submap_of(larger),
        shows(larger, window, extents),
        ({
            let children = manifest_at(nodes, identifier)->0->Concat_0;
            let last = children.last();
            let next = Manifest::Concat(
                children.drop_last().push(extended_child(last, window, inner)),
            );
            &&& sound(next)
            &&& manifest_identifier(next) != empty_identifier()
            &&& larger.contains_key(manifest_identifier(next))
            &&& larger[manifest_identifier(next)] == manifest_encoding(next)
            &&& last.end() <= window.logical_offset
            &&& bounded(nodes, identifier, last.end(), levels)
            &&& bounded(nodes, last.identifier, last.end(), (levels - 1) as nat)
            &&& appendable(larger, inner, window.end(), levels)
            &&& appends(
                nodes,
                last.identifier,
                (levels - 1) as nat,
                larger,
                inner,
                last.logical_offset as int,
                window,
                extents,
            )
        }),
    ensures
        ({
            let children = manifest_at(nodes, identifier)->0->Concat_0;
            let new = manifest_identifier(
                Manifest::Concat(
                    children.drop_last().push(extended_child(children.last(), window, inner)),
                ),
            );
            &&& appendable(larger, new, window.end(), levels + 1)
            &&& forall|position: int|
                (#[trigger] cell(larger, new, position, levels + 1)) == (if window.covers(
                    position,
                ) {
                    extent_cell(extents, position)
                } else {
                    cell(nodes, identifier, position, levels)
                })
        }),
{
    let children = manifest_at(nodes, identifier)->0->Concat_0;
    let last = children.last();
    let rest = children.drop_last();
    let extended = extended_child(last, window, inner);
    let next = rest.push(extended);
    let manifest = Manifest::Concat(next);
    let new = manifest_identifier(manifest);
    let below = (levels - 1) as nat;
    assert(manifest_at(larger, new) == Some(manifest));
    assert forall|i: int| 0 <= i < next.len() implies complete(
        larger,
        (#[trigger] next[i]).identifier,
        levels,
    ) by {
        if i < rest.len() {
            assert(next[i] == children[i]);
            lemma_complete_extends(nodes, larger, children[i].identifier, below, levels);
        }
    }
    assert(complete(larger, new, levels + 1));
    assert(next.drop_last() =~= rest);
    assert(children.take(rest.len() as int) =~= rest);
    assert forall|position: int| (#[trigger] cell(larger, new, position, levels + 1)) == (
    if window.covers(position) {
        extent_cell(extents, position)
    } else {
        cell(nodes, identifier, position, levels)
    }) by {
        assert(cell(larger, new, position, levels + 1) == child_cell(
            larger,
            next,
            position,
            levels,
        ));
        assert(cell(nodes, identifier, position, levels) == child_cell(
            nodes,
            children,
            position,
            below,
        ));
        lemma_child_cell_extends(
            nodes,
            larger,
            children,
            rest.len() as int,
            position,
            below,
            levels,
        );
        if position >= last.logical_offset {
            assert forall|i: int| 0 <= i < rest.len() implies !(#[trigger] rest[i]).covers(
                position,
            ) by {
                assert(rest[i] == children[i]);
                assert(children[i].end() <= children[children.len() - 1].logical_offset);
            }
            lemma_child_cell_none(nodes, rest, position, below);
            assert(levels == below + 1);
            assert(cell(larger, inner, position, below + 1) == (if window.covers(position) {
                extent_cell(extents, position)
            } else {
                cell(nodes, last.identifier, position, below)
            }));
            if position >= last.end() {
                assert(cell(nodes, last.identifier, position, below) is None);
            }
        }
    }
    assert forall|position: int| position >= window.end() implies (#[trigger] cell(
        larger,
        new,
        position,
        levels + 1,
    )) is None by {
        assert(cell(nodes, identifier, position, levels) is None);
    }
    assert(appendable(larger, new, window.end(), levels + 1));
}

/// Appending to a manifest that can be appended to succeeds.
pub proof fn lemma_append_succeeds(
    nodes: Blobs,
    identifier: Seq<u8>,
    start: u64,
    end: u64,
    window: ChildView,
    fuel: nat,
    levels: nat,
)
    requires
        appendable(nodes, identifier, end as int, levels),
        levels <= fuel,
        start <= end <= window.logical_offset,
        well_shaped(window.identifier, CONTENT_MANIFEST_HASH_BLAKE3),
        window.length > 0,
        window.end() <= u64::MAX,
    ensures
        append_plan(nodes, identifier, start, end, window, fuel) is Some,
        well_shaped(
            append_plan(nodes, identifier, start, end, window, fuel)->0.identifier,
            CONTENT_MANIFEST_HASH_BLAKE3,
        ),
    decreases levels,
{
    if identifier != empty_identifier() {
        let current = ChildView { logical_offset: start, length: (end - start) as u64, identifier };
        let front = if start < end { seq![current] } else { Seq::empty() };
        lemma_open_children_all(front.push(window));
        assert(valid_children(front.push(window)));
        match manifest_at(nodes, identifier) {
            Some(Manifest::Concat(children)) => {
                let last = children.last();
                if children.len() < CONTENT_MANIFEST_CONCAT_MAX_CHILDREN {
                    assert(valid_children(children.push(window)));
                } else if last.end() == end {
                    lemma_append_succeeds(
                        nodes,
                        last.identifier,
                        last.logical_offset,
                        last.end() as u64,
                        window,
                        (fuel - 1) as nat,
                        (levels - 1) as nat,
                    );
                    let inner = append_plan(
                        nodes,
                        last.identifier,
                        last.logical_offset,
                        last.end() as u64,
                        window,
                        (fuel - 1) as nat,
                    )->0;
                    let next = children.drop_last().push(
                        extended_child(last, window, inner.identifier),
                    );
                    assert(valid_children(next)) by {
                        assert forall|i: int, j: int| 0 <= i < j < next.len() implies (
                        #[trigger] next[i]).end() <= (#[trigger] next[j]).logical_offset by {
                            assert(next[i] == children[i]);
                            assert(next[j].logical_offset == children[j].logical_offset);
                        }
                    }
                }
            },
            _ => {},
        }
    }
}

proof fn lemma_child_cell_at(
    nodes: Blobs,
    children: Seq<ChildView>,
    at: int,
    position: int,
    levels: nat,
)
    requires
        0 <= at < children.len(),
        forall|i: int, j: int|
            0 <= i < j < children.len() ==> (#[trigger] children[i]).end() <= (
            #[trigger] children[j]).logical_offset,
        children[at].covers(position),
    ensures
        child_cell(nodes, children, position, levels) == cell(
            nodes,
            children[at].identifier,
            position,
            levels,
        ),
    decreases children.len(),
{
    if at < children.len() - 1 {
        assert(children[at].end() <= children[children.len() - 1].logical_offset);
        let rest = children.drop_last();
        assert forall|i: int, j: int| 0 <= i < j < rest.len() implies (#[trigger] rest[i]).end()
            <= (#[trigger] rest[j]).logical_offset by {
            assert(rest[i] == children[i] && rest[j] == children[j]);
        }
        lemma_child_cell_at(nodes, rest, at, position, levels);
    }
}

/// What joining windows gives: through the window that holds a position, else nothing.
pub proof fn lemma_joined(nodes: Blobs, larger: Blobs, children: Seq<ChildView>, levels: nat)
    requires
        levels > 0,
        valid_children(children),
        nodes.submap_of(larger),
        stores(larger, seq![Manifest::Concat(children)]),
        forall|i: int|
            0 <= i < children.len() ==> complete(
                larger,
                (#[trigger] children[i]).identifier,
                levels,
            ),
    ensures
        ({
            let new = manifest_identifier(Manifest::Concat(children));
            &&& complete(larger, new, levels + 1)
            &&& children.len() < CONTENT_MANIFEST_CONCAT_MAX_CHILDREN ==> appendable(
                larger,
                new,
                children.last().end(),
                levels + 1,
            )
            &&& forall|position: int|
                (#[trigger] cell(larger, new, position, levels + 1)) == child_cell(
                    larger,
                    children,
                    position,
                    levels,
                )
        }),
{
    let manifest = Manifest::Concat(children);
    let new = manifest_identifier(manifest);
    assert(seq![manifest][0] == manifest);
    assert(manifest_at(larger, new) == Some(manifest));
    assert forall|position: int| (#[trigger] cell(larger, new, position, levels + 1)) == child_cell(
        larger,
        children,
        position,
        levels,
    ) by {}
    assert forall|position: int| position >= children.last().end() implies (#[trigger] cell(
        larger,
        new,
        position,
        levels + 1,
    )) is None by {
        assert forall|i: int| 0 <= i < children.len() implies !(#[trigger] children[i]).covers(
            position,
        ) by {
            if i < children.len() - 1 {
                assert(children[i].end() <= children[children.len() - 1].logical_offset);
            }
        }
        lemma_child_cell_none(larger, children, position, levels);
    }
}

/// Replacing a part of a file gives the written extents in that part and keeps the rest. The new
/// manifest can be appended to at the new length.
pub proof fn lemma_replace_writes(
    nodes: Blobs,
    larger: Blobs,
    previous: Seq<u8>,
    previous_length: u64,
    offset: u64,
    end: u64,
    extents: Seq<ExtentView>,
    levels: nat,
)
    requires
        complete(nodes, previous, levels),
        bounded(nodes, previous, previous_length as int, levels),
        nodes.submap_of(larger),
        offset < end,
        extents.len() > 0,
        extents_window(extents, extents_plan(extents).identifier) is Some,
        ({
            let window = extents_window(extents, extents_plan(extents).identifier)->0;
            &&& window.logical_offset == offset
            &&& window.end() == end
            &&& shows(larger, window, extents)
        }),
        replaced_plan(previous, previous_length, offset, end, extents) is Some,
        stores(larger, replaced_plan(previous, previous_length, offset, end, extents)->0.nodes),
    ensures
        ({
            let new = replaced_plan(previous, previous_length, offset, end, extents)->0.identifier;
            &&& appendable(
                larger,
                new,
                if end < previous_length { previous_length as int } else { end as int },
                levels + 1,
            )
            &&& forall|position: int|
                position >= 0 ==> (#[trigger] cell(larger, new, position, levels + 1)) == (
                if offset <= position < end {
                    extent_cell(extents, position)
                } else {
                    cell(nodes, previous, position, levels)
                })
        }),
{
    let identifier = extents_plan(extents).identifier;
    let window = extents_window(extents, identifier)->0;
    let plan = replaced_plan(previous, previous_length, offset, end, extents)->0;
    let children = replaced_windows(previous, previous_length, offset, end, window);
    lemma_replaced_windows(previous, previous_length, offset, end, window);
    lemma_replaced_open(previous, previous_length, offset, end, window);
    assert(plan.nodes == extents_plan(extents).nodes + seq![Manifest::Concat(children)]);
    assert(plan.nodes[1] == Manifest::Concat(children));
    assert(stores(larger, seq![Manifest::Concat(children)])) by {
        assert(seq![Manifest::Concat(children)][0] == plan.nodes[1]);
    }
    lemma_complete_extends(nodes, larger, previous, levels, levels);
    lemma_shown_cell(larger, window, extents, 0, levels);
    assert forall|i: int| 0 <= i < children.len() implies complete(
        larger,
        (#[trigger] children[i]).identifier,
        levels,
    ) by {}
    lemma_joined(nodes, larger, children, levels);
    let new = manifest_identifier(Manifest::Concat(children));
    assert forall|position: int| position >= 0 implies (#[trigger] cell(
        larger,
        new,
        position,
        levels + 1,
    )) == (if offset <= position < end {
        extent_cell(extents, position)
    } else {
        cell(nodes, previous, position, levels)
    }) by {
        lemma_shown_cell(larger, window, extents, position, levels);
        assert(cell(larger, previous, position, levels) == cell(
            nodes,
            previous,
            position,
            levels,
        ));
        lemma_replaced_cell(
            larger,
            previous,
            previous_length,
            offset,
            end,
            window,
            position,
            levels,
        );
        if position >= previous_length {
            assert(cell(nodes, previous, position, levels) is None);
        }
    }
}

/// The windows around and of a replaced part, without empty ones.
spec fn replaced_windows(
    previous: Seq<u8>,
    previous_length: u64,
    offset: u64,
    end: u64,
    window: ChildView,
) -> Seq<ChildView> {
    let before = ChildView {
        logical_offset: 0,
        length: if offset < previous_length { offset } else { previous_length },
        identifier: previous,
    };
    let after = ChildView {
        logical_offset: end,
        length: (previous_length - end) as u64,
        identifier: previous,
    };
    let first = if before.length > 0 && offset > 0 { seq![before] } else { Seq::empty() };
    let third = if end < previous_length { seq![after] } else { Seq::empty() };
    first + seq![window] + third
}

proof fn lemma_replaced_windows(
    previous: Seq<u8>,
    previous_length: u64,
    offset: u64,
    end: u64,
    window: ChildView,
)
    requires
        offset < end,
        window.logical_offset == offset,
        window.end() == end,
        well_shaped(window.identifier, CONTENT_MANIFEST_HASH_BLAKE3),
        well_shaped(previous, CONTENT_MANIFEST_HASH_BLAKE3),
    ensures
        ({
            let children = replaced_windows(previous, previous_length, offset, end, window);
            &&& valid_children(children)
            &&& children.len() <= 3
            &&& children.last().end() == if end < previous_length { previous_length } else { end }
            &&& forall|i: int|
                0 <= i < children.len() ==> (#[trigger] children[i]).identifier == previous
                    || children[i] == window
        }),
{
    let children = replaced_windows(previous, previous_length, offset, end, window);
    let place: int = if offset > 0 && previous_length > 0 { 1 } else { 0 };
    assert(children[place] == window);
    assert forall|i: int| 0 <= i < children.len() implies {
        let child = #[trigger] children[i];
        &&& well_shaped(child.identifier, CONTENT_MANIFEST_HASH_BLAKE3)
        &&& child.length > 0
        &&& child.end() <= u64::MAX
        &&& i == place ==> child == window
        &&& i < place ==> child.identifier == previous && child.end() <= offset
        &&& i > place ==> child.identifier == previous && child.logical_offset == end
            && child.end() == previous_length && i == place + 1
    } by {}
}

proof fn lemma_replaced_open(
    previous: Seq<u8>,
    previous_length: u64,
    offset: u64,
    end: u64,
    window: ChildView,
)
    requires
        offset < end,
        window.length > 0,
    ensures
        open_children(replaced_children(previous, previous_length, offset, end, seq![window]))
            == replaced_windows(previous, previous_length, offset, end, window),
{
    let all = replaced_children(previous, previous_length, offset, end, seq![window]);
    let children = replaced_windows(previous, previous_length, offset, end, window);
    let before = ChildView {
        logical_offset: 0,
        length: if offset < previous_length { offset } else { previous_length },
        identifier: previous,
    };
    lemma_open_children_all(children);
    if offset > 0 && before.length == 0 {
        assert(all =~= seq![before] + children);
        lemma_open_children_first(before, children);
    } else {
        assert(all =~= children);
    }
}

proof fn lemma_replaced_cell(
    nodes: Blobs,
    previous: Seq<u8>,
    previous_length: u64,
    offset: u64,
    end: u64,
    window: ChildView,
    position: int,
    levels: nat,
)
    requires
        offset < end,
        window.logical_offset == offset,
        window.end() == end,
        position >= 0,
    ensures
        child_cell(
            nodes,
            replaced_windows(previous, previous_length, offset, end, window),
            position,
            levels,
        ) == (if window.covers(position) {
            cell(nodes, window.identifier, position, levels)
        } else if position < previous_length {
            cell(nodes, previous, position, levels)
        } else {
            None
        }),
{
    let children = replaced_windows(previous, previous_length, offset, end, window);
    let place: int = if offset > 0 && previous_length > 0 { 1 } else { 0 };
    assert(children[place] == window);
    if window.covers(position) {
        lemma_child_cell_at(nodes, children, place, position, levels);
    } else if position < offset && position < previous_length {
        lemma_child_cell_at(nodes, children, 0, position, levels);
    } else if end <= position < previous_length {
        lemma_child_cell_at(nodes, children, place + 1, position, levels);
    } else {
        lemma_child_cell_none(nodes, children, position, levels);
    }
}

proof fn lemma_open_children_first(first: ChildView, rest: Seq<ChildView>)
    requires
        first.length == 0,
    ensures
        open_children(seq![first] + rest) == open_children(rest),
    decreases rest.len(),
{
    reveal(Seq::filter);
    reveal(open_children);
    let all = seq![first] + rest;
    if rest.len() == 0 {
        assert(all.drop_last() =~= Seq::<ChildView>::empty());
        assert(open_children(all.drop_last()) =~= Seq::<ChildView>::empty());
        assert(all.last() == first);
        assert(open_children(rest) =~= Seq::<ChildView>::empty());
    } else {
        assert(all.drop_last() =~= seq![first] + rest.drop_last());
        assert(all.last() == rest.last());
        lemma_open_children_first(first, rest.drop_last());
    }
}

/// The manifest of a part of a file holds that part and nothing else. It can be appended to at the
/// end of the part.
pub proof fn lemma_range_restricts(
    nodes: Blobs,
    larger: Blobs,
    identifier: Seq<u8>,
    offset: u64,
    length: u64,
    levels: nat,
)
    requires
        complete(nodes, identifier, levels),
        nodes.submap_of(larger),
        range_plan(identifier, offset, length) is Some,
        stores(larger, range_plan(identifier, offset, length)->0.nodes),
    ensures
        ({
            let new = range_plan(identifier, offset, length)->0.identifier;
            &&& appendable(larger, new, offset + length, levels + 1)
            &&& forall|position: int|
                (#[trigger] cell(larger, new, position, levels + 1)) == (if offset <= position
                    < offset + length {
                    cell(nodes, identifier, position, levels)
                } else {
                    None
                })
        }),
{
    if length > 0 {
        let child = ChildView { logical_offset: offset, length, identifier };
        let children = seq![child];
        lemma_open_children_all(children);
        lemma_complete_extends(nodes, larger, identifier, levels, levels);
        assert(valid_children(children));
        lemma_joined(nodes, larger, children, levels);
        let new = manifest_identifier(Manifest::Concat(children));
        assert(range_plan(identifier, offset, length)->0.identifier == new);
        assert forall|position: int| (#[trigger] cell(larger, new, position, levels + 1)) == (
        if offset <= position < offset + length {
            cell(nodes, identifier, position, levels)
        } else {
            None
        }) by {
            assert(cell(larger, identifier, position, levels) == cell(
                nodes,
                identifier,
                position,
                levels,
            ));
            if child.covers(position) {
                assert(children[0].covers(position));
                lemma_child_cell_at(larger, children, 0, position, levels);
            } else {
                lemma_child_cell_none(larger, children, position, levels);
            }
        }
    }
}

/// Appending extents to a file gives the appended extents and keeps the rest. The new manifest can be
/// appended to at the new length.
pub proof fn lemma_appending_writes(
    nodes: Blobs,
    larger: Blobs,
    previous: Seq<u8>,
    previous_length: u64,
    extents: Seq<ExtentView>,
    levels: nat,
)
    requires
        appendable(nodes, previous, previous_length as int, levels),
        levels <= MANIFEST_LEVELS,
        nodes.submap_of(larger),
        extents.len() > 0,
        extents_window(extents, extents_plan(extents).identifier) is Some,
        ({
            let window = extents_window(extents, extents_plan(extents).identifier)->0;
            &&& window.logical_offset >= previous_length
            &&& shows(larger, window, extents)
        }),
        appended_plan(nodes, previous, previous_length, extents) is Some,
        stores(larger, appended_plan(nodes, previous, previous_length, extents)->0.nodes),
    ensures
        ({
            let window = extents_window(extents, extents_plan(extents).identifier)->0;
            let new = appended_plan(nodes, previous, previous_length, extents)->0.identifier;
            &&& appendable(larger, new, window.end(), levels + 1)
            &&& forall|position: int|
                position >= 0 ==> (#[trigger] cell(larger, new, position, levels + 1)) == (
                if window.covers(position) {
                    extent_cell(extents, position)
                } else {
                    cell(nodes, previous, position, levels)
                })
        }),
{
    let first = extents_plan(extents);
    let window = extents_window(extents, first.identifier)->0;
    let plan = appended_plan(nodes, previous, previous_length, extents)->0;
    if previous == empty_identifier() {
        assert forall|position: int| (#[trigger] cell(
            larger,
            window.identifier,
            position,
            levels + 1,
        )) == extent_cell(extents, position) by {
            lemma_shown_cell(larger, window, extents, position, levels + 1);
        }
        lemma_shown_cell(larger, window, extents, 0, levels + 1);
    } else {
        let rest = append_plan(
            nodes,
            previous,
            0,
            previous_length,
            window,
            MANIFEST_LEVELS as nat,
        )->0;
        assert(stores(larger, rest.nodes)) by {
            assert forall|i: int| 0 <= i < rest.nodes.len() implies ({
                let manifest = #[trigger] rest.nodes[i];
                &&& sound(manifest)
                &&& manifest_identifier(manifest) != empty_identifier()
                &&& larger.contains_key(manifest_identifier(manifest))
                &&& larger[manifest_identifier(manifest)] == manifest_encoding(manifest)
            }) by {
                assert(plan.nodes[first.nodes.len() + i] == rest.nodes[i]);
            }
        }
        lemma_append_adds(
            nodes,
            larger,
            previous,
            0,
            previous_length,
            window,
            extents,
            MANIFEST_LEVELS as nat,
            levels,
        );
    }
}

/// A chunk store holds every piece of some data under its identifier.
pub open spec fn holds_pieces(
    chunks: Blobs,
    bytes: Seq<u8>,
    cuts: Seq<(usize, usize)>,
) -> bool {
    forall|i: int|
        0 <= i < cuts.len() ==> {
            let piece = bytes.subrange((#[trigger] cuts[i]).0 as int, cuts[i].0 + cuts[i].1);
            let name = identifier(CONTENT_CHUNK_HASH_BLAKE3, piece);
            chunks.contains_key(name) && chunks[name] == piece
        }
}

/// The byte in a cell of a chunk store, if it is there.
pub open spec fn chunk_byte(chunks: Blobs, place: (Seq<u8>, int)) -> Option<u8> {
    if chunks.contains_key(place.0) && 0 <= place.1 < chunks[place.0].len() {
        Some(chunks[place.0][place.1])
    } else {
        None
    }
}

proof fn lemma_placed_prefix(
    chunks: Blobs,
    bytes: Seq<u8>,
    offset: u64,
    count: int,
    position: int,
)
    requires
        0 < count <= data_cuts(bytes).len(),
        is_partition(data_cuts(bytes), bytes.len() as int),
        holds_pieces(chunks, bytes, data_cuts(bytes)),
        offset + bytes.len() <= u64::MAX,
    ensures
        ({
            let cuts = data_cuts(bytes);
            let front = placed_data(offset, bytes).take(count);
            let end = cuts[count - 1].0 + cuts[count - 1].1;
            &&& 0 < end <= bytes.len()
            &&& extents_end(front) == offset + end
            &&& offset <= position < offset + end ==> extent_cell(front, position) is Some
                && chunk_byte(chunks, extent_cell(front, position)->0) == Some(
                bytes[position - offset],
            )
            &&& !(offset <= position < offset + end) ==> extent_cell(front, position) is None
        }),
    decreases count,
{
    let cuts = data_cuts(bytes);
    let all = placed_data(offset, bytes);
    let front = all.take(count);
    let at = count - 1;
    lemma_partition_within(cuts, bytes.len() as int, at);
    assert(front.last() == all[at]);
    assert(front.drop_last() =~= all.take(at));
    let piece = bytes.subrange(cuts[at].0 as int, cuts[at].0 + cuts[at].1);
    let name = identifier(CONTENT_CHUNK_HASH_BLAKE3, piece);
    assert(chunks.contains_key(name) && chunks[name] == piece);
    assert(all[at].logical_offset == offset + cuts[at].0);
    assert(all[at].end() == offset + cuts[at].0 + cuts[at].1);
    assert(extents_end(front) == (if all[at].end() > extents_end(all.take(at)) {
        all[at].end()
    } else {
        extents_end(all.take(at))
    }));
    if all[at].covers(position) {
        let place = all[at].cell(position);
        assert(place.0 == name);
        assert(piece[place.1] == bytes[position - offset]);
    }
    if count == 1 {
        assert(all.take(0) =~= Seq::<ExtentView>::empty());
        assert(extents_end(all.take(0)) == 0);
        assert(extent_cell(all.take(0), position) is None);
    } else {
        lemma_placed_prefix(chunks, bytes, offset, at, position);
        assert(cuts[at].0 == cuts[at - 1].0 + cuts[at - 1].1);
    }
}

/// Data that was cut, placed at a file offset and stored is found again: every position of the data
/// has its byte, no other position is covered, and the window of the extents is that of the data.
pub proof fn lemma_placed_data(chunks: Blobs, bytes: Seq<u8>, offset: u64, manifest: Seq<u8>)
    requires
        bytes.len() > 0,
        is_partition(data_cuts(bytes), bytes.len() as int),
        holds_pieces(chunks, bytes, data_cuts(bytes)),
        offset + bytes.len() <= u64::MAX,
    ensures
        ({
            let extents = placed_data(offset, bytes);
            &&& extents.len() > 0
            &&& readable_extents(extents)
            &&& extents_window(extents, manifest) == Some(
                ChildView {
                    logical_offset: offset,
                    length: bytes.len() as u64,
                    identifier: manifest,
                },
            )
            &&& forall|position: int|
                offset <= position < offset + bytes.len() ==> (#[trigger] extent_cell(
                    extents,
                    position,
                )) is Some && chunk_byte(chunks, extent_cell(extents, position)->0) == Some(
                    bytes[position - offset],
                )
            &&& forall|position: int|
                !(offset <= position < offset + bytes.len()) ==> (#[trigger] extent_cell(
                    extents,
                    position,
                )) is None
        }),
{
    let extents = placed_data(offset, bytes);
    let cuts = data_cuts(bytes);
    assert(extents.take(cuts.len() as int) =~= extents);
    lemma_placed_prefix(chunks, bytes, offset, cuts.len() as int, 0);
    assert forall|position: int| offset <= position < offset + bytes.len() implies (
    #[trigger] extent_cell(extents, position)) is Some && chunk_byte(
        chunks,
        extent_cell(extents, position)->0,
    ) == Some(bytes[position - offset]) by {
        lemma_placed_prefix(chunks, bytes, offset, cuts.len() as int, position);
    }
    assert forall|position: int| !(offset <= position < offset + bytes.len()) implies (
    #[trigger] extent_cell(extents, position)) is None by {
        lemma_placed_prefix(chunks, bytes, offset, cuts.len() as int, position);
    }
    assert forall|i: int| 0 <= i < extents.len() implies ({
        let extent = #[trigger] extents[i];
        &&& extent.end() <= u64::MAX
        &&& extent.chunk_offset + extent.length <= u64::MAX
    }) by {
        lemma_partition_within(cuts, bytes.len() as int, i);
    }
    assert(extents[0].logical_offset == offset);
}

} // verus!
