//! How deep files get: an append adds a level only where the manifests of a file are full. A new file
//! takes one append at one level, and every further level takes 255 more.

use vstd::prelude::*;

use crate::contents::{
    appendable, cell, complete, lemma_complete_extends, lemma_manifest_kept,
    lemma_open_children_all, shows, stores,
};
use crate::database::Image;
use crate::edit::{
    append_plan, extended_child, extents_plan, node_plan, sound, wrapped_plan, MANIFEST_LEVELS,
};
use crate::error::FuseError;
use crate::extents::{data_cuts, is_partition, placed_data, ExtentView};
use crate::files::{
    byte_at, lemma_file_kept, lemma_write_is_read_back, manifest_of, names_agree, sound_file,
    stocked,
};
use crate::hash::Blobs;
use crate::inode::{InodeView, StoredTime};
use crate::manifest::{
    empty_identifier, manifest_at, manifest_encoding, manifest_identifier, ChildView, Manifest,
    CONTENT_MANIFEST_CONCAT_MAX_CHILDREN,
};
use crate::storage::{content_sound, write_commit, PreparedView, StorageView};
use crate::success::lemma_placed_window;
use crate::writes::write_change;

verus! {

/// How many more appends the manifest of a file of some length takes within some levels. Each level
/// below the first has room for 255 more: a manifest joins at most 256 others, and the last of them is
/// the one that goes on.
pub open spec fn room(nodes: Blobs, identifier: Seq<u8>, end: int, levels: nat) -> int
    decreases levels,
{
    let most = CONTENT_MANIFEST_CONCAT_MAX_CHILDREN as int;
    if levels == 0 {
        0
    } else if identifier == empty_identifier() {
        1 + (most - 1) * (levels - 1)
    } else {
        match manifest_at(nodes, identifier) {
            None => 0,
            Some(Manifest::Extents(_)) => (most - 1) * (levels - 1),
            Some(Manifest::Concat(children)) => if levels == 1 {
                0
            } else if children.len() < most {
                most - children.len() + (most - 1) * (levels - 2)
            } else if children.last().end() == end {
                room(nodes, children.last().identifier, end, (levels - 1) as nat)
            } else {
                0
            },
        }
    }
}

/// A manifest that can be appended to within some levels, and is complete within one fewer, can be
/// appended to within those.
proof fn lemma_one_level_fewer(nodes: Blobs, identifier: Seq<u8>, end: int, levels: nat)
    requires
        appendable(nodes, identifier, end, levels + 1),
        complete(nodes, identifier, levels),
    ensures
        appendable(nodes, identifier, end, levels),
    decreases levels,
{
    lemma_complete_extends(nodes, nodes, identifier, levels, levels + 1);
    assert forall|position: int| position >= end implies (#[trigger] cell(
        nodes,
        identifier,
        position,
        levels,
    )) is None by {
        assert(cell(nodes, identifier, position, levels + 1) is None);
    }
    if identifier != empty_identifier() {
        match manifest_at(nodes, identifier) {
            Some(Manifest::Concat(children)) => {
                if children.len() >= CONTENT_MANIFEST_CONCAT_MAX_CHILDREN && children.last().end()
                    == end {
                    let last = children[children.len() - 1];
                    assert(complete(nodes, last.identifier, (levels - 1) as nat));
                    lemma_one_level_fewer(nodes, last.identifier, end, (levels - 1) as nat);
                }
            },
            _ => {},
        }
    }
}

/// A window that shows stored extents has room below it.
proof fn lemma_shown_room(larger: Blobs, window: ChildView, extents: Seq<ExtentView>, levels: nat)
    requires
        shows(larger, window, extents),
        levels > 0,
    ensures
        complete(larger, window.identifier, levels),
        room(larger, window.identifier, window.end(), levels) == 255 * (levels - 1),
{
}

/// Joining a list of extents with an append takes one level more, which then has room.
proof fn lemma_wrap_fits(
    nodes: Blobs,
    larger: Blobs,
    identifier: Seq<u8>,
    start: u64,
    end: u64,
    window: ChildView,
    extents: Seq<ExtentView>,
    levels: nat,
)
    requires
        complete(nodes, identifier, levels),
        identifier != empty_identifier(),
        manifest_at(nodes, identifier) is Some,
        manifest_at(nodes, identifier)->0 is Extents,
        nodes.submap_of(larger),
        start <= end <= window.logical_offset,
        shows(larger, window, extents),
        levels >= 2,
        wrapped_plan(identifier, start, end, window) is Some,
        stores(larger, wrapped_plan(identifier, start, end, window)->0.nodes),
    ensures
        ({
            let new = wrapped_plan(identifier, start, end, window)->0.identifier;
            &&& complete(larger, new, levels)
            &&& room(larger, new, window.end(), levels) >= 255 * (levels - 1) - 1
        }),
{
    let current = ChildView { logical_offset: start, length: (end - start) as u64, identifier };
    let front = if start < end {
        seq![current]
    } else {
        Seq::empty()
    };
    let children = front.push(window);
    lemma_open_children_all(children);
    let plan = wrapped_plan(identifier, start, end, window)->0;
    assert(plan.nodes[0] == Manifest::Concat(children));
    assert(manifest_at(larger, plan.identifier) == Some(Manifest::Concat(children)));
    lemma_manifest_kept(nodes, larger, identifier);
    let below = (levels - 1) as nat;
    assert(complete(larger, identifier, below));
    lemma_shown_room(larger, window, extents, below);
    assert forall|i: int| 0 <= i < children.len() implies complete(
        larger,
        (#[trigger] children[i]).identifier,
        below,
    ) by {}
    assert(children.len() <= 2);
    assert(255 * (levels - 1) == 255 + 255 * (levels - 2)) by (nonlinear_arith);
}

/// Joining one more manifest with few others keeps the levels.
proof fn lemma_push_fits(
    nodes: Blobs,
    larger: Blobs,
    identifier: Seq<u8>,
    window: ChildView,
    extents: Seq<ExtentView>,
    levels: nat,
)
    requires
        complete(nodes, identifier, levels),
        identifier != empty_identifier(),
        manifest_at(nodes, identifier) is Some,
        manifest_at(nodes, identifier)->0 is Concat,
        ({
            let children = manifest_at(nodes, identifier)->0->Concat_0;
            &&& children.len() < CONTENT_MANIFEST_CONCAT_MAX_CHILDREN
            &&& stores(larger, seq![Manifest::Concat(children.push(window))])
        }),
        nodes.submap_of(larger),
        shows(larger, window, extents),
        levels >= 2,
    ensures
        ({
            let children = manifest_at(nodes, identifier)->0->Concat_0;
            let new = manifest_identifier(Manifest::Concat(children.push(window)));
            &&& complete(larger, new, levels)
            &&& room(larger, new, window.end(), levels) == 256 - children.len() + 255 * (levels - 2)
                - 1
        }),
{
    let children = manifest_at(nodes, identifier)->0->Concat_0;
    let next = children.push(window);
    let manifest = Manifest::Concat(next);
    let new = manifest_identifier(manifest);
    let below = (levels - 1) as nat;
    assert(seq![manifest][0] == manifest);
    assert(manifest_at(larger, new) == Some(manifest));
    lemma_shown_room(larger, window, extents, below);
    assert forall|i: int| 0 <= i < next.len() implies complete(
        larger,
        (#[trigger] next[i]).identifier,
        below,
    ) by {
        if i < children.len() {
            assert(next[i] == children[i]);
            lemma_complete_extends(nodes, larger, children[i].identifier, below, below);
        }
    }
}

/// Where there is room, an append keeps the levels and takes one place.
proof fn lemma_append_fits(
    nodes: Blobs,
    larger: Blobs,
    identifier: Seq<u8>,
    start: u64,
    end: u64,
    window: ChildView,
    extents: Seq<ExtentView>,
    fuel: nat,
    levels: nat,
)
    requires
        complete(nodes, identifier, levels),
        levels <= fuel,
        nodes.submap_of(larger),
        start <= end <= window.logical_offset,
        shows(larger, window, extents),
        append_plan(nodes, identifier, start, end, window, fuel) is Some,
        stores(larger, append_plan(nodes, identifier, start, end, window, fuel)->0.nodes),
        room(nodes, identifier, end as int, levels) > 0,
    ensures
        ({
            let new = append_plan(nodes, identifier, start, end, window, fuel)->0.identifier;
            &&& complete(larger, new, levels)
            &&& room(larger, new, window.end(), levels) >= room(
                nodes,
                identifier,
                end as int,
                levels,
            ) - 1
        }),
    decreases levels,
{
    let plan = append_plan(nodes, identifier, start, end, window, fuel)->0;
    if identifier == empty_identifier() {
        lemma_shown_room(larger, window, extents, levels);
    } else {
        match manifest_at(nodes, identifier) {
            Some(Manifest::Extents(_)) => {
                lemma_wrap_fits(nodes, larger, identifier, start, end, window, extents, levels);
            },
            Some(Manifest::Concat(children)) => {
                let last = children.last();
                if children.len() < CONTENT_MANIFEST_CONCAT_MAX_CHILDREN {
                    lemma_push_fits(nodes, larger, identifier, window, extents, levels);
                } else {
                    let below = (levels - 1) as nat;
                    let inner = append_plan(
                        nodes,
                        last.identifier,
                        last.logical_offset,
                        last.end() as u64,
                        window,
                        (fuel - 1) as nat,
                    )->0;
                    let next = children.drop_last().push(
                        extended_child(last, window, inner.identifier),
                    );
                    let outer = node_plan(next)->0;
                    assert(plan.nodes == inner.nodes + outer.nodes);
                    assert(stores(larger, inner.nodes)) by {
                        assert forall|i: int| 0 <= i < inner.nodes.len() implies ({
                            let manifest = #[trigger] inner.nodes[i];
                            &&& sound(manifest)
                            &&& manifest_identifier(manifest) != empty_identifier()
                            &&& larger.contains_key(manifest_identifier(manifest))
                            &&& larger[manifest_identifier(manifest)] == manifest_encoding(manifest)
                        }) by {
                            assert(plan.nodes[i] == inner.nodes[i]);
                        }
                    }
                    assert(last == children[children.len() - 1]);
                    lemma_append_fits(
                        nodes,
                        larger,
                        last.identifier,
                        last.logical_offset,
                        last.end() as u64,
                        window,
                        extents,
                        (fuel - 1) as nat,
                        below,
                    );
                    assert(plan.nodes[inner.nodes.len() as int] == Manifest::Concat(next));
                    assert(manifest_at(larger, outer.identifier) == Some(Manifest::Concat(next)));
                    assert forall|i: int| 0 <= i < next.len() implies complete(
                        larger,
                        (#[trigger] next[i]).identifier,
                        below,
                    ) by {
                        if i < next.len() - 1 {
                            assert(next[i] == children[i]);
                            lemma_complete_extends(
                                nodes,
                                larger,
                                children[i].identifier,
                                below,
                                below,
                            );
                        }
                    }
                    assert(next.last().end() == window.end());
                }
            },
            None => {},
        }
    }
}

/// A new and empty file takes one append at one level, and 255 more for every further level.
pub proof fn lemma_room_of_new_file(image: Image, levels: nat)
    requires
        levels > 0,
    ensures
        room(image.manifests, empty_identifier(), 0, levels) == 1 + 255 * (levels - 1),
{
}

/// A write at or after the end of a file that has room for it keeps the levels of the file: the file has
/// the data and its old bytes within the levels that it had, and room for all but one of the appends
/// that it had room for.
pub proof fn lemma_append_keeps_levels(
    storage: StorageView,
    number: u64,
    inode: InodeView,
    offset: u64,
    data: Seq<u8>,
    append: bool,
    clear_privileges: bool,
    now: StoredTime,
    created_at: time::UtcDateTime,
    prepared: PreparedView,
    levels: nat,
)
    requires
        stocked(storage.image.manifests, storage.image.chunks),
        storage.namespace().inode(number) == Some(inode),
        sound_file(storage.image, inode, levels),
        levels <= MANIFEST_LEVELS,
        append || offset >= inode.size,
        data.len() > 0,
        room(storage.image.manifests, manifest_of(inode), inode.size as int, levels) > 0,
        write_commit(
            storage,
            number,
            offset,
            data,
            append,
            clear_privileges,
            now,
            created_at,
        ) == Ok::<PreparedView, FuseError>(prepared),
        content_sound(
            write_change(
                storage.image,
                storage.namespace(),
                storage.write,
                number,
                offset,
                data,
                append,
                clear_privileges,
                now,
                created_at,
            )->Ok_0,
        ),
        is_partition(data_cuts(data), data.len() as int),
        names_agree(storage.image, prepared.batch),
    ensures
        ({
            let after = storage.after(prepared);
            let written = after.namespace().inode(number);
            let start = if append {
                inode.size
            } else {
                offset
            };
            &&& written is Some
            &&& sound_file(after.image, written->0, levels)
            &&& written->0.size == start + data.len()
            &&& room(
                after.image.manifests,
                manifest_of(written->0),
                written->0.size as int,
                levels,
            ) >= room(
                storage.image.manifests,
                manifest_of(inode),
                inode.size as int,
                levels,
            ) - 1
            &&& forall|position: int|
                position >= 0 ==> (#[trigger] byte_at(
                    after.image,
                    written->0,
                    position,
                    levels,
                )) == (if start <= position < start + data.len() {
                    data[position - start]
                } else {
                    byte_at(storage.image, inode, position, levels)
                })
        }),
{
    let content = write_change(
        storage.image,
        storage.namespace(),
        storage.write,
        number,
        offset,
        data,
        append,
        clear_privileges,
        now,
        created_at,
    )->Ok_0;
    let start = if append {
        inode.size
    } else {
        offset
    };
    let image = storage.image;
    let after = storage.after(prepared);
    let previous = manifest_of(inode);
    let extents = placed_data(start, data);
    let first = extents_plan(extents);
    let window = ChildView {
        logical_offset: start,
        length: data.len() as u64,
        identifier: first.identifier,
    };
    lemma_write_is_read_back(
        storage,
        number,
        inode,
        offset,
        data,
        append,
        clear_privileges,
        now,
        created_at,
        prepared,
        levels,
    );
    let written = after.namespace().inode(number)->0;
    crate::files::lemma_inode_stored(storage.namespace(), number, content.inode, number);
    lemma_placed_window(start, data, first.identifier);
    if previous == empty_identifier() {
        lemma_shown_room(after.image.manifests, window, extents, levels);
    } else {
        let rest = append_plan(
            image.manifests,
            previous,
            0,
            inode.size,
            window,
            MANIFEST_LEVELS as nat,
        )->0;
        assert(stores(after.image.manifests, rest.nodes)) by {
            assert forall|i: int| 0 <= i < rest.nodes.len() implies ({
                let manifest = #[trigger] rest.nodes[i];
                &&& sound(manifest)
                &&& manifest_identifier(manifest) != empty_identifier()
                &&& after.image.manifests.contains_key(manifest_identifier(manifest))
                &&& after.image.manifests[manifest_identifier(manifest)] == manifest_encoding(
                    manifest,
                )
            }) by {
                assert(content.plan.nodes[first.nodes.len() + i] == rest.nodes[i]);
            }
        }
        lemma_append_fits(
            image.manifests,
            after.image.manifests,
            previous,
            0,
            inode.size,
            window,
            extents,
            MANIFEST_LEVELS as nat,
            levels,
        );
    }
    lemma_one_level_fewer(
        after.image.manifests,
        manifest_of(written),
        written.size as int,
        levels,
    );
    lemma_file_kept(after.image, after.image, written, levels, levels + 1);
    assert(written.size == start + data.len());
    assert(room(after.image.manifests, manifest_of(written), written.size as int, levels) >= room(
        image.manifests,
        previous,
        inode.size as int,
        levels,
    ) - 1);
    assert forall|position: int| position >= 0 implies (#[trigger] byte_at(
        after.image,
        written,
        position,
        levels,
    )) == (if start <= position < start + data.len() {
        data[position - start]
    } else {
        byte_at(image, inode, position, levels)
    }) by {
        assert(byte_at(after.image, written, position, levels + 1) == byte_at(
            after.image,
            written,
            position,
            levels,
        ));
    }
}

} // verus!
