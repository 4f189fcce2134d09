//! What tries hold: storing entries, putting and deleting one, and loading all of them.

use vstd::prelude::*;

use crate::bytes::{bytes_before, lemma_bytes_before_asymmetric, lemma_bytes_before_irreflexive};
use crate::hash::{well_shaped, Blobs, NAMESPACE_HASH_BLAKE3};
use crate::trie::{
    branch_plan, child_at, children_plan, children_valid, entries_plan, entries_sorted,
    entry_delete_plan, entry_path, entry_put_plan, group, loaded, loaded_children, node_at,
    node_identifier, path_step, takes_step, with_child, with_entry, without_child, without_entry,
    ChildPair, EntryPair, NamespaceMapKind, Node, NAMESPACE_MAP_LEAF_MAX_ENTRIES,
    NAMESPACE_PATH_STEPS,
};

verus! {

/// Entries are those of a map, each once.
pub open spec fn spells(entries: Seq<EntryPair>, map: Blobs) -> bool {
    &&& forall|i: int|
        0 <= i < entries.len() ==> map.contains_key((#[trigger] entries[i]).0) && map[entries[i].0]
            == entries[i].1
    &&& forall|key: Seq<u8>| #[trigger]
        map.contains_key(key) ==> exists|i: int|
            0 <= i < entries.len() && (#[trigger] entries[i]).0 == key
    &&& forall|i: int, j: int|
        0 <= i < j < entries.len() ==> (#[trigger] entries[i]).0 != (#[trigger] entries[j]).0
}

/// The step that a key takes at a depth.
pub open spec fn key_step(kind: NamespaceMapKind, key: Seq<u8>, depth: int) -> Option<u8> {
    path_step(entry_path(kind, key), depth)
}

/// The part of a map whose keys take a step at a depth.
pub open spec fn below(kind: NamespaceMapKind, map: Blobs, depth: int, step: u8) -> Blobs {
    map.restrict(Set::new(|key: Seq<u8>| key_step(kind, key, depth) == Some(step)))
}

/// A trie below a depth holds a map: a leaf has its entries in key order, and a node with children has
/// one for each step that keys take, which holds the keys that take it.
pub open spec fn holds(
    nodes: Blobs,
    kind: NamespaceMapKind,
    name: Seq<u8>,
    depth: int,
    map: Blobs,
) -> bool
    decreases NAMESPACE_PATH_STEPS + 1 - depth,
{
    if depth < 0 || depth > NAMESPACE_PATH_STEPS {
        false
    } else {
        match node_at(nodes, name) {
            Some(Node::Leaf(entries)) => entries_sorted(entries) && spells(entries, map),
            Some(Node::Branch(children)) => {
                &&& depth < NAMESPACE_PATH_STEPS
                &&& children_valid(children)
                &&& forall|i: int|
                    0 <= i < children.len() ==> holds(
                        nodes,
                        kind,
                        (#[trigger] children[i]).1,
                        depth + 1,
                        below(kind, map, depth, children[i].0),
                    )
                &&& forall|key: Seq<u8>| #[trigger]
                    map.contains_key(key) ==> exists|i: int|
                        0 <= i < children.len() && key_step(kind, key, depth) == Some(
                            (#[trigger] children[i]).0,
                        )
            },
            _ => false,
        }
    }
}

/// Nodes are stored under their identifiers.
pub open spec fn keeps(nodes: Blobs, stored: Seq<Node>) -> bool {
    forall|i: int|
        0 <= i < stored.len() ==> node_at(nodes, node_identifier(#[trigger] stored[i])) == Some(
            stored[i],
        )
}

proof fn lemma_node_kept(nodes: Blobs, larger: Blobs, name: Seq<u8>)
    requires
        nodes.submap_of(larger),
        node_at(nodes, name) is Some,
    ensures
        node_at(larger, name) == node_at(nodes, name),
{
    assert(nodes.dom().contains(name));
    assert(larger.dom().contains(name));
}

/// Adding nodes keeps what tries hold.
pub proof fn lemma_holds_grows(
    nodes: Blobs,
    larger: Blobs,
    kind: NamespaceMapKind,
    name: Seq<u8>,
    depth: int,
    map: Blobs,
)
    requires
        holds(nodes, kind, name, depth, map),
        nodes.submap_of(larger),
    ensures
        holds(larger, kind, name, depth, map),
    decreases NAMESPACE_PATH_STEPS + 1 - depth,
{
    lemma_node_kept(nodes, larger, name);
    match node_at(nodes, name) {
        Some(Node::Branch(children)) => {
            assert forall|i: int| 0 <= i < children.len() implies holds(
                larger,
                kind,
                (#[trigger] children[i]).1,
                depth + 1,
                below(kind, map, depth, children[i].0),
            ) by {
                lemma_holds_grows(
                    nodes,
                    larger,
                    kind,
                    children[i].1,
                    depth + 1,
                    below(kind, map, depth, children[i].0),
                );
            }
        },
        _ => {},
    }
}

/// Loading a trie gives the entries of the map that it holds, each once.
pub proof fn lemma_loading_gives_map(
    nodes: Blobs,
    kind: NamespaceMapKind,
    name: Seq<u8>,
    depth: int,
    map: Blobs,
    levels: nat,
)
    requires
        holds(nodes, kind, name, depth, map),
        levels >= NAMESPACE_PATH_STEPS + 1 - depth,
    ensures
        loaded(nodes, name, levels) is Some,
        spells(loaded(nodes, name, levels)->0, map),
    decreases NAMESPACE_PATH_STEPS + 1 - depth, 0int,
{
    match node_at(nodes, name) {
        Some(Node::Branch(children)) => {
            let count = children.len() as int;
            lemma_loading_children(nodes, kind, children, depth, map, count, (levels - 1) as nat);
            assert(children.take(count) =~= children);
            let all = loaded_children(nodes, children, (levels - 1) as nat)->0;
            assert forall|key: Seq<u8>| #[trigger] map.contains_key(key) implies exists|i: int|
                0 <= i < all.len() && (#[trigger] all[i]).0 == key by {
                let at = choose|at: int|
                    0 <= at < children.len() && key_step(kind, key, depth) == Some(
                        (#[trigger] children[at]).0,
                    );
                assert(among(kind, children, count, depth, key));
            }
        },
        _ => {},
    }
}

/// A key takes the step of one of the first children.
spec fn among(
    kind: NamespaceMapKind,
    children: Seq<ChildPair>,
    count: int,
    depth: int,
    key: Seq<u8>,
) -> bool {
    exists|at: int|
        0 <= at < count && key_step(kind, key, depth) == Some((#[trigger] children[at]).0)
}

proof fn lemma_loading_children(
    nodes: Blobs,
    kind: NamespaceMapKind,
    children: Seq<ChildPair>,
    depth: int,
    map: Blobs,
    count: int,
    levels: nat,
)
    requires
        0 <= count <= children.len(),
        0 <= depth < NAMESPACE_PATH_STEPS,
        children_valid(children),
        forall|i: int|
            0 <= i < children.len() ==> holds(
                nodes,
                kind,
                (#[trigger] children[i]).1,
                depth + 1,
                below(kind, map, depth, children[i].0),
            ),
        levels >= NAMESPACE_PATH_STEPS - depth,
    ensures
        loaded_children(nodes, children.take(count), levels) is Some,
        ({
            let all = loaded_children(nodes, children.take(count), levels)->0;
            &&& forall|i: int|
                0 <= i < all.len() ==> map.contains_key((#[trigger] all[i]).0) && map[all[i].0]
                    == all[i].1 && among(kind, children, count, depth, all[i].0)
            &&& forall|key: Seq<u8>| #[trigger]
                map.contains_key(key) && among(kind, children, count, depth, key) ==> exists|i: int|
                    0 <= i < all.len() && (#[trigger] all[i]).0 == key
            &&& forall|i: int, j: int|
                0 <= i < j < all.len() ==> (#[trigger] all[i]).0 != (#[trigger] all[j]).0
        }),
    decreases NAMESPACE_PATH_STEPS - depth, count + 1,
{
    if count > 0 {
        let front_children = children.take(count).drop_last();
        assert(front_children =~= children.take(count - 1));
        let child = children[count - 1];
        assert(children.take(count).last() == child);
        lemma_loading_children(nodes, kind, children, depth, map, count - 1, levels);
        let part = below(kind, map, depth, child.0);
        lemma_loading_gives_map(nodes, kind, child.1, depth + 1, part, levels);
        let front = loaded_children(nodes, front_children, levels)->0;
        let back = loaded(nodes, child.1, levels)->0;
        let all = loaded_children(nodes, children.take(count), levels)->0;
        assert(all == front + back);
        assert forall|i: int| 0 <= i < all.len() implies map.contains_key((#[trigger] all[i]).0)
            && map[all[i].0] == all[i].1 && among(kind, children, count, depth, all[i].0) by {
            if i < front.len() {
                assert(all[i] == front[i]);
                let at = choose|at: int|
                    0 <= at < count - 1 && key_step(kind, all[i].0, depth) == Some(
                        (#[trigger] children[at]).0,
                    );
                assert(key_step(kind, all[i].0, depth) == Some(children[at].0));
            } else {
                assert(all[i] == back[i - front.len()]);
                assert(part.contains_key(back[i - front.len()].0));
                assert(key_step(kind, all[i].0, depth) == Some(children[count - 1].0));
            }
        }
        assert forall|key: Seq<u8>| #[trigger]
            map.contains_key(key) && among(kind, children, count, depth, key) implies exists|i: int|
            0 <= i < all.len() && (#[trigger] all[i]).0 == key by {
            let at = choose|at: int|
                0 <= at < count && key_step(kind, key, depth) == Some(
                    (#[trigger] children[at]).0,
                );
            if at < count - 1 {
                assert(among(kind, children, count - 1, depth, key));
                let i = choose|i: int| 0 <= i < front.len() && (#[trigger] front[i]).0 == key;
                assert(all[i] == front[i]);
            } else {
                assert(part.contains_key(key));
                let i = choose|i: int| 0 <= i < back.len() && (#[trigger] back[i]).0 == key;
                assert(all[front.len() + i] == back[i]);
            }
        }
        assert forall|i: int, j: int| 0 <= i < j < all.len() implies (#[trigger] all[i]).0 != (
        #[trigger] all[j]).0 by {
            if j < front.len() {
                assert(all[i] == front[i] && all[j] == front[j]);
            } else if i >= front.len() {
                assert(all[i] == back[i - front.len()] && all[j] == back[j - front.len()]);
            } else {
                assert(all[i] == front[i]);
                assert(all[j] == back[j - front.len()]);
                assert(part.contains_key(back[j - front.len()].0));
                let at = choose|at: int|
                    0 <= at < count - 1 && key_step(kind, all[i].0, depth) == Some(
                        (#[trigger] children[at]).0,
                    );
                assert(children[at].0 < children[count - 1].0);
            }
        }
    }
}

/// Every key takes one of sixteen steps at every depth of a path.
pub proof fn lemma_step_exists(kind: NamespaceMapKind, key: Seq<u8>, depth: int)
    requires
        0 <= depth < NAMESPACE_PATH_STEPS,
    ensures
        key_step(kind, key, depth) is Some,
        key_step(kind, key, depth)->0 < 16,
{
    let path = entry_path(kind, key);
    assert(path.len() == 32);
    let byte = path[depth / 2];
    assert(byte >> 4 < 16) by (bit_vector);
    assert(byte & 0x0f < 16) by (bit_vector);
}

proof fn lemma_sorted_distinct(entries: Seq<EntryPair>, i: int, j: int)
    requires
        entries_sorted(entries),
        0 <= i < j < entries.len(),
    ensures
        entries[i].0 != entries[j].0,
{
    lemma_bytes_before_irreflexive(entries[i].0);
}

/// The entries that take a step are those of the part of a map whose keys take it.
pub proof fn lemma_group(
    kind: NamespaceMapKind,
    entries: Seq<EntryPair>,
    depth: int,
    step: u8,
)
    ensures
        ({
            let taken = group(kind, entries, depth, step);
            &&& forall|i: int|
                0 <= i < taken.len() ==> entries.contains(#[trigger] taken[i]) && takes_step(
                    kind,
                    taken[i],
                    depth,
                    step,
                )
            &&& forall|i: int|
                0 <= i < entries.len() && takes_step(
                    kind,
                    #[trigger] entries[i],
                    depth,
                    step,
                ) ==> taken.contains(entries[i])
        }),
    decreases entries.len(),
{
    if entries.len() > 0 {
        let rest = entries.drop_last();
        lemma_group(kind, rest, depth, step);
        let front = group(kind, rest, depth, step);
        let taken = group(kind, entries, depth, step);
        assert forall|i: int| 0 <= i < taken.len() implies entries.contains(#[trigger] taken[i])
            && takes_step(kind, taken[i], depth, step) by {
            if i < front.len() {
                assert(taken[i] == front[i]);
                assert(rest.contains(front[i]));
                let k = choose|k: int| 0 <= k < rest.len() && rest[k] == front[i];
                assert(entries[k] == front[i]);
            } else {
                assert(taken[i] == entries[entries.len() - 1]);
            }
        }
        assert forall|i: int|
            0 <= i < entries.len() && takes_step(
                kind,
                #[trigger] entries[i],
                depth,
                step,
            ) implies taken.contains(entries[i]) by {
            if i < rest.len() {
                assert(rest[i] == entries[i]);
                assert(front.contains(rest[i]));
                let k = choose|k: int| 0 <= k < front.len() && front[k] == rest[i];
                assert(taken[k] == entries[i]);
            } else {
                assert(taken[taken.len() - 1] == entries[i]);
            }
        }
    }
}

proof fn lemma_group_spells(
    kind: NamespaceMapKind,
    entries: Seq<EntryPair>,
    map: Blobs,
    depth: int,
    step: u8,
)
    requires
        spells(entries, map),
        entries_sorted(group(kind, entries, depth, step)),
    ensures
        spells(group(kind, entries, depth, step), below(kind, map, depth, step)),
{
    let taken = group(kind, entries, depth, step);
    let part = below(kind, map, depth, step);
    lemma_group(kind, entries, depth, step);
    assert forall|i: int| 0 <= i < taken.len() implies part.contains_key((#[trigger] taken[i]).0)
        && part[taken[i].0] == taken[i].1 by {
        assert(entries.contains(taken[i]));
        let k = choose|k: int| 0 <= k < entries.len() && entries[k] == taken[i];
        assert(map.contains_key(entries[k].0));
    }
    assert forall|key: Seq<u8>| #[trigger] part.contains_key(key) implies exists|i: int|
        0 <= i < taken.len() && (#[trigger] taken[i]).0 == key by {
        assert(map.contains_key(key));
        let k = choose|k: int| 0 <= k < entries.len() && (#[trigger] entries[k]).0 == key;
        assert(takes_step(kind, entries[k], depth, step));
        assert(taken.contains(entries[k]));
        let i = choose|i: int| 0 <= i < taken.len() && taken[i] == entries[k];
        assert(taken[i].0 == key);
    }
    assert forall|i: int, j: int| 0 <= i < j < taken.len() implies (#[trigger] taken[i]).0 != (
    #[trigger] taken[j]).0 by {
        lemma_sorted_distinct(taken, i, j);
    }
}

/// The identifier of a plan is that of its last node.
proof fn lemma_plan_ends(kind: NamespaceMapKind, entries: Seq<EntryPair>, depth: int)
    requires
        entries_plan(kind, entries, depth) is Some,
    ensures
        ({
            let plan = entries_plan(kind, entries, depth)->0;
            plan.nodes.len() > 0 && plan.identifier == node_identifier(plan.nodes.last())
        }),
{
}

/// Storing entries gives a trie that holds them.
pub proof fn lemma_storing_entries(
    nodes: Blobs,
    kind: NamespaceMapKind,
    entries: Seq<EntryPair>,
    depth: int,
    map: Blobs,
)
    requires
        0 <= depth <= NAMESPACE_PATH_STEPS,
        entries_plan(kind, entries, depth) is Some,
        spells(entries, map),
        keeps(nodes, entries_plan(kind, entries, depth)->0.nodes),
    ensures
        holds(nodes, kind, entries_plan(kind, entries, depth)->0.identifier, depth, map),
    decreases NAMESPACE_PATH_STEPS - depth, 17int,
{
    let plan = entries_plan(kind, entries, depth)->0;
    if entries.len() <= NAMESPACE_MAP_LEAF_MAX_ENTRIES || depth >= NAMESPACE_PATH_STEPS {
        assert(plan.nodes[0] == Node::Leaf(entries));
    } else {
        let (children, stored) = children_plan(kind, entries, depth, 16)->0;
        let node = Node::Branch(children);
        assert(plan.nodes[plan.nodes.len() - 1] == node);
        assert(keeps(nodes, stored)) by {
            assert forall|i: int| 0 <= i < stored.len() implies node_at(
                nodes,
                node_identifier(#[trigger] stored[i]),
            ) == Some(stored[i]) by {
                assert(plan.nodes[i] == stored[i]);
            }
        }
        lemma_storing_children(nodes, kind, entries, depth, map, 16);
        assert forall|key: Seq<u8>| #[trigger] map.contains_key(key) implies exists|i: int|
            0 <= i < children.len() && key_step(kind, key, depth) == Some(
                (#[trigger] children[i]).0,
            ) by {
            lemma_step_exists(kind, key, depth);
        }
    }
}

proof fn lemma_storing_children(
    nodes: Blobs,
    kind: NamespaceMapKind,
    entries: Seq<EntryPair>,
    depth: int,
    map: Blobs,
    steps: nat,
)
    requires
        0 <= depth < NAMESPACE_PATH_STEPS,
        steps <= 16,
        children_plan(kind, entries, depth, steps) is Some,
        spells(entries, map),
        keeps(nodes, (children_plan(kind, entries, depth, steps)->0).1),
    ensures
        ({
            let children = (children_plan(kind, entries, depth, steps)->0).0;
            &&& children_valid(children)
            &&& forall|i: int|
                0 <= i < children.len() ==> (#[trigger] children[i]).0 < steps && holds(
                    nodes,
                    kind,
                    children[i].1,
                    depth + 1,
                    below(kind, map, depth, children[i].0),
                )
            &&& forall|key: Seq<u8>| #[trigger]
                map.contains_key(key) && key_step(kind, key, depth) is Some && key_step(
                    kind,
                    key,
                    depth,
                )->0 < steps ==> exists|i: int|
                    0 <= i < children.len() && key_step(kind, key, depth) == Some(
                        (#[trigger] children[i]).0,
                    )
        }),
    decreases NAMESPACE_PATH_STEPS - depth, steps,
{
    if steps > 0 {
        let step = (steps - 1) as u8;
        let taken = group(kind, entries, depth, step);
        let (front, stored) = children_plan(kind, entries, depth, (steps - 1) as nat)->0;
        let (children, all) = children_plan(kind, entries, depth, steps)->0;
        assert(keeps(nodes, stored)) by {
            assert forall|i: int| 0 <= i < stored.len() implies node_at(
                nodes,
                node_identifier(#[trigger] stored[i]),
            ) == Some(stored[i]) by {
                assert(all[i] == stored[i]);
            }
        }
        lemma_storing_children(nodes, kind, entries, depth, map, (steps - 1) as nat);
        lemma_group(kind, entries, depth, step);
        let part = below(kind, map, depth, step);
        if taken.len() > 0 {
            let plan = entries_plan(kind, taken, depth + 1)->0;
            assert(keeps(nodes, plan.nodes)) by {
                assert forall|i: int| 0 <= i < plan.nodes.len() implies node_at(
                    nodes,
                    node_identifier(#[trigger] plan.nodes[i]),
                ) == Some(plan.nodes[i]) by {
                    assert(all[stored.len() + i] == plan.nodes[i]);
                }
            }
            lemma_group_spells(kind, entries, map, depth, step);
            lemma_storing_entries(nodes, kind, taken, depth + 1, part);
            lemma_plan_ends(kind, taken, depth + 1);
            assert(node_at(nodes, plan.identifier) is Some);
            assert(children == front.push((step, plan.identifier)));
            assert forall|key: Seq<u8>| #[trigger]
                map.contains_key(key) && key_step(kind, key, depth) is Some && key_step(
                    kind,
                    key,
                    depth,
                )->0 < steps implies exists|i: int|
                0 <= i < children.len() && key_step(kind, key, depth) == Some(
                    (#[trigger] children[i]).0,
                ) by {
                if key_step(kind, key, depth)->0 == step {
                    assert(children[front.len() as int].0 == step);
                } else {
                    let i = choose|i: int|
                        0 <= i < front.len() && key_step(kind, key, depth) == Some(
                            (#[trigger] front[i]).0,
                        );
                    assert(children[i] == front[i]);
                }
            }
        } else {
            assert forall|key: Seq<u8>| #[trigger]
                map.contains_key(key) && key_step(kind, key, depth) is Some && key_step(
                    kind,
                    key,
                    depth,
                )->0 < steps implies exists|i: int|
                0 <= i < children.len() && key_step(kind, key, depth) == Some(
                    (#[trigger] children[i]).0,
                ) by {
                if key_step(kind, key, depth)->0 == step {
                    let k = choose|k: int|
                        0 <= k < entries.len() && (#[trigger] entries[k]).0 == key;
                    assert(takes_step(kind, entries[k], depth, step));
                    assert(taken.contains(entries[k]));
                }
            }
        }
    }
}

/// Entries with one more are those of the map with it.
pub proof fn lemma_with_entry_spells(
    entries: Seq<EntryPair>,
    map: Blobs,
    key: Seq<u8>,
    value: Seq<u8>,
)
    requires
        entries_sorted(entries),
        spells(entries, map),
        entries_sorted(with_entry(entries, key, value)),
    ensures
        spells(with_entry(entries, key, value), map.insert(key, value)),
{
    let all = with_entry(entries, key, value);
    let after = map.insert(key, value);
    lemma_with_entry_members(entries, key, value);
    assert forall|i: int| 0 <= i < all.len() implies after.contains_key((#[trigger] all[i]).0)
        && after[all[i].0] == all[i].1 by {
        if all[i] != (key, value) {
            assert(entries.contains(all[i]) && all[i].0 != key);
            let k = choose|k: int| 0 <= k < entries.len() && entries[k] == all[i];
            assert(map.contains_key(entries[k].0));
        }
    }
    assert forall|other: Seq<u8>| #[trigger] after.contains_key(other) implies exists|i: int|
        0 <= i < all.len() && (#[trigger] all[i]).0 == other by {
        if other == key {
            assert(all.contains((key, value)));
            let i = choose|i: int| 0 <= i < all.len() && all[i] == (key, value);
            assert(all[i].0 == other);
        } else {
            assert(map.contains_key(other));
            let k = choose|k: int| 0 <= k < entries.len() && (#[trigger] entries[k]).0 == other;
            assert(all.contains(entries[k]));
            let i = choose|i: int| 0 <= i < all.len() && all[i] == entries[k];
            assert(all[i].0 == other);
        }
    }
    assert forall|i: int, j: int| 0 <= i < j < all.len() implies (#[trigger] all[i]).0 != (
    #[trigger] all[j]).0 by {
        lemma_sorted_distinct(all, i, j);
    }
}

proof fn lemma_with_entry_members(entries: Seq<EntryPair>, key: Seq<u8>, value: Seq<u8>)
    requires
        entries_sorted(entries),
    ensures
        ({
            let all = with_entry(entries, key, value);
            &&& all.contains((key, value))
            &&& forall|i: int|
                0 <= i < all.len() ==> (#[trigger] all[i]) == (key, value) || (entries.contains(
                    all[i],
                ) && all[i].0 != key)
            &&& forall|i: int|
                0 <= i < entries.len() && (#[trigger] entries[i]).0 != key ==> all.contains(
                    entries[i],
                )
        }),
    decreases entries.len(),
{
    let all = with_entry(entries, key, value);
    let last = entries.len() - 1;
    if entries.len() == 0 || bytes_before(entries.last().0, key) {
        assert(all[entries.len() as int] == (key, value));
        assert forall|i: int| 0 <= i < all.len() implies (#[trigger] all[i]) == (key, value) || (
        entries.contains(all[i]) && all[i].0 != key) by {
            if i < entries.len() {
                assert(all[i] == entries[i]);
                if entries[i].0 == key {
                    if i < last {
                        assert(bytes_before(entries[i].0, entries[last].0));
                        lemma_bytes_before_asymmetric(entries[i].0, entries[last].0);
                    } else {
                        lemma_bytes_before_irreflexive(key);
                    }
                }
            }
        }
        assert forall|i: int|
            0 <= i < entries.len() && (#[trigger] entries[i]).0 != key implies all.contains(
            entries[i],
        ) by {
            assert(all[i] == entries[i]);
        }
    } else {
        let rest = entries.drop_last();
        if entries.last().0 == key {
            assert(all[last] == (key, value));
            assert forall|i: int| 0 <= i < all.len() implies (#[trigger] all[i]) == (key, value)
                || (entries.contains(all[i]) && all[i].0 != key) by {
                if i < last {
                    assert(all[i] == entries[i]);
                    lemma_sorted_distinct(entries, i, last);
                }
            }
            assert forall|i: int|
                0 <= i < entries.len() && (#[trigger] entries[i]).0 != key implies all.contains(
                entries[i],
            ) by {
                assert(all[i] == entries[i]);
            }
        } else {
            lemma_with_entry_members(rest, key, value);
            let front = with_entry(rest, key, value);
            assert(front.contains((key, value)));
            let at = choose|at: int| 0 <= at < front.len() && front[at] == (key, value);
            assert(all[at] == (key, value));
            assert forall|i: int| 0 <= i < all.len() implies (#[trigger] all[i]) == (key, value)
                || (entries.contains(all[i]) && all[i].0 != key) by {
                if i < front.len() {
                    assert(all[i] == front[i]);
                    if front[i] != (key, value) {
                        assert(rest.contains(front[i]));
                        let k = choose|k: int| 0 <= k < rest.len() && rest[k] == front[i];
                        assert(entries[k] == front[i]);
                    }
                } else {
                    assert(all[i] == entries[last]);
                }
            }
            assert forall|i: int|
                0 <= i < entries.len() && (#[trigger] entries[i]).0 != key implies all.contains(
                entries[i],
            ) by {
                if i < last {
                    assert(rest[i] == entries[i]);
                    assert(front.contains(rest[i]));
                    let k = choose|k: int| 0 <= k < front.len() && front[k] == rest[i];
                    assert(all[k] == entries[i]);
                } else {
                    assert(all[front.len() as int] == entries[i]);
                }
            }
        }
    }
}

/// Entries without one are those of the map without it.
pub proof fn lemma_without_entry_spells(entries: Seq<EntryPair>, map: Blobs, key: Seq<u8>)
    requires
        spells(entries, map),
    ensures
        spells(without_entry(entries, key), map.remove(key)),
{
    let all = without_entry(entries, key);
    let after = map.remove(key);
    lemma_without_entry_members(entries, key);
    assert forall|i: int| 0 <= i < all.len() implies after.contains_key((#[trigger] all[i]).0)
        && after[all[i].0] == all[i].1 by {
        assert(entries.contains(all[i]) && all[i].0 != key);
        let k = choose|k: int| 0 <= k < entries.len() && entries[k] == all[i];
        assert(map.contains_key(entries[k].0));
    }
    assert forall|other: Seq<u8>| #[trigger] after.contains_key(other) implies exists|i: int|
        0 <= i < all.len() && (#[trigger] all[i]).0 == other by {
        assert(map.contains_key(other));
        let k = choose|k: int| 0 <= k < entries.len() && (#[trigger] entries[k]).0 == other;
        assert(all.contains(entries[k]));
        let i = choose|i: int| 0 <= i < all.len() && all[i] == entries[k];
        assert(all[i].0 == other);
    }
}

proof fn lemma_without_entry_members(entries: Seq<EntryPair>, key: Seq<u8>)
    requires
        forall|i: int, j: int|
            0 <= i < j < entries.len() ==> (#[trigger] entries[i]).0 != (#[trigger] entries[j]).0,
    ensures
        ({
            let all = without_entry(entries, key);
            &&& forall|i: int|
                0 <= i < all.len() ==> entries.contains(#[trigger] all[i]) && all[i].0 != key
            &&& forall|i: int|
                0 <= i < entries.len() && (#[trigger] entries[i]).0 != key ==> all.contains(
                    entries[i],
                )
            &&& forall|i: int, j: int|
                0 <= i < j < all.len() ==> (#[trigger] all[i]).0 != (#[trigger] all[j]).0
        }),
    decreases entries.len(),
{
    if entries.len() > 0 {
        let rest = entries.drop_last();
        let last = entries.len() - 1;
        assert forall|i: int, j: int| 0 <= i < j < rest.len() implies (#[trigger] rest[i]).0 != (
        #[trigger] rest[j]).0 by {
            assert(rest[i] == entries[i] && rest[j] == entries[j]);
        }
        lemma_without_entry_members(rest, key);
        let front = without_entry(rest, key);
        let all = without_entry(entries, key);
        assert forall|i: int| 0 <= i < all.len() implies entries.contains(#[trigger] all[i])
            && all[i].0 != key by {
            if i < front.len() {
                assert(all[i] == front[i]);
                assert(rest.contains(front[i]));
                let k = choose|k: int| 0 <= k < rest.len() && rest[k] == front[i];
                assert(entries[k] == front[i]);
            } else {
                assert(all[i] == entries[last]);
            }
        }
        assert forall|i: int|
            0 <= i < entries.len() && (#[trigger] entries[i]).0 != key implies all.contains(
            entries[i],
        ) by {
            if i < last {
                assert(rest[i] == entries[i]);
                assert(front.contains(rest[i]));
                let k = choose|k: int| 0 <= k < front.len() && front[k] == rest[i];
                assert(all[k] == entries[i]);
            } else {
                assert(all[front.len() as int] == entries[i]);
            }
        }
        assert forall|i: int, j: int| 0 <= i < j < all.len() implies (#[trigger] all[i]).0 != (
        #[trigger] all[j]).0 by {
            assert(all[i] == front[i]);
            if j < front.len() {
                assert(all[j] == front[j]);
            } else {
                assert(all[j] == entries[last]);
                assert(rest.contains(front[i]));
                let k = choose|k: int| 0 <= k < rest.len() && rest[k] == front[i];
                assert(entries[k].0 != entries[last].0);
            }
        }
    }
}

proof fn lemma_valid_front(children: Seq<ChildPair>)
    requires
        children_valid(children),
        children.len() > 0,
    ensures
        children_valid(children.drop_last()),
{
    let front = children.drop_last();
    assert forall|i: int| 0 <= i < front.len() implies (#[trigger] front[i]).0 <= 15 && well_shaped(
        front[i].1,
        NAMESPACE_HASH_BLAKE3,
    ) by {
        assert(front[i] == children[i]);
    }
    assert forall|i: int, j: int| 0 <= i < j < front.len() implies (#[trigger] front[i]).0 < (
    #[trigger] front[j]).0 by {
        assert(front[i] == children[i] && front[j] == children[j]);
    }
}

pub proof fn lemma_child_at(children: Seq<ChildPair>, step: u8)
    ensures
        match child_at(children, step) {
            Some(child) => children.contains((step, child)),
            None => forall|i: int| 0 <= i < children.len() ==> (#[trigger] children[i]).0 != step,
        },
    decreases children.len(),
{
    if children.len() > 0 {
        let rest = children.drop_last();
        if children.last().0 == step {
            assert(children[children.len() - 1] == (step, children.last().1));
        } else {
            lemma_child_at(rest, step);
            match child_at(rest, step) {
                Some(child) => {
                    let k = choose|k: int| 0 <= k < rest.len() && rest[k] == (step, child);
                    assert(children[k] == (step, child));
                },
                None => {
                    assert forall|i: int| 0 <= i < children.len() implies (
                    #[trigger] children[i]).0 != step by {
                        if i < rest.len() {
                            assert(rest[i] == children[i]);
                        }
                    }
                },
            }
        }
    }
}

proof fn lemma_with_child_members(children: Seq<ChildPair>, step: u8, name: Seq<u8>)
    requires
        children_valid(children),
        step <= 15,
        well_shaped(name, NAMESPACE_HASH_BLAKE3),
    ensures
        ({
            let all = with_child(children, step, name);
            &&& children_valid(all)
            &&& all.len() > 0
            &&& all.contains((step, name))
            &&& forall|i: int|
                0 <= i < all.len() ==> (#[trigger] all[i]) == (step, name) || (children.contains(
                    all[i],
                ) && all[i].0 != step)
            &&& forall|i: int|
                0 <= i < children.len() && (#[trigger] children[i]).0 != step ==> all.contains(
                    children[i],
                )
        }),
    decreases children.len(),
{
    let all = with_child(children, step, name);
    let last = children.len() - 1;
    if children.len() == 0 || children.last().0 < step {
        assert(all[children.len() as int] == (step, name));
        assert forall|i: int| 0 <= i < all.len() implies (#[trigger] all[i]) == (step, name) || (
        children.contains(all[i]) && all[i].0 != step) by {
            if i < children.len() {
                assert(all[i] == children[i]);
                if i < last {
                    assert(children[i].0 < children[last].0);
                }
            }
        }
        assert forall|i: int|
            0 <= i < children.len() && (#[trigger] children[i]).0 != step implies all.contains(
            children[i],
        ) by {
            assert(all[i] == children[i]);
        }
        assert forall|i: int, j: int| 0 <= i < j < all.len() implies (#[trigger] all[i]).0 < (
        #[trigger] all[j]).0 by {
            assert(all[i] == children[i]);
            if j < children.len() {
                assert(all[j] == children[j]);
            } else if i < last {
                assert(children[i].0 < children[last].0);
            }
        }
        assert(children_valid(all));
    } else if children.last().0 == step {
        assert(all[last] == (step, name));
        assert forall|i: int| 0 <= i < all.len() implies (#[trigger] all[i]) == (step, name) || (
        children.contains(all[i]) && all[i].0 != step) by {
            if i < last {
                assert(all[i] == children[i]);
                assert(children[i].0 < children[last].0);
            }
        }
        assert forall|i: int|
            0 <= i < children.len() && (#[trigger] children[i]).0 != step implies all.contains(
            children[i],
        ) by {
            assert(all[i] == children[i]);
        }
        assert forall|i: int, j: int| 0 <= i < j < all.len() implies (#[trigger] all[i]).0 < (
        #[trigger] all[j]).0 by {
            assert(children[i].0 < children[j].0);
        }
        assert(children_valid(all));
    } else {
        let rest = children.drop_last();
        lemma_valid_front(children);
        lemma_with_child_members(rest, step, name);
        let front = with_child(rest, step, name);
        assert(front.contains((step, name)));
        let at = choose|at: int| 0 <= at < front.len() && front[at] == (step, name);
        assert(all[at] == (step, name));
        assert forall|i: int| 0 <= i < all.len() implies (#[trigger] all[i]) == (step, name) || (
        children.contains(all[i]) && all[i].0 != step) by {
            if i < front.len() {
                assert(all[i] == front[i]);
                if front[i] != (step, name) {
                    assert(rest.contains(front[i]));
                    let k = choose|k: int| 0 <= k < rest.len() && rest[k] == front[i];
                    assert(children[k] == front[i]);
                }
            } else {
                assert(all[i] == children[last]);
            }
        }
        assert forall|i: int|
            0 <= i < children.len() && (#[trigger] children[i]).0 != step implies all.contains(
            children[i],
        ) by {
            if i < last {
                assert(rest[i] == children[i]);
                assert(front.contains(rest[i]));
                let k = choose|k: int| 0 <= k < front.len() && front[k] == rest[i];
                assert(all[k] == children[i]);
            } else {
                assert(all[front.len() as int] == children[i]);
            }
        }
        assert forall|i: int, j: int| 0 <= i < j < all.len() implies (#[trigger] all[i]).0 < (
        #[trigger] all[j]).0 by {
            assert(all[i] == front[i]);
            if j < front.len() {
                assert(all[j] == front[j]);
            } else {
                assert(all[j] == children[last]);
                if front[i] != (step, name) {
                    assert(rest.contains(front[i]));
                    let k = choose|k: int| 0 <= k < rest.len() && rest[k] == front[i];
                    assert(children[k].0 < children[last].0);
                }
            }
        }
        assert forall|i: int| 0 <= i < all.len() implies (#[trigger] all[i]).0 <= 15 && well_shaped(
            all[i].1,
            NAMESPACE_HASH_BLAKE3,
        ) by {
            if i < front.len() {
                assert(all[i] == front[i]);
            } else {
                assert(all[i] == children[last]);
            }
        }
    }
}

proof fn lemma_without_child_members(children: Seq<ChildPair>, step: u8)
    requires
        children_valid(children),
    ensures
        ({
            let all = without_child(children, step);
            &&& children_valid(all)
            &&& forall|i: int|
                0 <= i < all.len() ==> children.contains(#[trigger] all[i]) && all[i].0 != step
            &&& forall|i: int|
                0 <= i < children.len() && (#[trigger] children[i]).0 != step ==> all.contains(
                    children[i],
                )
        }),
    decreases children.len(),
{
    if children.len() > 0 {
        let rest = children.drop_last();
        let last = children.len() - 1;
        lemma_valid_front(children);
        lemma_without_child_members(rest, step);
        let front = without_child(rest, step);
        let all = without_child(children, step);
        assert forall|i: int| 0 <= i < all.len() implies children.contains(#[trigger] all[i])
            && all[i].0 != step by {
            if i < front.len() {
                assert(all[i] == front[i]);
                assert(rest.contains(front[i]));
                let k = choose|k: int| 0 <= k < rest.len() && rest[k] == front[i];
                assert(children[k] == front[i]);
            } else {
                assert(all[i] == children[last]);
            }
        }
        assert forall|i: int|
            0 <= i < children.len() && (#[trigger] children[i]).0 != step implies all.contains(
            children[i],
        ) by {
            if i < last {
                assert(rest[i] == children[i]);
                assert(front.contains(rest[i]));
                let k = choose|k: int| 0 <= k < front.len() && front[k] == rest[i];
                assert(all[k] == children[i]);
            } else {
                assert(all[front.len() as int] == children[i]);
            }
        }
        assert forall|i: int, j: int| 0 <= i < j < all.len() implies (#[trigger] all[i]).0 < (
        #[trigger] all[j]).0 by {
            assert(all[i] == front[i]);
            if j < front.len() {
                assert(all[j] == front[j]);
            } else {
                assert(all[j] == children[last]);
                assert(rest.contains(front[i]));
                let k = choose|k: int| 0 <= k < rest.len() && rest[k] == front[i];
                assert(children[k].0 < children[last].0);
            }
        }
        assert forall|i: int| 0 <= i < all.len() implies (#[trigger] all[i]).0 <= 15 && well_shaped(
            all[i].1,
            NAMESPACE_HASH_BLAKE3,
        ) by {
            if i < front.len() {
                assert(all[i] == front[i]);
            } else {
                assert(all[i] == children[last]);
            }
        }
    }
}

/// A change of one key leaves the other steps as they were.
proof fn lemma_below_changed(
    kind: NamespaceMapKind,
    map: Blobs,
    key: Seq<u8>,
    value: Seq<u8>,
    depth: int,
    step: u8,
)
    ensures
        key_step(kind, key, depth) == Some(step) ==> below(
            kind,
            map.insert(key, value),
            depth,
            step,
        ) == below(kind, map, depth, step).insert(key, value) && below(
            kind,
            map.remove(key),
            depth,
            step,
        ) == below(kind, map, depth, step).remove(key),
        key_step(kind, key, depth) != Some(step) ==> below(
            kind,
            map.insert(key, value),
            depth,
            step,
        ) == below(kind, map, depth, step) && below(kind, map.remove(key), depth, step) == below(
            kind,
            map,
            depth,
            step,
        ),
{
    if key_step(kind, key, depth) == Some(step) {
        assert(below(kind, map.insert(key, value), depth, step) =~= below(
            kind,
            map,
            depth,
            step,
        ).insert(key, value));
        assert(below(kind, map.remove(key), depth, step) =~= below(kind, map, depth, step).remove(
            key,
        ));
    } else {
        assert(below(kind, map.insert(key, value), depth, step) =~= below(kind, map, depth, step));
        assert(below(kind, map.remove(key), depth, step) =~= below(kind, map, depth, step));
    }
}

/// A stored node with children that hold the parts of a map holds the map.
proof fn lemma_branch_holds(
    nodes: Blobs,
    kind: NamespaceMapKind,
    children: Seq<ChildPair>,
    depth: int,
    map: Blobs,
)
    requires
        0 <= depth < NAMESPACE_PATH_STEPS,
        children_valid(children),
        node_at(nodes, node_identifier(Node::Branch(children))) == Some(Node::Branch(children)),
        forall|i: int|
            0 <= i < children.len() ==> holds(
                nodes,
                kind,
                (#[trigger] children[i]).1,
                depth + 1,
                below(kind, map, depth, children[i].0),
            ),
        forall|key: Seq<u8>| #[trigger]
            map.contains_key(key) ==> exists|i: int|
                0 <= i < children.len() && key_step(kind, key, depth) == Some(
                    (#[trigger] children[i]).0,
                ),
    ensures
        holds(nodes, kind, node_identifier(Node::Branch(children)), depth, map),
{
}

/// Putting an entry gives a trie that holds the map with it.
pub proof fn lemma_putting_entry(
    nodes: Blobs,
    larger: Blobs,
    kind: NamespaceMapKind,
    name: Seq<u8>,
    key: Seq<u8>,
    value: Seq<u8>,
    depth: int,
    map: Blobs,
)
    requires
        holds(nodes, kind, name, depth, map),
        nodes.submap_of(larger),
        entry_put_plan(nodes, kind, name, key, value, depth) is Some,
        keeps(larger, entry_put_plan(nodes, kind, name, key, value, depth)->0.nodes),
    ensures
        ({
            let plan = entry_put_plan(nodes, kind, name, key, value, depth)->0;
            &&& holds(larger, kind, plan.identifier, depth, map.insert(key, value))
            &&& plan.nodes.len() > 0
            &&& plan.identifier == node_identifier(plan.nodes.last())
        }),
    decreases NAMESPACE_PATH_STEPS + 1 - depth,
{
    let plan = entry_put_plan(nodes, kind, name, key, value, depth)->0;
    let after = map.insert(key, value);
    match node_at(nodes, name) {
        Some(Node::Leaf(entries)) => {
            let all = with_entry(entries, key, value);
            lemma_with_entry_spells(entries, map, key, value);
            lemma_storing_entries(larger, kind, all, depth, after);
            lemma_plan_ends(kind, all, depth);
        },
        Some(Node::Branch(children)) => {
            let step = key_step(kind, key, depth)->0;
            lemma_step_exists(kind, key, depth);
            lemma_child_at(children, step);
            let inner = match child_at(children, step) {
                Some(child) => entry_put_plan(nodes, kind, child, key, value, depth + 1)->0,
                None => entries_plan(kind, seq![(key, value)], depth + 1)->0,
            };
            let all = with_child(children, step, inner.identifier);
            let node = Node::Branch(all);
            assert(plan.nodes == inner.nodes.push(node));
            assert(keeps(larger, inner.nodes)) by {
                assert forall|i: int| 0 <= i < inner.nodes.len() implies node_at(
                    larger,
                    node_identifier(#[trigger] inner.nodes[i]),
                ) == Some(inner.nodes[i]) by {
                    assert(plan.nodes[i] == inner.nodes[i]);
                }
            }
            assert(plan.nodes[plan.nodes.len() - 1] == node);
            let part = below(kind, map, depth, step);
            lemma_below_changed(kind, map, key, value, depth, step);
            match child_at(children, step) {
                Some(child) => {
                    let k = choose|k: int|
                        0 <= k < children.len() && children[k] == (step, child);
                    assert(holds(nodes, kind, children[k].1, depth + 1, part));
                    lemma_putting_entry(
                        nodes,
                        larger,
                        kind,
                        child,
                        key,
                        value,
                        depth + 1,
                        part,
                    );
                },
                None => {
                    let one = seq![(key, value)];
                    assert(part =~= Map::<Seq<u8>, Seq<u8>>::empty()) by {
                        assert forall|other: Seq<u8>| !part.contains_key(other) by {
                            if part.contains_key(other) {
                                assert(map.contains_key(other));
                                let k = choose|k: int|
                                    0 <= k < children.len() && key_step(kind, other, depth)
                                        == Some((#[trigger] children[k]).0);
                                assert(children[k].0 != step);
                            }
                        }
                    }
                    assert(spells(one, part.insert(key, value))) by {
                        assert(one[0] == (key, value));
                    }
                    lemma_storing_entries(larger, kind, one, depth + 1, part.insert(key, value));
                    lemma_plan_ends(kind, one, depth + 1);
                },
            }
            assert(node_at(larger, inner.identifier) is Some) by {
                assert(inner.nodes[inner.nodes.len() - 1] == inner.nodes.last());
            }
            lemma_with_child_members(children, step, inner.identifier);
            assert forall|i: int| 0 <= i < all.len() implies holds(
                larger,
                kind,
                (#[trigger] all[i]).1,
                depth + 1,
                below(kind, after, depth, all[i].0),
            ) by {
                if all[i] != (step, inner.identifier) {
                    assert(children.contains(all[i]));
                    let k = choose|k: int| 0 <= k < children.len() && children[k] == all[i];
                    lemma_below_changed(kind, map, key, value, depth, all[i].0);
                    lemma_holds_grows(
                        nodes,
                        larger,
                        kind,
                        children[k].1,
                        depth + 1,
                        below(kind, map, depth, children[k].0),
                    );
                }
            }
            assert forall|other: Seq<u8>| #[trigger] after.contains_key(other) implies exists|i: int|
                0 <= i < all.len() && key_step(kind, other, depth) == Some(
                    (#[trigger] all[i]).0,
                ) by {
                if other == key {
                    let i = choose|i: int|
                        0 <= i < all.len() && all[i] == (step, inner.identifier);
                    assert(all[i].0 == step);
                } else {
                    assert(map.contains_key(other));
                    lemma_step_kept(kind, children, all, other, depth, step, inner.identifier);
                }
            }
            lemma_branch_holds(larger, kind, all, depth, after);
        },
        _ => {},
    }
}

proof fn lemma_step_kept(
    kind: NamespaceMapKind,
    children: Seq<ChildPair>,
    all: Seq<ChildPair>,
    key: Seq<u8>,
    depth: int,
    step: u8,
    name: Seq<u8>,
)
    requires
        exists|k: int|
            0 <= k < children.len() && key_step(kind, key, depth) == Some(
                (#[trigger] children[k]).0,
            ),
        all.contains((step, name)),
        forall|i: int|
            0 <= i < children.len() && (#[trigger] children[i]).0 != step ==> all.contains(
                children[i],
            ),
    ensures
        exists|i: int|
            0 <= i < all.len() && key_step(kind, key, depth) == Some((#[trigger] all[i]).0),
{
    let k = choose|k: int|
        0 <= k < children.len() && key_step(kind, key, depth) == Some((#[trigger] children[k]).0);
    if children[k].0 == step {
        let i = choose|i: int| 0 <= i < all.len() && all[i] == (step, name);
        assert(all[i].0 == step);
    } else {
        assert(all.contains(children[k]));
        let i = choose|i: int| 0 <= i < all.len() && all[i] == children[k];
        assert(all[i].0 == children[k].0);
    }
}

/// Deleting an entry gives a trie that holds the map without it, and tells where nothing is left.
pub proof fn lemma_deleting_entry(
    nodes: Blobs,
    larger: Blobs,
    kind: NamespaceMapKind,
    name: Seq<u8>,
    key: Seq<u8>,
    depth: int,
    map: Blobs,
)
    requires
        holds(nodes, kind, name, depth, map),
        nodes.submap_of(larger),
        entry_delete_plan(nodes, kind, name, key, depth) is Some,
        keeps(larger, (entry_delete_plan(nodes, kind, name, key, depth)->0).0.nodes),
    ensures
        ({
            let (plan, emptied) = entry_delete_plan(nodes, kind, name, key, depth)->0;
            &&& holds(larger, kind, plan.identifier, depth, map.remove(key))
            &&& emptied ==> map.remove(key) == Map::<Seq<u8>, Seq<u8>>::empty()
            &&& plan.nodes.len() > 0
            &&& plan.identifier == node_identifier(plan.nodes.last())
        }),
    decreases NAMESPACE_PATH_STEPS + 1 - depth,
{
    let (plan, emptied) = entry_delete_plan(nodes, kind, name, key, depth)->0;
    let after = map.remove(key);
    match node_at(nodes, name) {
        Some(Node::Leaf(entries)) => {
            let rest = without_entry(entries, key);
            lemma_without_entry_spells(entries, map, key);
            lemma_storing_entries(larger, kind, rest, depth, after);
            lemma_plan_ends(kind, rest, depth);
            if emptied {
                assert(after =~= Map::<Seq<u8>, Seq<u8>>::empty());
            }
        },
        Some(Node::Branch(children)) => {
            let step = key_step(kind, key, depth)->0;
            lemma_step_exists(kind, key, depth);
            lemma_child_at(children, step);
            let part = below(kind, map, depth, step);
            lemma_below_changed(kind, map, key, Seq::empty(), depth, step);
            match child_at(children, step) {
                None => {
                    assert(!map.contains_key(key)) by {
                        if map.contains_key(key) {
                            let k = choose|k: int|
                                0 <= k < children.len() && key_step(kind, key, depth) == Some(
                                    (#[trigger] children[k]).0,
                                );
                            assert(children[k].0 != step);
                        }
                    }
                    assert(after =~= map);
                    assert forall|i: int| 0 <= i < children.len() implies holds(
                        larger,
                        kind,
                        (#[trigger] children[i]).1,
                        depth + 1,
                        below(kind, after, depth, children[i].0),
                    ) by {
                        lemma_holds_grows(
                            nodes,
                            larger,
                            kind,
                            children[i].1,
                            depth + 1,
                            below(kind, map, depth, children[i].0),
                        );
                    }
                    lemma_children_left(larger, kind, children, Seq::empty(), depth, after);
                },
                Some(child) => {
                    let k = choose|k: int|
                        0 <= k < children.len() && children[k] == (step, child);
                    assert(holds(nodes, kind, children[k].1, depth + 1, part));
                    let (inner, gone) = entry_delete_plan(nodes, kind, child, key, depth + 1)->0;
                    let all = if gone {
                        without_child(children, step)
                    } else {
                        with_child(children, step, inner.identifier)
                    };
                    assert(branch_plan(kind, all, inner.nodes, depth) == Some((plan, emptied)));
                    assert(keeps(larger, inner.nodes)) by {
                        assert forall|i: int| 0 <= i < inner.nodes.len() implies node_at(
                            larger,
                            node_identifier(#[trigger] inner.nodes[i]),
                        ) == Some(inner.nodes[i]) by {
                            assert(plan.nodes[i] == inner.nodes[i]);
                        }
                    }
                    lemma_deleting_entry(nodes, larger, kind, child, key, depth + 1, part);
                    assert(node_at(larger, inner.identifier) is Some) by {
                        assert(inner.nodes[inner.nodes.len() - 1] == inner.nodes.last());
                    }
                    if gone {
                        lemma_without_child_members(children, step);
                    } else {
                        lemma_with_child_members(children, step, inner.identifier);
                    }
                    assert forall|i: int| 0 <= i < all.len() implies holds(
                        larger,
                        kind,
                        (#[trigger] all[i]).1,
                        depth + 1,
                        below(kind, after, depth, all[i].0),
                    ) by {
                        if gone || all[i] != (step, inner.identifier) {
                            assert(children.contains(all[i]));
                            let j = choose|j: int|
                                0 <= j < children.len() && children[j] == all[i];
                            lemma_below_changed(
                                kind,
                                map,
                                key,
                                Seq::empty(),
                                depth,
                                all[i].0,
                            );
                            lemma_holds_grows(
                                nodes,
                                larger,
                                kind,
                                children[j].1,
                                depth + 1,
                                below(kind, map, depth, children[j].0),
                            );
                        }
                    }
                    assert forall|other: Seq<u8>| #[trigger]
                        after.contains_key(other) implies exists|i: int|
                        0 <= i < all.len() && key_step(kind, other, depth) == Some(
                            (#[trigger] all[i]).0,
                        ) by {
                        assert(map.contains_key(other));
                        if gone {
                            let j = choose|j: int|
                                0 <= j < children.len() && key_step(kind, other, depth) == Some(
                                    (#[trigger] children[j]).0,
                                );
                            if children[j].0 == step {
                                assert(part.remove(key).contains_key(other));
                            }
                            assert(all.contains(children[j]));
                            let i = choose|i: int| 0 <= i < all.len() && all[i] == children[j];
                            assert(all[i].0 == children[j].0);
                        } else {
                            lemma_step_kept(
                                kind,
                                children,
                                all,
                                other,
                                depth,
                                step,
                                inner.identifier,
                            );
                        }
                    }
                    lemma_children_left(larger, kind, all, inner.nodes, depth, after);
                },
            }
        },
        _ => {},
    }
}

proof fn lemma_children_left(
    nodes: Blobs,
    kind: NamespaceMapKind,
    children: Seq<ChildPair>,
    stored: Seq<Node>,
    depth: int,
    map: Blobs,
)
    requires
        0 <= depth < NAMESPACE_PATH_STEPS,
        children_valid(children),
        branch_plan(kind, children, stored, depth) is Some,
        keeps(nodes, (branch_plan(kind, children, stored, depth)->0).0.nodes),
        forall|i: int|
            0 <= i < children.len() ==> holds(
                nodes,
                kind,
                (#[trigger] children[i]).1,
                depth + 1,
                below(kind, map, depth, children[i].0),
            ),
        forall|key: Seq<u8>| #[trigger]
            map.contains_key(key) ==> exists|i: int|
                0 <= i < children.len() && key_step(kind, key, depth) == Some(
                    (#[trigger] children[i]).0,
                ),
    ensures
        ({
            let (plan, emptied) = branch_plan(kind, children, stored, depth)->0;
            &&& holds(nodes, kind, plan.identifier, depth, map)
            &&& emptied ==> map == Map::<Seq<u8>, Seq<u8>>::empty()
            &&& plan.nodes.len() > 0
            &&& plan.identifier == node_identifier(plan.nodes.last())
        }),
{
    let (plan, emptied) = branch_plan(kind, children, stored, depth)->0;
    if children.len() == 0 {
        let none = Seq::<EntryPair>::empty();
        let leaf = entries_plan(kind, none, depth)->0;
        assert(map =~= Map::<Seq<u8>, Seq<u8>>::empty());
        assert(spells(none, map));
        assert(keeps(nodes, leaf.nodes)) by {
            assert forall|i: int| 0 <= i < leaf.nodes.len() implies node_at(
                nodes,
                node_identifier(#[trigger] leaf.nodes[i]),
            ) == Some(leaf.nodes[i]) by {
                assert(plan.nodes[stored.len() + i] == leaf.nodes[i]);
            }
        }
        lemma_storing_entries(nodes, kind, none, depth, map);
        lemma_plan_ends(kind, none, depth);
        assert(plan.nodes.last() == leaf.nodes.last());
    } else {
        let node = Node::Branch(children);
        assert(plan.nodes[plan.nodes.len() - 1] == node);
        lemma_branch_holds(nodes, kind, children, depth, map);
    }
}

} // verus!
