//! Branch states that are stored and loaded again.

use vstd::prelude::*;
use vstd::set_lib::lemma_len_subset;

use crate::bytes::{
    bytes_before, lemma_bytes_before_irreflexive, lemma_bytes_before_total,
    lemma_bytes_before_transitive,
};
use crate::database::put_blobs;
use crate::files::{lemma_store_grows, uncollided};
use crate::hash::Blobs;
use crate::history::lemma_same_keys;
use crate::inode::{InodeView, StoredDirectoryEntry};
use crate::keys::{named_key, u64_key};
use crate::maps::{
    holds, keeps, lemma_deleting_entry, lemma_holds_grows, lemma_loading_gives_map,
    lemma_putting_entry, lemma_storing_entries, spells,
};
use crate::namespace::{
    put_inodes, put_named, remove_attributes_of, remove_inodes, remove_named, MutationView,
    Namespace,
};
use crate::pages::lemma_start_index;
use crate::persist::{
    active_mutation_plan, attribute_changes, decoded_attributes, decoded_entries, decoded_inodes,
    encodable, encoded_entries, encoded_inodes, entries_decode, entry_changes, entry_decoding,
    entry_encoding, inode_changes, inode_decoding, inode_encoding, inodes_decode, puts_encodable,
    state_plan, stored_state,
};
use crate::table::{lemma_listed_keys, listed_keys, lists_keys};
use crate::trie::{
    active_plan, change_all, entries_plan, entries_sorted, listing, loaded, node_at,
    node_identifier, node_puts, nodes_sound, root_at, sound_node, with_entry, without_entry, Change,
    EntryPair, NamespaceMapKind, Node, RootView, NAMESPACE_LEVELS, NAMESPACE_MAP_LEAF_MAX_ENTRIES,
};

verus! {

/// A map has finitely many keys, which can be listed.
pub open spec fn listed<V>(map: Map<Seq<u8>, V>) -> bool {
    lists_keys(listed_keys(map), map)
}

/// A map that can be listed can be listed with one more key.
pub proof fn lemma_listed_insert<V>(map: Map<Seq<u8>, V>, key: Seq<u8>, value: V)
    requires
        listed(map),
    ensures
        listed(map.insert(key, value)),
{
    let keys = listed_keys(map);
    let larger = map.insert(key, value);
    if map.contains_key(key) {
        assert(lists_keys(keys, larger));
        lemma_listed_keys(keys, larger);
    } else {
        let at = lemma_start_index(keys, key);
        let all = keys.take(at).push(key) + keys.skip(at);
        assert forall|i: int| at <= i < keys.len() implies bytes_before(
            key,
            #[trigger] keys[i],
        ) by {
            lemma_bytes_before_total(key, keys[at]);
            assert(map.contains_key(keys[at]));
            if i > at {
                assert(bytes_before(keys[at], keys[i]));
                lemma_bytes_before_transitive(key, keys[at], keys[i]);
            }
        }
        assert forall|i: int, j: int| 0 <= i < j < all.len() implies bytes_before(
            #[trigger] all[i],
            #[trigger] all[j],
        ) by {
            let before = if i < at {
                i
            } else {
                i - 1
            };
            let after = if j < at {
                j
            } else {
                j - 1
            };
            if i != at {
                assert(all[i] == keys[before]);
            }
            if j != at {
                assert(all[j] == keys[after]);
            }
        }
        assert forall|i: int| 0 <= i < all.len() implies larger.contains_key(#[trigger] all[i]) by {
            if i < at {
                assert(all[i] == keys[i]);
                assert(map.contains_key(keys[i]));
            } else if i > at {
                assert(all[i] == keys[i - 1]);
                assert(map.contains_key(keys[i - 1]));
            }
        }
        assert forall|other: Seq<u8>| #[trigger] larger.contains_key(other) implies all.contains(
            other,
        ) by {
            if other == key {
                assert(all[at] == key);
            } else {
                assert(map.contains_key(other));
                let i = choose|i: int| 0 <= i < keys.len() && keys[i] == other;
                if i < at {
                    assert(all[i] == other);
                } else {
                    assert(all[i + 1] == other);
                }
            }
        }
        lemma_listed_keys(all, larger);
    }
}

/// A map with finitely many keys can be listed.
pub proof fn lemma_finite_listed<V>(map: Map<Seq<u8>, V>)
    requires
        map.dom().finite(),
    ensures
        listed(map),
    decreases map.dom().len(),
{
    if map.dom().len() == 0 {
        assert(map.dom() =~= Set::<Seq<u8>>::empty());
        assert forall|key: Seq<u8>| !#[trigger] map.contains_key(key) by {
            assert(!map.dom().contains(key));
        }
        assert(lists_keys(Seq::<Seq<u8>>::empty(), map));
        lemma_listed_keys(Seq::<Seq<u8>>::empty(), map);
    } else {
        let key = map.dom().choose();
        let rest = map.remove(key);
        assert(rest.dom() =~= map.dom().remove(key));
        lemma_finite_listed(rest);
        lemma_listed_insert(rest, key, map[key]);
        assert(rest.insert(key, map[key]) =~= map);
    }
}

/// The keys of entries.
spec fn entry_keys(entries: Seq<EntryPair>) -> Seq<Seq<u8>> {
    Seq::new(entries.len(), |i: int| entries[i].0)
}

/// The entries of a map in key order are its entries, each once.
pub proof fn lemma_listing_spells(map: Blobs)
    requires
        listed(map),
    ensures
        spells(listing(map), map),
        entries_sorted(listing(map)),
{
    let keys = listed_keys(map);
    let entries = listing(map);
    assert forall|key: Seq<u8>| #[trigger] map.contains_key(key) implies exists|i: int|
        0 <= i < entries.len() && (#[trigger] entries[i]).0 == key by {
        assert(keys.contains(key));
        let i = choose|i: int| 0 <= i < keys.len() && keys[i] == key;
        assert(entries[i].0 == key);
    }
    assert forall|i: int, j: int| 0 <= i < j < entries.len() implies bytes_before(
        (#[trigger] entries[i]).0,
        (#[trigger] entries[j]).0,
    ) by {
        assert(bytes_before(keys[i], keys[j]));
    }
    assert forall|i: int, j: int| 0 <= i < j < entries.len() implies (#[trigger] entries[i]).0 != (
    #[trigger] entries[j]).0 by {
        assert(bytes_before(entries[i].0, entries[j].0));
        lemma_bytes_before_irreflexive(entries[i].0);
    }
}

/// A map whose entries can be given in key order can be listed.
proof fn lemma_spelled_listed(entries: Seq<EntryPair>, map: Blobs)
    requires
        spells(entries, map),
        entries_sorted(entries),
    ensures
        listed(map),
{
    let keys = entry_keys(entries);
    assert(lists_keys(keys, map)) by {
        assert forall|i: int, j: int| 0 <= i < j < keys.len() implies bytes_before(
            #[trigger] keys[i],
            #[trigger] keys[j],
        ) by {
            assert(bytes_before(entries[i].0, entries[j].0));
        }
        assert forall|i: int| 0 <= i < keys.len() implies map.contains_key(#[trigger] keys[i]) by {
            assert(map.contains_key(entries[i].0));
        }
        assert forall|key: Seq<u8>| #[trigger] map.contains_key(key) implies keys.contains(key) by {
            let i = choose|i: int| 0 <= i < entries.len() && (#[trigger] entries[i]).0 == key;
            assert(keys[i] == key);
        }
    }
    lemma_listed_keys(keys, map);
}

/// All keys of entries come before a key.
pub open spec fn all_before(entries: Seq<EntryPair>, bound: Seq<u8>) -> bool {
    forall|i: int| 0 <= i < entries.len() ==> bytes_before((#[trigger] entries[i]).0, bound)
}

proof fn lemma_sorted_front(entries: Seq<EntryPair>)
    requires
        entries_sorted(entries),
        entries.len() > 0,
    ensures
        entries_sorted(entries.drop_last()),
        all_before(entries.drop_last(), entries.last().0),
{
    let rest = entries.drop_last();
    assert forall|i: int, j: int| 0 <= i < j < rest.len() implies bytes_before(
        (#[trigger] rest[i]).0,
        (#[trigger] rest[j]).0,
    ) by {
        assert(rest[i] == entries[i] && rest[j] == entries[j]);
    }
    assert forall|i: int| 0 <= i < rest.len() implies bytes_before(
        (#[trigger] rest[i]).0,
        entries.last().0,
    ) by {
        assert(bytes_before(entries[i].0, entries[entries.len() - 1].0));
    }
}

proof fn lemma_sorted_push(front: Seq<EntryPair>, entry: EntryPair)
    requires
        entries_sorted(front),
        all_before(front, entry.0),
    ensures
        entries_sorted(front.push(entry)),
{
    let all = front.push(entry);
    assert forall|i: int, j: int| 0 <= i < j < all.len() implies bytes_before(
        (#[trigger] all[i]).0,
        (#[trigger] all[j]).0,
    ) by {
        assert(all[i] == front[i]);
        if j < front.len() {
            assert(all[j] == front[j]);
        }
    }
}

proof fn lemma_before_extends(entries: Seq<EntryPair>, key: Seq<u8>, bound: Seq<u8>)
    requires
        all_before(entries, key),
        bytes_before(key, bound),
    ensures
        all_before(entries, bound),
{
    assert forall|i: int| 0 <= i < entries.len() implies bytes_before(
        (#[trigger] entries[i]).0,
        bound,
    ) by {
        lemma_bytes_before_transitive(entries[i].0, key, bound);
    }
}

pub proof fn lemma_with_entry_sorted(
    entries: Seq<EntryPair>,
    key: Seq<u8>,
    value: Seq<u8>,
    bound: Seq<u8>,
)
    requires
        entries_sorted(entries),
    ensures
        entries_sorted(with_entry(entries, key, value)),
        all_before(entries, bound) && bytes_before(key, bound) ==> all_before(
            with_entry(entries, key, value),
            bound,
        ),
    decreases entries.len(),
{
    let all = with_entry(entries, key, value);
    if entries.len() == 0 {
        lemma_sorted_push(entries, (key, value));
    } else {
        let rest = entries.drop_last();
        let last = entries.last();
        lemma_sorted_front(entries);
        if bytes_before(last.0, key) {
            assert(all_before(entries, key)) by {
                lemma_before_extends(rest, last.0, key);
                assert forall|i: int| 0 <= i < entries.len() implies bytes_before(
                    (#[trigger] entries[i]).0,
                    key,
                ) by {
                    if i < rest.len() {
                        assert(rest[i] == entries[i]);
                    }
                }
            }
            lemma_sorted_push(entries, (key, value));
        } else if last.0 == key {
            lemma_sorted_push(rest, (key, value));
            if all_before(entries, bound) {
                assert forall|i: int| 0 <= i < all.len() implies bytes_before(
                    (#[trigger] all[i]).0,
                    bound,
                ) by {
                    assert(bytes_before(entries[i].0, bound));
                }
            }
        } else {
            lemma_bytes_before_total(last.0, key);
            lemma_with_entry_sorted(rest, key, value, last.0);
            let front = with_entry(rest, key, value);
            lemma_sorted_push(front, last);
            if all_before(entries, bound) && bytes_before(key, bound) {
                assert(bytes_before(entries[entries.len() - 1].0, bound));
                lemma_before_extends(front, last.0, bound);
                assert forall|i: int| 0 <= i < all.len() implies bytes_before(
                    (#[trigger] all[i]).0,
                    bound,
                ) by {
                    if i < front.len() {
                        assert(all[i] == front[i]);
                    }
                }
            }
        }
    }
}

pub proof fn lemma_without_entry_sorted(entries: Seq<EntryPair>, key: Seq<u8>, bound: Seq<u8>)
    requires
        entries_sorted(entries),
    ensures
        entries_sorted(without_entry(entries, key)),
        all_before(entries, bound) ==> all_before(without_entry(entries, key), bound),
    decreases entries.len(),
{
    if entries.len() > 0 {
        let rest = entries.drop_last();
        let last = entries.last();
        lemma_sorted_front(entries);
        let front = without_entry(rest, key);
        lemma_without_entry_sorted(rest, key, last.0);
        lemma_sorted_push(front, last);
        if all_before(entries, bound) {
            assert(bytes_before(entries[entries.len() - 1].0, bound));
            lemma_before_extends(front, last.0, bound);
            let all = without_entry(entries, key);
            assert forall|i: int| 0 <= i < all.len() implies bytes_before(
                (#[trigger] all[i]).0,
                bound,
            ) by {
                if i < front.len() {
                    assert(all[i] == front[i]);
                }
            }
        }
    }
}

/// A map that can be listed can be listed after changes.
pub proof fn lemma_changed_listed(map: Blobs, changes: Seq<Change>)
    requires
        listed(map),
    ensures
        listed(change_all(map, changes)),
    decreases changes.len(),
{
    if changes.len() > 0 {
        let before = change_all(map, changes.drop_last());
        lemma_changed_listed(map, changes.drop_last());
        lemma_listing_spells(before);
        let entries = listing(before);
        match changes.last() {
            Change::Put(key, value) => {
                lemma_with_entry_sorted(entries, key, value, key);
                crate::maps::lemma_with_entry_spells(entries, before, key, value);
                lemma_spelled_listed(with_entry(entries, key, value), before.insert(key, value));
            },
            Change::Delete(key) => {
                lemma_without_entry_sorted(entries, key, key);
                crate::maps::lemma_without_entry_spells(entries, before, key);
                lemma_spelled_listed(without_entry(entries, key), before.remove(key));
            },
        }
    }
}

/// The map that is changed when a stored map is: the one in memory where the trie is built anew, the
/// stored one where its trie is edited or stays.
pub open spec fn changed_base(stored: Blobs, seen: Blobs, changes: Seq<Change>) -> Blobs {
    if changes.len() > 1 || (changes.len() == 1 && listed_keys(seen).len()
        <= NAMESPACE_MAP_LEAF_MAX_ENTRIES) {
        seen
    } else {
        stored
    }
}

/// Changing a map that a trie holds gives a trie that holds the changed map.
proof fn lemma_changing_map(
    nodes: Blobs,
    larger: Blobs,
    kind: NamespaceMapKind,
    root: Seq<u8>,
    stored: Blobs,
    seen: Blobs,
    changes: Seq<Change>,
)
    requires
        listed(seen),
        holds(nodes, kind, root, 0, stored),
        nodes.submap_of(larger),
        active_plan(nodes, kind, root, seen, changes) is Some,
        keeps(larger, active_plan(nodes, kind, root, seen, changes)->0.nodes),
    ensures
        holds(
            larger,
            kind,
            active_plan(nodes, kind, root, seen, changes)->0.identifier,
            0,
            change_all(changed_base(stored, seen, changes), changes),
        ),
{
    let plan = active_plan(nodes, kind, root, seen, changes)->0;
    if changes.len() == 0 {
        lemma_holds_grows(nodes, larger, kind, root, 0, stored);
    } else if listed_keys(seen).len() <= NAMESPACE_MAP_LEAF_MAX_ENTRIES || changes.len() > 1 {
        let after = change_all(seen, changes);
        lemma_changed_listed(seen, changes);
        lemma_listing_spells(after);
        lemma_storing_entries(larger, kind, listing(after), 0, after);
    } else {
        assert(changes.drop_last() =~= Seq::<Change>::empty());
        assert(change_all(stored, changes.drop_last()) == stored);
        assert(changes.last() == changes[0]);
        match changes[0] {
            Change::Put(key, value) => {
                lemma_putting_entry(nodes, larger, kind, root, key, value, 0, stored);
            },
            Change::Delete(key) => {
                lemma_deleting_entry(nodes, larger, kind, root, key, 0, stored);
            },
        }
    }
}

/// Two states that show the same: they differ at most in extended attributes of inodes that are not
/// there.
pub open spec fn alike(stored: Namespace, seen: Namespace) -> bool {
    &&& stored.inodes == seen.inodes
    &&& stored.entries == seen.entries
    &&& forall|number: u64, name: Seq<u8>|
        #![trigger stored.attribute(number, name)]
        #![trigger seen.attribute(number, name)]
        seen.inode(number) is Some ==> stored.attribute(number, name) == seen.attribute(
            number,
            name,
        )
}

/// The stored state after a mutation of the state in memory. Deleting an inode leaves its extended
/// attributes in the stored map until that map is built anew.
pub open spec fn stored_after(
    stored: Namespace,
    seen: Namespace,
    mutation: MutationView,
) -> Namespace {
    Namespace {
        attributes: put_named(
            remove_named(
                changed_base(stored.attributes, seen.attributes, attribute_changes(mutation)),
                mutation.attribute_deletes,
            ),
            mutation.attribute_puts,
        ),
        ..seen.after(mutation)
    }
}

/// The keys of a state have the lengths that numbers and names give them.
pub open spec fn well_keyed(namespace: Namespace) -> bool {
    &&& forall|key: Seq<u8>| #[trigger] namespace.inodes.contains_key(key) ==> key.len() == 8
    &&& forall|key: Seq<u8>| #[trigger] namespace.entries.contains_key(key) ==> key.len() >= 8
    &&& forall|key: Seq<u8>| #[trigger] namespace.attributes.contains_key(key) ==> key.len() >= 8
}

/// A state has finitely many inodes, entries and extended attributes.
pub open spec fn finite_state(namespace: Namespace) -> bool {
    &&& namespace.inodes.dom().finite()
    &&& namespace.entries.dom().finite()
    &&& namespace.attributes.dom().finite()
}

proof fn lemma_inodes_finite(
    inodes: Map<Seq<u8>, InodeView>,
    deletes: Seq<u64>,
    puts: Seq<(u64, InodeView)>,
)
    requires
        inodes.dom().finite(),
    ensures
        put_inodes(remove_inodes(inodes, deletes), puts).dom().finite(),
    decreases deletes.len() + puts.len(),
{
    if puts.len() > 0 {
        lemma_inodes_finite(inodes, deletes, puts.drop_last());
    } else if deletes.len() > 0 {
        lemma_inodes_finite(inodes, deletes.drop_last(), puts);
    }
}

proof fn lemma_named_finite<V>(
    map: Map<Seq<u8>, V>,
    deletes: Seq<(u64, Seq<u8>)>,
    puts: Seq<(u64, Seq<u8>, V)>,
)
    requires
        map.dom().finite(),
    ensures
        put_named(remove_named(map, deletes), puts).dom().finite(),
    decreases deletes.len() + puts.len(),
{
    if puts.len() > 0 {
        lemma_named_finite(map, deletes, puts.drop_last());
    } else if deletes.len() > 0 {
        lemma_named_finite(map, deletes.drop_last(), puts);
    }
}

/// A change of a finite state leaves finite states, in memory and stored.
pub proof fn lemma_change_keeps_finite(
    stored: Namespace,
    seen: Namespace,
    mutation: MutationView,
)
    requires
        finite_state(stored),
        finite_state(seen),
    ensures
        finite_state(stored_after(stored, seen, mutation)),
        finite_state(seen.after(mutation)),
{
    let base = changed_base(stored.attributes, seen.attributes, attribute_changes(mutation));
    let trimmed = remove_attributes_of(seen.attributes, mutation.inode_deletes);
    lemma_inodes_finite(seen.inodes, mutation.inode_deletes, mutation.inode_puts);
    lemma_named_finite(seen.entries, mutation.entry_deletes, mutation.entry_puts);
    lemma_named_finite(base, mutation.attribute_deletes, mutation.attribute_puts);
    lemma_trimmed_keys(seen.attributes, mutation.inode_deletes);
    assert(trimmed.dom().subset_of(seen.attributes.dom()));
    lemma_len_subset(trimmed.dom(), seen.attributes.dom());
    lemma_named_finite(trimmed, mutation.attribute_deletes, mutation.attribute_puts);
}

/// A finite state whose inodes and entries decode back can be stored.
pub proof fn lemma_finite_encodable(namespace: Namespace)
    requires
        finite_state(namespace),
        inodes_decode(namespace.inodes),
        entries_decode(namespace.entries),
    ensures
        encodable(namespace),
{
    lemma_finite_listed(namespace.inodes);
    lemma_finite_listed(namespace.entries);
    lemma_finite_listed(namespace.attributes);
}

/// Tries hold the three maps of a state.
pub open spec fn state_held(nodes: Blobs, root: RootView, namespace: Namespace) -> bool {
    &&& holds(nodes, NamespaceMapKind::Inodes, root.inodes, 0, encoded_inodes(namespace.inodes))
    &&& holds(
        nodes,
        NamespaceMapKind::DirectoryEntries,
        root.entries,
        0,
        encoded_entries(namespace.entries),
    )
    &&& holds(
        nodes,
        NamespaceMapKind::ExtendedAttributes,
        root.attributes,
        0,
        namespace.attributes,
    )
}

proof fn lemma_decoding_inodes(
    entries: Seq<EntryPair>,
    inodes: Map<Seq<u8>, InodeView>,
    count: int,
)
    requires
        0 <= count <= entries.len(),
        spells(entries, encoded_inodes(inodes)),
        inodes_decode(inodes),
        forall|key: Seq<u8>| #[trigger] inodes.contains_key(key) ==> key.len() == 8,
    ensures
        decoded_inodes(entries.take(count)) is Some,
        ({
            let map = decoded_inodes(entries.take(count))->0;
            &&& forall|key: Seq<u8>| #[trigger]
                map.contains_key(key) ==> inodes.contains_key(key) && map[key] == inodes[key]
            &&& forall|i: int| 0 <= i < count ==> map.contains_key((#[trigger] entries[i]).0)
        }),
    decreases count,
{
    if count > 0 {
        lemma_decoding_inodes(entries, inodes, count - 1);
        assert(entries.take(count).drop_last() =~= entries.take(count - 1));
        let last = entries[count - 1];
        assert(entries.take(count).last() == last);
        assert(encoded_inodes(inodes).contains_key(last.0));
        assert(inodes.contains_key(last.0));
        assert(last.1 == inode_encoding(inodes[last.0]));
    }
}

proof fn lemma_decoding_entries(
    entries: Seq<EntryPair>,
    found: Map<Seq<u8>, StoredDirectoryEntry>,
    count: int,
)
    requires
        0 <= count <= entries.len(),
        spells(entries, encoded_entries(found)),
        entries_decode(found),
        forall|key: Seq<u8>| #[trigger] found.contains_key(key) ==> key.len() >= 8,
    ensures
        decoded_entries(entries.take(count)) is Some,
        ({
            let map = decoded_entries(entries.take(count))->0;
            &&& forall|key: Seq<u8>| #[trigger]
                map.contains_key(key) ==> found.contains_key(key) && map[key] == found[key]
            &&& forall|i: int| 0 <= i < count ==> map.contains_key((#[trigger] entries[i]).0)
        }),
    decreases count,
{
    if count > 0 {
        lemma_decoding_entries(entries, found, count - 1);
        assert(entries.take(count).drop_last() =~= entries.take(count - 1));
        let last = entries[count - 1];
        assert(entries.take(count).last() == last);
        assert(encoded_entries(found).contains_key(last.0));
        assert(found.contains_key(last.0));
        assert(last.1 == entry_encoding(found[last.0]));
    }
}

proof fn lemma_decoding_attributes(entries: Seq<EntryPair>, found: Blobs, count: int)
    requires
        0 <= count <= entries.len(),
        spells(entries, found),
        forall|key: Seq<u8>| #[trigger] found.contains_key(key) ==> key.len() >= 8,
    ensures
        decoded_attributes(entries.take(count)) is Some,
        ({
            let map = decoded_attributes(entries.take(count))->0;
            &&& forall|key: Seq<u8>| #[trigger]
                map.contains_key(key) ==> found.contains_key(key) && map[key] == found[key]
            &&& forall|i: int| 0 <= i < count ==> map.contains_key((#[trigger] entries[i]).0)
        }),
    decreases count,
{
    if count > 0 {
        lemma_decoding_attributes(entries, found, count - 1);
        assert(entries.take(count).drop_last() =~= entries.take(count - 1));
        let last = entries[count - 1];
        assert(entries.take(count).last() == last);
        assert(found.contains_key(last.0));
    }
}

/// A state that is held under its roots is loaded as it is.
pub proof fn lemma_loading_gives_state(
    nodes: Blobs,
    name: Seq<u8>,
    root: RootView,
    namespace: Namespace,
)
    requires
        root_at(nodes, name) == Some(root),
        state_held(nodes, root, namespace),
        inodes_decode(namespace.inodes),
        entries_decode(namespace.entries),
        well_keyed(namespace),
    ensures
        stored_state(nodes, name) == Some(namespace),
{
    let levels = NAMESPACE_LEVELS as nat;
    lemma_loading_gives_map(
        nodes,
        NamespaceMapKind::Inodes,
        root.inodes,
        0,
        encoded_inodes(namespace.inodes),
        levels,
    );
    lemma_loading_gives_map(
        nodes,
        NamespaceMapKind::DirectoryEntries,
        root.entries,
        0,
        encoded_entries(namespace.entries),
        levels,
    );
    lemma_loading_gives_map(
        nodes,
        NamespaceMapKind::ExtendedAttributes,
        root.attributes,
        0,
        namespace.attributes,
        levels,
    );
    let inodes = loaded(nodes, root.inodes, levels)->0;
    let entries = loaded(nodes, root.entries, levels)->0;
    let attributes = loaded(nodes, root.attributes, levels)->0;
    lemma_decoding_inodes(inodes, namespace.inodes, inodes.len() as int);
    lemma_decoding_entries(entries, namespace.entries, entries.len() as int);
    lemma_decoding_attributes(attributes, namespace.attributes, attributes.len() as int);
    assert(inodes.take(inodes.len() as int) =~= inodes);
    assert(entries.take(entries.len() as int) =~= entries);
    assert(attributes.take(attributes.len() as int) =~= attributes);
    assert(decoded_inodes(inodes)->0 =~= namespace.inodes) by {
        assert forall|key: Seq<u8>| #[trigger]
            namespace.inodes.contains_key(key) implies decoded_inodes(inodes)->0.contains_key(
            key,
        ) by {
            assert(encoded_inodes(namespace.inodes).contains_key(key));
        }
    }
    assert(decoded_entries(entries)->0 =~= namespace.entries) by {
        assert forall|key: Seq<u8>| #[trigger]
            namespace.entries.contains_key(key) implies decoded_entries(entries)->0.contains_key(
            key,
        ) by {
            assert(encoded_entries(namespace.entries).contains_key(key));
        }
    }
    assert(decoded_attributes(attributes)->0 =~= namespace.attributes);
}

proof fn lemma_changes_join(map: Blobs, first: Seq<Change>, second: Seq<Change>)
    ensures
        change_all(map, first + second) == change_all(change_all(map, first), second),
    decreases second.len(),
{
    if second.len() == 0 {
        assert(first + second =~= first);
    } else {
        lemma_changes_join(map, first, second.drop_last());
        assert((first + second).drop_last() =~= first + second.drop_last());
        assert((first + second).last() == second.last());
    }
}

proof fn lemma_inode_deletes(inodes: Map<Seq<u8>, InodeView>, deletes: Seq<u64>)
    ensures
        change_all(
            encoded_inodes(inodes),
            Seq::new(deletes.len(), |i: int| Change::Delete(u64_key(deletes[i]))),
        ) == encoded_inodes(remove_inodes(inodes, deletes)),
    decreases deletes.len(),
{
    let changes = Seq::new(deletes.len(), |i: int| Change::Delete(u64_key(deletes[i])));
    if deletes.len() > 0 {
        let rest = deletes.drop_last();
        lemma_inode_deletes(inodes, rest);
        assert(changes.drop_last() =~= Seq::new(
            rest.len(),
            |i: int| Change::Delete(u64_key(rest[i])),
        ));
        let before = remove_inodes(inodes, rest);
        assert(encoded_inodes(before.remove(u64_key(deletes.last()))) =~= encoded_inodes(
            before,
        ).remove(u64_key(deletes.last())));
    }
}

proof fn lemma_inode_puts(inodes: Map<Seq<u8>, InodeView>, puts: Seq<(u64, InodeView)>)
    ensures
        change_all(
            encoded_inodes(inodes),
            Seq::new(
                puts.len(),
                |i: int| Change::Put(u64_key(puts[i].0), inode_encoding(puts[i].1)),
            ),
        ) == encoded_inodes(put_inodes(inodes, puts)),
    decreases puts.len(),
{
    let changes = Seq::new(
        puts.len(),
        |i: int| Change::Put(u64_key(puts[i].0), inode_encoding(puts[i].1)),
    );
    if puts.len() > 0 {
        let rest = puts.drop_last();
        lemma_inode_puts(inodes, rest);
        assert(changes.drop_last() =~= Seq::new(
            rest.len(),
            |i: int| Change::Put(u64_key(rest[i].0), inode_encoding(rest[i].1)),
        ));
        let before = put_inodes(inodes, rest);
        let last = puts.last();
        assert(encoded_inodes(before.insert(u64_key(last.0), last.1)) =~= encoded_inodes(
            before,
        ).insert(u64_key(last.0), inode_encoding(last.1)));
    }
}

proof fn lemma_entry_deletes(
    entries: Map<Seq<u8>, StoredDirectoryEntry>,
    deletes: Seq<(u64, Seq<u8>)>,
)
    ensures
        change_all(
            encoded_entries(entries),
            Seq::new(
                deletes.len(),
                |i: int| Change::Delete(named_key(deletes[i].0, deletes[i].1)),
            ),
        ) == encoded_entries(remove_named(entries, deletes)),
    decreases deletes.len(),
{
    let changes = Seq::new(
        deletes.len(),
        |i: int| Change::Delete(named_key(deletes[i].0, deletes[i].1)),
    );
    if deletes.len() > 0 {
        let rest = deletes.drop_last();
        lemma_entry_deletes(entries, rest);
        assert(changes.drop_last() =~= Seq::new(
            rest.len(),
            |i: int| Change::Delete(named_key(rest[i].0, rest[i].1)),
        ));
        let before = remove_named(entries, rest);
        let key = named_key(deletes.last().0, deletes.last().1);
        assert(encoded_entries(before.remove(key)) =~= encoded_entries(before).remove(key));
    }
}

proof fn lemma_entry_puts(
    entries: Map<Seq<u8>, StoredDirectoryEntry>,
    puts: Seq<(u64, Seq<u8>, StoredDirectoryEntry)>,
)
    ensures
        change_all(
            encoded_entries(entries),
            Seq::new(
                puts.len(),
                |i: int| Change::Put(named_key(puts[i].0, puts[i].1), entry_encoding(puts[i].2)),
            ),
        ) == encoded_entries(put_named(entries, puts)),
    decreases puts.len(),
{
    let changes = Seq::new(
        puts.len(),
        |i: int| Change::Put(named_key(puts[i].0, puts[i].1), entry_encoding(puts[i].2)),
    );
    if puts.len() > 0 {
        let rest = puts.drop_last();
        lemma_entry_puts(entries, rest);
        assert(changes.drop_last() =~= Seq::new(
            rest.len(),
            |i: int| Change::Put(named_key(rest[i].0, rest[i].1), entry_encoding(rest[i].2)),
        ));
        let before = put_named(entries, rest);
        let last = puts.last();
        let key = named_key(last.0, last.1);
        assert(encoded_entries(before.insert(key, last.2)) =~= encoded_entries(before).insert(
            key,
            entry_encoding(last.2),
        ));
    }
}

proof fn lemma_attribute_deletes(attributes: Blobs, deletes: Seq<(u64, Seq<u8>)>)
    ensures
        change_all(
            attributes,
            Seq::new(
                deletes.len(),
                |i: int| Change::Delete(named_key(deletes[i].0, deletes[i].1)),
            ),
        ) == remove_named(attributes, deletes),
    decreases deletes.len(),
{
    let changes = Seq::new(
        deletes.len(),
        |i: int| Change::Delete(named_key(deletes[i].0, deletes[i].1)),
    );
    if deletes.len() > 0 {
        let rest = deletes.drop_last();
        lemma_attribute_deletes(attributes, rest);
        assert(changes.drop_last() =~= Seq::new(
            rest.len(),
            |i: int| Change::Delete(named_key(rest[i].0, rest[i].1)),
        ));
    }
}

proof fn lemma_attribute_puts(attributes: Blobs, puts: Seq<(u64, Seq<u8>, Seq<u8>)>)
    ensures
        change_all(
            attributes,
            Seq::new(
                puts.len(),
                |i: int| Change::Put(named_key(puts[i].0, puts[i].1), puts[i].2),
            ),
        ) == put_named(attributes, puts),
    decreases puts.len(),
{
    let changes = Seq::new(
        puts.len(),
        |i: int| Change::Put(named_key(puts[i].0, puts[i].1), puts[i].2),
    );
    if puts.len() > 0 {
        let rest = puts.drop_last();
        lemma_attribute_puts(attributes, rest);
        assert(changes.drop_last() =~= Seq::new(
            rest.len(),
            |i: int| Change::Put(named_key(rest[i].0, rest[i].1), rest[i].2),
        ));
    }
}

/// The changes of the stored maps of a state are those of the state.
proof fn lemma_changes_follow(namespace: Namespace, attributes: Blobs, mutation: MutationView)
    ensures
        change_all(encoded_inodes(namespace.inodes), inode_changes(mutation)) == encoded_inodes(
            namespace.after(mutation).inodes,
        ),
        change_all(encoded_entries(namespace.entries), entry_changes(mutation)) == encoded_entries(
            namespace.after(mutation).entries,
        ),
        change_all(attributes, attribute_changes(mutation)) == put_named(
            remove_named(attributes, mutation.attribute_deletes),
            mutation.attribute_puts,
        ),
{
    let inode_deletes = mutation.inode_deletes;
    let inode_puts = mutation.inode_puts;
    lemma_changes_join(
        encoded_inodes(namespace.inodes),
        Seq::new(inode_deletes.len(), |i: int| Change::Delete(u64_key(inode_deletes[i]))),
        Seq::new(
            inode_puts.len(),
            |i: int| Change::Put(u64_key(inode_puts[i].0), inode_encoding(inode_puts[i].1)),
        ),
    );
    lemma_inode_deletes(namespace.inodes, inode_deletes);
    lemma_inode_puts(remove_inodes(namespace.inodes, inode_deletes), inode_puts);
    let entry_deletes = mutation.entry_deletes;
    let entry_puts = mutation.entry_puts;
    lemma_changes_join(
        encoded_entries(namespace.entries),
        Seq::new(
            entry_deletes.len(),
            |i: int| Change::Delete(named_key(entry_deletes[i].0, entry_deletes[i].1)),
        ),
        Seq::new(
            entry_puts.len(),
            |i: int|
                Change::Put(
                    named_key(entry_puts[i].0, entry_puts[i].1),
                    entry_encoding(entry_puts[i].2),
                ),
        ),
    );
    lemma_entry_deletes(namespace.entries, entry_deletes);
    lemma_entry_puts(remove_named(namespace.entries, entry_deletes), entry_puts);
    let attribute_deletes = mutation.attribute_deletes;
    let attribute_puts = mutation.attribute_puts;
    lemma_changes_join(
        attributes,
        Seq::new(
            attribute_deletes.len(),
            |i: int| Change::Delete(named_key(attribute_deletes[i].0, attribute_deletes[i].1)),
        ),
        Seq::new(
            attribute_puts.len(),
            |i: int|
                Change::Put(
                    named_key(attribute_puts[i].0, attribute_puts[i].1),
                    attribute_puts[i].2,
                ),
        ),
    );
    lemma_attribute_deletes(attributes, attribute_deletes);
    lemma_attribute_puts(remove_named(attributes, attribute_deletes), attribute_puts);
}

proof fn lemma_inodes_stay(
    inodes: Map<Seq<u8>, InodeView>,
    deletes: Seq<u64>,
    puts: Seq<(u64, InodeView)>,
)
    requires
        inodes_decode(inodes),
        forall|key: Seq<u8>| #[trigger] inodes.contains_key(key) ==> key.len() == 8,
        forall|i: int|
            0 <= i < puts.len() ==> inode_decoding(inode_encoding((#[trigger] puts[i]).1)) == Some(
                puts[i].1,
            ),
    ensures
        ({
            let after = put_inodes(remove_inodes(inodes, deletes), puts);
            &&& inodes_decode(after)
            &&& forall|key: Seq<u8>| #[trigger] after.contains_key(key) ==> key.len() == 8
        }),
    decreases deletes.len() + puts.len(),
{
    if puts.len() > 0 {
        let rest = puts.drop_last();
        assert forall|i: int| 0 <= i < rest.len() implies inode_decoding(
            inode_encoding((#[trigger] rest[i]).1),
        ) == Some(rest[i].1) by {
            assert(rest[i] == puts[i]);
        }
        lemma_inodes_stay(inodes, deletes, rest);
        let last = puts[puts.len() - 1];
        assert(inode_decoding(inode_encoding(last.1)) == Some(last.1));
    } else if deletes.len() > 0 {
        lemma_inodes_stay(inodes, deletes.drop_last(), puts);
    }
}

proof fn lemma_entries_stay(
    entries: Map<Seq<u8>, StoredDirectoryEntry>,
    deletes: Seq<(u64, Seq<u8>)>,
    puts: Seq<(u64, Seq<u8>, StoredDirectoryEntry)>,
)
    requires
        entries_decode(entries),
        forall|key: Seq<u8>| #[trigger] entries.contains_key(key) ==> key.len() >= 8,
        forall|i: int|
            0 <= i < puts.len() ==> entry_decoding(entry_encoding((#[trigger] puts[i]).2)) == Some(
                puts[i].2,
            ),
    ensures
        ({
            let after = put_named(remove_named(entries, deletes), puts);
            &&& entries_decode(after)
            &&& forall|key: Seq<u8>| #[trigger] after.contains_key(key) ==> key.len() >= 8
        }),
    decreases deletes.len() + puts.len(),
{
    if puts.len() > 0 {
        let rest = puts.drop_last();
        assert forall|i: int| 0 <= i < rest.len() implies entry_decoding(
            entry_encoding((#[trigger] rest[i]).2),
        ) == Some(rest[i].2) by {
            assert(rest[i] == puts[i]);
        }
        lemma_entries_stay(entries, deletes, rest);
        let last = puts[puts.len() - 1];
        assert(entry_decoding(entry_encoding(last.2)) == Some(last.2));
    } else if deletes.len() > 0 {
        lemma_entries_stay(entries, deletes.drop_last(), puts);
    }
}

proof fn lemma_attributes_stay(
    attributes: Blobs,
    deletes: Seq<(u64, Seq<u8>)>,
    puts: Seq<(u64, Seq<u8>, Seq<u8>)>,
)
    requires
        forall|key: Seq<u8>| #[trigger] attributes.contains_key(key) ==> key.len() >= 8,
    ensures
        forall|key: Seq<u8>| #[trigger]
            put_named(remove_named(attributes, deletes), puts).contains_key(key) ==> key.len() >= 8,
    decreases deletes.len() + puts.len(),
{
    let removed = remove_named(attributes, deletes);
    if puts.len() > 0 {
        lemma_attributes_stay(attributes, deletes, puts.drop_last());
        let before = put_named(removed, puts.drop_last());
        let after = put_named(removed, puts);
        assert forall|key: Seq<u8>| #[trigger] after.contains_key(key) implies key.len() >= 8 by {
            if key != named_key(puts.last().0, puts.last().1) {
                assert(before.contains_key(key));
            }
        }
    } else {
        assert(put_named(removed, puts) == removed);
        if deletes.len() > 0 {
            lemma_attributes_stay(attributes, deletes.drop_last(), puts);
            let before = remove_named(attributes, deletes.drop_last());
            assert(put_named(before, puts) == before);
            assert forall|key: Seq<u8>| #[trigger] removed.contains_key(key) implies key.len()
                >= 8 by {
                assert(before.contains_key(key));
            }
        }
    }
}

proof fn lemma_trimmed_keys(attributes: Blobs, inodes: Seq<u64>)
    ensures
        remove_attributes_of(attributes, inodes).submap_of(attributes),
    decreases inodes.len(),
{
    if inodes.len() > 0 {
        lemma_trimmed_keys(attributes, inodes.drop_last());
    }
}

proof fn lemma_part_kept(nodes: Blobs, all: Seq<Node>, part: Seq<Node>, at: int)
    requires
        keeps(nodes, all),
        0 <= at,
        at + part.len() <= all.len(),
        forall|i: int| 0 <= i < part.len() ==> (#[trigger] part[i]) == all[at + i],
    ensures
        keeps(nodes, part),
{
    assert forall|i: int| 0 <= i < part.len() implies node_at(
        nodes,
        node_identifier(#[trigger] part[i]),
    ) == Some(part[i]) by {
        assert(part[i] == all[at + i]);
    }
}

/// Nodes that decode back are found where they were stored, as long as names agree.
pub proof fn lemma_nodes_stored(nodes: Blobs, stored: Seq<Node>)
    requires
        uncollided(nodes, node_puts(stored)),
        nodes_sound(stored),
    ensures
        nodes.submap_of(put_blobs(nodes, node_puts(stored))),
        keeps(put_blobs(nodes, node_puts(stored)), stored),
{
    let puts = node_puts(stored);
    lemma_store_grows(nodes, puts);
    let larger = put_blobs(nodes, puts);
    assert forall|i: int| 0 <= i < stored.len() implies node_at(
        larger,
        node_identifier(#[trigger] stored[i]),
    ) == Some(stored[i]) by {
        assert(sound_node(stored[i]));
        assert(larger.contains_key(puts[i].0) && larger[puts[i].0] == puts[i].1);
    }
}

/// Storing a change of a state gives the stored state that the change leaves, held and loaded as it is.
/// What was stored before may differ from the state in memory in its extended attributes alone.
pub proof fn lemma_change_is_held(
    nodes: Blobs,
    root: RootView,
    stored: Namespace,
    seen: Namespace,
    mutation: MutationView,
)
    requires
        state_held(nodes, root, stored),
        stored.inodes == seen.inodes,
        stored.entries == seen.entries,
        well_keyed(stored),
        well_keyed(seen),
        encodable(seen),
        puts_encodable(mutation),
        active_mutation_plan(nodes, root, seen, mutation) is Some,
        ({
            let plan = (active_mutation_plan(nodes, root, seen, mutation)->0).0;
            nodes_sound(plan.nodes) && uncollided(nodes, node_puts(plan.nodes))
        }),
    ensures
        ({
            let (plan, changed) = active_mutation_plan(nodes, root, seen, mutation)->0;
            let larger = put_blobs(nodes, node_puts(plan.nodes));
            let after = stored_after(stored, seen, mutation);
            &&& nodes.submap_of(larger)
            &&& root_at(larger, plan.identifier) == Some(changed)
            &&& state_held(larger, changed, after)
            &&& well_keyed(after)
            &&& well_keyed(seen.after(mutation))
            &&& inodes_decode(after.inodes)
            &&& entries_decode(after.entries)
            &&& stored_state(larger, plan.identifier) == Some(after)
        }),
{
    let (plan, changed) = active_mutation_plan(nodes, root, seen, mutation)->0;
    let larger = put_blobs(nodes, node_puts(plan.nodes));
    let after = stored_after(stored, seen, mutation);
    let base = changed_base(stored.attributes, seen.attributes, attribute_changes(mutation));
    lemma_nodes_stored(nodes, plan.nodes);
    let a = active_plan(
        nodes,
        NamespaceMapKind::Inodes,
        root.inodes,
        encoded_inodes(seen.inodes),
        inode_changes(mutation),
    )->0.nodes;
    let b = active_plan(
        nodes,
        NamespaceMapKind::DirectoryEntries,
        root.entries,
        encoded_entries(seen.entries),
        entry_changes(mutation),
    )->0.nodes;
    let c = active_plan(
        nodes,
        NamespaceMapKind::ExtendedAttributes,
        root.attributes,
        seen.attributes,
        attribute_changes(mutation),
    )->0.nodes;
    assert(plan.nodes == a + b + c + seq![Node::Root(changed)]);
    lemma_part_kept(larger, plan.nodes, a, 0);
    lemma_part_kept(larger, plan.nodes, b, a.len() as int);
    lemma_part_kept(larger, plan.nodes, c, (a.len() + b.len()) as int);
    assert(plan.nodes[plan.nodes.len() - 1] == Node::Root(changed));
    lemma_changes_follow(seen, base, mutation);
    lemma_same_keys(seen.inodes, encoded_inodes(seen.inodes), listed_keys(seen.inodes));
    lemma_same_keys(seen.entries, encoded_entries(seen.entries), listed_keys(seen.entries));
    lemma_changing_map(
        nodes,
        larger,
        NamespaceMapKind::Inodes,
        root.inodes,
        encoded_inodes(seen.inodes),
        encoded_inodes(seen.inodes),
        inode_changes(mutation),
    );
    lemma_changing_map(
        nodes,
        larger,
        NamespaceMapKind::DirectoryEntries,
        root.entries,
        encoded_entries(seen.entries),
        encoded_entries(seen.entries),
        entry_changes(mutation),
    );
    lemma_changing_map(
        nodes,
        larger,
        NamespaceMapKind::ExtendedAttributes,
        root.attributes,
        stored.attributes,
        seen.attributes,
        attribute_changes(mutation),
    );
    lemma_inodes_stay(seen.inodes, mutation.inode_deletes, mutation.inode_puts);
    lemma_entries_stay(seen.entries, mutation.entry_deletes, mutation.entry_puts);
    lemma_attributes_stay(base, mutation.attribute_deletes, mutation.attribute_puts);
    let trimmed = remove_attributes_of(seen.attributes, mutation.inode_deletes);
    lemma_trimmed_keys(seen.attributes, mutation.inode_deletes);
    assert forall|key: Seq<u8>| #[trigger] trimmed.contains_key(key) implies key.len() >= 8 by {
        assert(seen.attributes.dom().contains(key));
    }
    lemma_attributes_stay(trimmed, mutation.attribute_deletes, mutation.attribute_puts);
    lemma_loading_gives_state(larger, plan.identifier, changed, after);
}

/// Storing a whole state gives it held and loaded as it is.
pub proof fn lemma_state_is_held(nodes: Blobs, namespace: Namespace)
    requires
        well_keyed(namespace),
        encodable(namespace),
        state_plan(namespace) is Some,
        nodes_sound((state_plan(namespace)->0).0.nodes),
        uncollided(nodes, node_puts((state_plan(namespace)->0).0.nodes)),
    ensures
        ({
            let (plan, root) = state_plan(namespace)->0;
            let larger = put_blobs(nodes, node_puts(plan.nodes));
            &&& nodes.submap_of(larger)
            &&& root_at(larger, plan.identifier) == Some(root)
            &&& state_held(larger, root, namespace)
            &&& stored_state(larger, plan.identifier) == Some(namespace)
        }),
{
    let (plan, root) = state_plan(namespace)->0;
    let larger = put_blobs(nodes, node_puts(plan.nodes));
    lemma_nodes_stored(nodes, plan.nodes);
    let inodes = encoded_inodes(namespace.inodes);
    let entries = encoded_entries(namespace.entries);
    let attributes = namespace.attributes;
    let a = entries_plan(NamespaceMapKind::Inodes, listing(inodes), 0)->0.nodes;
    let b = entries_plan(NamespaceMapKind::DirectoryEntries, listing(entries), 0)->0.nodes;
    let c = entries_plan(NamespaceMapKind::ExtendedAttributes, listing(attributes), 0)->0.nodes;
    assert(plan.nodes == a + b + c + seq![Node::Root(root)]);
    lemma_part_kept(larger, plan.nodes, a, 0);
    lemma_part_kept(larger, plan.nodes, b, a.len() as int);
    lemma_part_kept(larger, plan.nodes, c, (a.len() + b.len()) as int);
    assert(plan.nodes[plan.nodes.len() - 1] == Node::Root(root));
    lemma_same_keys(namespace.inodes, inodes, listed_keys(namespace.inodes));
    lemma_same_keys(namespace.entries, entries, listed_keys(namespace.entries));
    lemma_listing_spells(inodes);
    lemma_listing_spells(entries);
    lemma_listing_spells(attributes);
    lemma_storing_entries(larger, NamespaceMapKind::Inodes, listing(inodes), 0, inodes);
    lemma_storing_entries(
        larger,
        NamespaceMapKind::DirectoryEntries,
        listing(entries),
        0,
        entries,
    );
    lemma_storing_entries(
        larger,
        NamespaceMapKind::ExtendedAttributes,
        listing(attributes),
        0,
        attributes,
    );
    lemma_loading_gives_state(larger, plan.identifier, root, namespace);
}

} // verus!
