//! Ordered tables from byte-string keys to values, walked in key order.

use vstd::prelude::*;

use crate::bytes::{
    bytes_before, bytes_equal, compare_bytes, has_prefix, lemma_bytes_before_asymmetric,
    lemma_bytes_before_irreflexive, lemma_bytes_before_total, lemma_bytes_before_transitive,
    starts_with, ByteOrder,
};

verus! {

/// One row of a table.
#[derive(Debug, PartialEq, Eq)]
pub struct TableRow<V> {
    /// The key.
    pub key: Vec<u8>,
    /// The value stored under it.
    pub value: V,
}

/// A table: rows in strictly increasing key order.
#[derive(Debug, PartialEq, Eq)]
pub struct Table<V> {
    rows: Vec<TableRow<V>>,
}

/// The keys are in strictly increasing order.
pub open spec fn sorted_keys(keys: Seq<Seq<u8>>) -> bool {
    forall|i: int, j: int|
        0 <= i < j < keys.len() ==> bytes_before(#[trigger] keys[i], #[trigger] keys[j])
}

/// `keys` lists the keys of `map`, each once, in increasing order.
pub open spec fn lists_keys<V>(keys: Seq<Seq<u8>>, map: Map<Seq<u8>, V>) -> bool {
    &&& sorted_keys(keys)
    &&& forall|i: int| 0 <= i < keys.len() ==> map.contains_key(#[trigger] keys[i])
    &&& forall|key: Seq<u8>| #[trigger] map.contains_key(key) ==> keys.contains(key)
}

/// The keys of rows.
spec fn row_keys<V>(rows: Seq<TableRow<V>>) -> Seq<Seq<u8>> {
    Seq::new(rows.len(), |i: int| rows[i].key@)
}

/// The index of the row with a key.
spec fn row_index<V>(rows: Seq<TableRow<V>>, key: Seq<u8>) -> int {
    choose|i: int| 0 <= i < rows.len() && #[trigger] rows[i].key@ == key
}

/// Some row has this key.
spec fn has_row<V>(rows: Seq<TableRow<V>>, key: Seq<u8>) -> bool {
    exists|i: int| 0 <= i < rows.len() && #[trigger] rows[i].key@ == key
}

/// The mapping that rows stand for.
spec fn row_map<V>(rows: Seq<TableRow<V>>) -> Map<Seq<u8>, V> {
    Map::new(|key: Seq<u8>| has_row(rows, key), |key: Seq<u8>| rows[row_index(rows, key)].value)
}

proof fn lemma_row_map<V>(rows: Seq<TableRow<V>>)
    requires
        sorted_keys(row_keys(rows)),
    ensures
        forall|i: int|
            #![trigger rows[i]]
            0 <= i < rows.len() ==> row_map(rows).contains_key(rows[i].key@) && row_map(
                rows,
            )[rows[i].key@] == rows[i].value,
        forall|i: int, j: int|
            0 <= i < rows.len() && 0 <= j < rows.len() && #[trigger] rows[i].key@
                == #[trigger] rows[j].key@ ==> i == j,
        lists_keys(row_keys(rows), row_map(rows)),
{
    assert forall|i: int, j: int|
        0 <= i < rows.len() && 0 <= j < rows.len() && #[trigger] rows[i].key@
            == #[trigger] rows[j].key@ implies i == j by {
        let keys = row_keys(rows);
        if i < j {
            assert(bytes_before(keys[i], keys[j]));
            lemma_bytes_before_irreflexive(keys[i]);
        } else if j < i {
            assert(bytes_before(keys[j], keys[i]));
            lemma_bytes_before_irreflexive(keys[i]);
        }
    }
    assert forall|i: int|
        #![trigger rows[i]]
        0 <= i < rows.len() implies row_map(rows).contains_key(rows[i].key@) && row_map(
        rows,
    )[rows[i].key@] == rows[i].value by {
        assert(has_row(rows, rows[i].key@));
        let k = row_index(rows, rows[i].key@);
        assert(rows[k].key@ == rows[i].key@);
    }
    assert forall|key: Seq<u8>| #[trigger] row_map(rows).contains_key(key) implies row_keys(
        rows,
    ).contains(key) by {
        let k = row_index(rows, key);
        assert(row_keys(rows)[k] == key);
    }
    assert forall|i: int| 0 <= i < rows.len() implies row_map(rows).contains_key(
        #[trigger] row_keys(rows)[i],
    ) by {
        assert(has_row(rows, rows[i].key@));
    }
}

impl<V> View for Table<V> {
    type V = Map<Seq<u8>, V>;

    closed spec fn view(&self) -> Map<Seq<u8>, V> {
        row_map(self.rows@)
    }
}

impl<V> Table<V> {
    #[verifier::type_invariant]
    spec fn valid(self) -> bool {
        sorted_keys(row_keys(self.rows@))
    }

    /// The keys in increasing order.
    pub closed spec fn keys(&self) -> Seq<Seq<u8>> {
        row_keys(self.rows@)
    }

    /// Creates an empty table.
    pub fn new() -> (table: Self)
        ensures
            table@ == Map::<Seq<u8>, V>::empty(),
            table.keys() == Seq::<Seq<u8>>::empty(),
    {
        let table = Table { rows: Vec::new() };
        proof {
            assert(table@ =~= Map::<Seq<u8>, V>::empty());
            assert(table.keys() =~= Seq::<Seq<u8>>::empty());
        }
        table
    }

    /// Returns the number of rows.
    pub fn len(&self) -> (len: usize)
        ensures
            len == self.keys().len(),
            lists_keys(self.keys(), self@),
    {
        proof {
            use_type_invariant(self);
            lemma_row_map(self.rows@);
        }
        self.rows.len()
    }

    /// Returns the key at a place in key order.
    pub fn key_at(&self, index: usize) -> (key: &[u8])
        requires
            index < self.keys().len(),
        ensures
            key@ == self.keys()[index as int],
            self@.contains_key(key@),
    {
        proof {
            use_type_invariant(self);
            lemma_row_map(self.rows@);
            assert(self.rows@[index as int].key@ == self.keys()[index as int]);
        }
        self.rows[index].key.as_slice()
    }

    /// Returns the value at a place in key order.
    pub fn value_at(&self, index: usize) -> (value: &V)
        requires
            index < self.keys().len(),
        ensures
            self@.contains_key(self.keys()[index as int]),
            *value == self@[self.keys()[index as int]],
    {
        proof {
            use_type_invariant(self);
            lemma_row_map(self.rows@);
            assert(self.rows@[index as int].key@ == self.keys()[index as int]);
        }
        &self.rows[index].value
    }

    /// Finds the first place whose key does not come before `key`.
    pub fn lower_bound(&self, key: &[u8]) -> (index: usize)
        ensures
            index <= self.keys().len(),
            forall|i: int| 0 <= i < index ==> bytes_before(#[trigger] self.keys()[i], key@),
            forall|i: int|
                index <= i < self.keys().len() ==> !bytes_before(#[trigger] self.keys()[i], key@),
            lists_keys(self.keys(), self@),
    {
        proof {
            use_type_invariant(self);
            lemma_row_map(self.rows@);
        }
        let mut low: usize = 0;
        let mut high: usize = self.rows.len();
        while low < high
            invariant
                low <= high <= self.rows@.len(),
                sorted_keys(self.keys()),
                self.keys().len() == self.rows@.len(),
                forall|i: int| 0 <= i < low ==> bytes_before(#[trigger] self.keys()[i], key@),
                forall|i: int|
                    high <= i < self.keys().len() ==> !bytes_before(
                        #[trigger] self.keys()[i],
                        key@,
                    ),
            decreases high - low,
        {
            let middle: usize = low + (high - low) / 2;
            let ghost at = self.keys()[middle as int];
            assert(at == self.rows@[middle as int].key@);
            if compare_bytes(self.rows[middle].key.as_slice(), key) == ByteOrder::Before {
                proof {
                    assert forall|i: int| 0 <= i < middle + 1 implies bytes_before(
                        #[trigger] self.keys()[i],
                        key@,
                    ) by {
                        if i < middle {
                            assert(bytes_before(self.keys()[i], self.keys()[middle as int]));
                            lemma_bytes_before_transitive(self.keys()[i], at, key@);
                        }
                    }
                }
                low = middle + 1;
            } else {
                proof {
                    assert forall|i: int|
                        middle <= i < self.keys().len() implies !bytes_before(
                        #[trigger] self.keys()[i],
                        key@,
                    ) by {
                        if i > middle && bytes_before(self.keys()[i], key@) {
                            assert(bytes_before(self.keys()[middle as int], self.keys()[i]));
                            lemma_bytes_before_transitive(at, self.keys()[i], key@);
                        }
                    }
                }
                high = middle;
            }
        }
        low
    }

    /// Looks a key up.
    pub fn get(&self, key: &[u8]) -> (value: Option<&V>)
        ensures
            value is Some == self@.contains_key(key@),
            value is Some ==> *value->0 == self@[key@],
    {
        let index: usize = self.lower_bound(key);
        proof {
            use_type_invariant(self);
            lemma_row_map(self.rows@);
        }
        if index < self.rows.len() && bytes_equal(self.rows[index].key.as_slice(), key) {
            return Some(&self.rows[index].value);
        }
        proof {
            if has_row(self.rows@, key@) {
                let k = row_index(self.rows@, key@);
                assert(self.keys()[k] == key@);
                lemma_bytes_before_irreflexive(key@);
                assert(k >= index);
                if k > index {
                    assert(bytes_before(self.keys()[index as int], self.keys()[k]));
                }
            }
        }
        None
    }

    /// Tells whether a key is present.
    pub fn contains_key(&self, key: &[u8]) -> (present: bool)
        ensures
            present == self@.contains_key(key@),
    {
        self.get(key).is_some()
    }

    /// Stores a value under a key, in place of the one that was there.
    pub fn insert(&mut self, key: Vec<u8>, value: V)
        ensures
            final(self)@ == old(self)@.insert(key@, value),
    {
        let index: usize = self.lower_bound(key.as_slice());
        proof {
            use_type_invariant(&*self);
        }
        let ghost before = self.rows@;
        let ghost new_key = key@;
        let mut rows: Vec<TableRow<V>> = Vec::new();
        std::mem::swap(&mut rows, &mut self.rows);
        let replace = index < rows.len() && bytes_equal(rows[index].key.as_slice(), key.as_slice());
        if replace {
            let row = TableRow { key, value };
            rows.set(index, row);
        } else {
            proof {
                if index < before.len() {
                    assert(row_keys(before)[index as int] == before[index as int].key@);
                    lemma_bytes_before_total(row_keys(before)[index as int], new_key);
                }
            }
            let row = TableRow { key, value };
            rows.insert(index, row);
        }
        proof {
            let after = rows@;
            let old_keys = row_keys(before);
            let new_keys = row_keys(after);
            let at = index as int;
            assert forall|i: int, j: int| 0 <= i < j < new_keys.len() implies bytes_before(
                #[trigger] new_keys[i],
                #[trigger] new_keys[j],
            ) by {
                let shift = if replace { 0int } else { 1int };
                let oi = if i <= at { i } else { i - shift };
                let oj = if j <= at { j } else { j - shift };
                if i == at {
                    assert(new_keys[i] == new_key);
                    if !replace {
                        assert(new_keys[j] == old_keys[j - 1]);
                        if j - 1 > at {
                            assert(bytes_before(old_keys[at], old_keys[j - 1]));
                            lemma_bytes_before_transitive(
                                new_key,
                                old_keys[at],
                                old_keys[j - 1],
                            );
                        }
                    } else {
                        assert(new_keys[j] == old_keys[j]);
                        assert(old_keys[at] == new_key);
                        assert(bytes_before(old_keys[at], old_keys[j]));
                    }
                } else if j == at {
                    assert(new_keys[j] == new_key);
                    assert(new_keys[i] == old_keys[i]);
                } else {
                    assert(new_keys[i] == old_keys[oi]);
                    assert(new_keys[j] == old_keys[oj]);
                    assert(bytes_before(old_keys[oi], old_keys[oj]));
                }
            }
            lemma_row_map(before);
            lemma_row_map(after);
            assert(after[at].key@ == new_key && after[at].value == value);
            assert(row_map(after) =~= row_map(before).insert(new_key, value)) by {
                assert forall|k: Seq<u8>|
                    row_map(after).contains_key(k) <==> row_map(before).insert(
                        new_key,
                        value,
                    ).contains_key(k) by {
                    if has_row(after, k) && k != new_key {
                        let i = row_index(after, k);
                        assert(after[i].key@ == k);
                        if i < at || replace {
                            assert(before[i].key@ == k);
                        } else {
                            assert(before[i - 1].key@ == k);
                        }
                    }
                    if has_row(before, k) && k != new_key {
                        let i = row_index(before, k);
                        assert(before[i].key@ == k);
                        if i < at || replace {
                            assert(after[i].key@ == k);
                        } else {
                            assert(after[i + 1].key@ == k);
                        }
                    }
                }
                assert forall|k: Seq<u8>| row_map(after).contains_key(k) implies row_map(after)[k]
                    == row_map(before).insert(new_key, value)[k] by {
                    if k != new_key {
                        let i = row_index(before, k);
                        assert(has_row(before, k));
                        assert(before[i].key@ == k);
                        if i < at || replace {
                            assert(after[i] == before[i]);
                        } else {
                            assert(after[i + 1] == before[i]);
                        }
                    }
                }
            }
        }
        self.rows = rows;
    }

    /// Removes a key and its value, where they are present.
    pub fn remove(&mut self, key: &[u8])
        ensures
            final(self)@ == old(self)@.remove(key@),
    {
        let index: usize = self.lower_bound(key);
        proof {
            use_type_invariant(&*self);
        }
        let ghost before = self.rows@;
        let mut rows: Vec<TableRow<V>> = Vec::new();
        std::mem::swap(&mut rows, &mut self.rows);
        let found = index < rows.len() && bytes_equal(rows[index].key.as_slice(), key);
        if found {
            rows.remove(index);
        }
        proof {
            let after = rows@;
            let old_keys = row_keys(before);
            let new_keys = row_keys(after);
            let at = index as int;
            lemma_row_map(before);
            assert forall|i: int, j: int| 0 <= i < j < new_keys.len() implies bytes_before(
                #[trigger] new_keys[i],
                #[trigger] new_keys[j],
            ) by {
                let oi = if found && i >= at { i + 1 } else { i };
                let oj = if found && j >= at { j + 1 } else { j };
                assert(new_keys[i] == old_keys[oi]);
                assert(new_keys[j] == old_keys[oj]);
                assert(bytes_before(old_keys[oi], old_keys[oj]));
            }
            lemma_row_map(after);
            if !found && has_row(before, key@) {
                let k = row_index(before, key@);
                assert(old_keys[k] == key@);
                lemma_bytes_before_irreflexive(key@);
                assert(k >= index);
                if k > index {
                    assert(bytes_before(old_keys[at], old_keys[k]));
                }
            }
            assert(row_map(after) =~= row_map(before).remove(key@)) by {
                assert forall|k: Seq<u8>|
                    row_map(after).contains_key(k) <==> row_map(before).remove(
                        key@,
                    ).contains_key(k) by {
                    if has_row(after, k) {
                        let i = row_index(after, k);
                        assert(after[i].key@ == k);
                        if found && i >= at {
                            assert(before[i + 1].key@ == k);
                        } else {
                            assert(before[i].key@ == k);
                        }
                    }
                    if has_row(before, k) && k != key@ {
                        let i = row_index(before, k);
                        assert(before[i].key@ == k);
                        if found && i > at {
                            assert(after[i - 1].key@ == k);
                        } else {
                            assert(after[i].key@ == k);
                        }
                    }
                }
                assert forall|k: Seq<u8>| row_map(after).contains_key(k) implies row_map(after)[k]
                    == row_map(before).remove(key@)[k] by {
                    let i = row_index(after, k);
                    assert(has_row(after, k));
                    assert(after[i].key@ == k);
                    if found && i >= at {
                        assert(before[i + 1] == after[i]);
                    } else {
                        assert(before[i] == after[i]);
                    }
                }
            }
        }
        self.rows = rows;
    }

    /// Removes every key that starts with a prefix.
    pub fn remove_prefix(&mut self, prefix: &[u8])
        ensures
            final(self)@ == old(self)@.remove_keys(with_prefix(prefix@)),
    {
        let ghost start = self@;
        let mut index: usize = self.lower_bound(prefix);
        while index < self.len() && starts_with(self.key_at(index), prefix)
            invariant
                index <= self.keys().len(),
                lists_keys(self.keys(), self@),
                forall|i: int| 0 <= i < index ==> bytes_before(#[trigger] self.keys()[i], prefix@),
                forall|i: int|
                    index <= i < self.keys().len() ==> !bytes_before(
                        #[trigger] self.keys()[i],
                        prefix@,
                    ),
                self@.submap_of(start),
                forall|key: Seq<u8>|
                    #[trigger] start.contains_key(key) && !has_prefix(key, prefix@)
                        ==> self@.contains_key(key),
            decreases self.keys().len(),
        {
            let key = crate::bytes::copy_bytes(self.key_at(index));
            let ghost keys_before = self.keys();
            let ghost map_before = self@;
            self.remove(key.as_slice());
            index = self.lower_bound(prefix);
            proof {
                lemma_fewer_keys(keys_before, map_before, self.keys(), self@, key@);
            }
        }
        proof {
            let keys = self.keys();
            assert forall|key: Seq<u8>| self@.contains_key(key) implies !has_prefix(
                key,
                prefix@,
            ) by {
                let i = choose|i: int| 0 <= i < keys.len() && keys[i] == key;
                assert(keys.contains(key));
                if has_prefix(key, prefix@) {
                    lemma_prefix_not_before(prefix@, key);
                    assert(i >= index);
                    if i > index {
                        assert(bytes_before(keys[index as int], keys[i]));
                        lemma_past_prefix(prefix@, keys[index as int], keys[i]);
                    }
                }
            }
            assert(self@ =~= start.remove_keys(with_prefix(prefix@)));
        }
    }
}

/// The byte strings that start with a prefix.
pub open spec fn with_prefix(prefix: Seq<u8>) -> Set<Seq<u8>> {
    Set::new(|key: Seq<u8>| has_prefix(key, prefix))
}

/// A byte string that starts with a prefix does not come before the prefix.
pub proof fn lemma_prefix_not_before(prefix: Seq<u8>, key: Seq<u8>)
    requires
        has_prefix(key, prefix),
    ensures
        !bytes_before(key, prefix),
{
    if bytes_before(key, prefix) {
        let i = choose|i: int| crate::bytes::before_at(key, prefix, i);
        assert(key.take(prefix.len() as int)[i] == prefix[i]);
    }
}

/// In key order, nothing that starts with a prefix follows a key past the prefix.
pub proof fn lemma_past_prefix(prefix: Seq<u8>, past: Seq<u8>, key: Seq<u8>)
    requires
        !bytes_before(past, prefix),
        !has_prefix(past, prefix),
        bytes_before(past, key),
    ensures
        !has_prefix(key, prefix),
{
    if has_prefix(key, prefix) {
        lemma_bytes_before_total(past, prefix);
        assert(past != prefix) by {
            assert(prefix.take(prefix.len() as int) =~= prefix);
        }
        let i = choose|i: int| crate::bytes::before_at(prefix, past, i);
        if i == prefix.len() {
            assert(prefix.take(i) =~= prefix);
            assert(has_prefix(past, prefix));
        } else {
            assert(key.take(prefix.len() as int)[i] == prefix[i]);
            assert(key.take(i) =~= key.take(prefix.len() as int).take(i));
            assert(crate::bytes::before_at(key, past, i));
            lemma_bytes_before_asymmetric(key, past);
        }
    }
}

/// Removing a key leaves fewer keys to list.
proof fn lemma_fewer_keys<V>(
    keys: Seq<Seq<u8>>,
    map: Map<Seq<u8>, V>,
    rest: Seq<Seq<u8>>,
    smaller: Map<Seq<u8>, V>,
    key: Seq<u8>,
)
    requires
        lists_keys(keys, map),
        lists_keys(rest, smaller),
        map.contains_key(key),
        smaller == map.remove(key),
    ensures
        rest.len() < keys.len(),
{
    lemma_sorted_no_duplicates(keys);
    lemma_sorted_no_duplicates(rest);
    keys.unique_seq_to_set();
    rest.unique_seq_to_set();
    assert(rest.to_set() =~= keys.to_set().remove(key)) by {
        assert forall|k: Seq<u8>| rest.to_set().contains(k) <==> keys.to_set().remove(
            key,
        ).contains(k) by {
            if rest.contains(k) {
                let i = choose|i: int| 0 <= i < rest.len() && rest[i] == k;
                assert(smaller.contains_key(rest[i]));
                assert(map.contains_key(k));
            }
            if keys.contains(k) {
                let i = choose|i: int| 0 <= i < keys.len() && keys[i] == k;
                assert(map.contains_key(keys[i]));
                assert(k != key ==> smaller.contains_key(k));
            }
        }
    }
    assert(keys.to_set().contains(key)) by {
        assert(keys.contains(key));
    }
}

/// Keys in strictly increasing order are determined by which keys there are.
pub proof fn lemma_sorted_unique(a: Seq<Seq<u8>>, b: Seq<Seq<u8>>)
    requires
        sorted_keys(a),
        sorted_keys(b),
        forall|key: Seq<u8>| a.contains(key) <==> b.contains(key),
    ensures
        a == b,
    decreases a.len(),
{
    if a.len() == 0 {
        if b.len() > 0 {
            assert(b.contains(b[0]));
        }
        assert(a =~= b);
    } else {
        assert(a.contains(a.last()));
        assert(b.len() > 0);
        assert(b.contains(b.last()));
        let last = a.len() - 1;
        let end = b.len() - 1;
        let i = choose|i: int| 0 <= i < b.len() && b[i] == a.last();
        let j = choose|j: int| 0 <= j < a.len() && a[j] == b.last();
        if i < end {
            assert(bytes_before(b[i], b[end]));
            if j < last {
                assert(bytes_before(a[j], a[last]));
                lemma_bytes_before_asymmetric(a[j], a[last]);
            } else {
                lemma_bytes_before_irreflexive(a[last]);
            }
        }
        assert(a.last() == b.last());
        assert forall|key: Seq<u8>| a.drop_last().contains(key) <==> b.drop_last().contains(
            key,
        ) by {
            if a.drop_last().contains(key) {
                let k = choose|k: int| 0 <= k < a.drop_last().len() && a.drop_last()[k] == key;
                assert(a[k] == key);
                assert(a.contains(key));
                let l = choose|l: int| 0 <= l < b.len() && b[l] == key;
                assert(bytes_before(a[k], a[last]));
                lemma_bytes_before_irreflexive(key);
                assert(b.drop_last()[l] == key);
            }
            if b.drop_last().contains(key) {
                let k = choose|k: int| 0 <= k < b.drop_last().len() && b.drop_last()[k] == key;
                assert(b[k] == key);
                assert(b.contains(key));
                let l = choose|l: int| 0 <= l < a.len() && a[l] == key;
                assert(bytes_before(b[k], b[end]));
                lemma_bytes_before_irreflexive(key);
                assert(a.drop_last()[l] == key);
            }
        }
        lemma_sorted_unique(a.drop_last(), b.drop_last());
        assert(a =~= a.drop_last().push(a.last()));
        assert(b =~= b.drop_last().push(b.last()));
    }
}

/// The keys of a map in increasing order.
pub open spec fn listed_keys<V>(map: Map<Seq<u8>, V>) -> Seq<Seq<u8>> {
    choose|keys: Seq<Seq<u8>>| lists_keys(keys, map)
}

/// Any increasing list of the keys of a map is the list of its keys.
pub proof fn lemma_listed_keys<V>(keys: Seq<Seq<u8>>, map: Map<Seq<u8>, V>)
    requires
        lists_keys(keys, map),
    ensures
        listed_keys(map) == keys,
{
    let other = listed_keys(map);
    assert(lists_keys(other, map));
    assert forall|key: Seq<u8>| keys.contains(key) <==> other.contains(key) by {
        if keys.contains(key) {
            let i = choose|i: int| 0 <= i < keys.len() && keys[i] == key;
            assert(map.contains_key(keys[i]));
        }
        if other.contains(key) {
            let i = choose|i: int| 0 <= i < other.len() && other[i] == key;
            assert(map.contains_key(other[i]));
        }
    }
    lemma_sorted_unique(keys, other);
}

/// Keys in strictly increasing order do not repeat.
pub proof fn lemma_sorted_no_duplicates(keys: Seq<Seq<u8>>)
    requires
        sorted_keys(keys),
    ensures
        keys.no_duplicates(),
{
    assert forall|i: int, j: int|
        0 <= i < keys.len() && 0 <= j < keys.len() && i != j implies keys[i] != keys[j] by {
        if i < j {
            assert(bytes_before(keys[i], keys[j]));
        } else {
            assert(bytes_before(keys[j], keys[i]));
        }
        lemma_bytes_before_irreflexive(keys[i]);
    }
}

} // verus!
