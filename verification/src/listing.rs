//! What listing a directory gives: every name in it once, in order, and from an offset on what is
//! left after as many entries.

use vstd::prelude::*;

use crate::changes::directory_of;
use crate::keys::named_key;
use crate::namespace::{lists_names, names_of, Namespace};
use crate::storage::{
    directory_listing, dot_entries, named_entries, place_after, EntryView,
    FUSE_DIRECTORY_ENTRY_FIRST_OFFSET,
};
use crate::table::sorted_keys;

verus! {

/// The entry of a directory at a place in name order.
pub open spec fn entry_at(namespace: Namespace, number: u64, index: int) -> EntryView {
    let name = names_of(namespace.entries, number)[index];
    let entry = namespace.entries[named_key(number, name)];
    EntryView {
        inode: entry.inode,
        offset: place_after(index, FUSE_DIRECTORY_ENTRY_FIRST_OFFSET + 1),
        kind: entry.kind,
        name,
    }
}

/// How many of the first names an offset leaves out; the dot entries count before them.
pub open spec fn left_out(offset: u64, count: nat) -> nat {
    if offset <= 2 {
        0
    } else if offset - 2 <= count {
        (offset - 2) as nat
    } else {
        count
    }
}

proof fn lemma_named_entries(namespace: Namespace, number: u64, offset: u64, count: nat)
    requires
        count + FUSE_DIRECTORY_ENTRY_FIRST_OFFSET <= u64::MAX,
    ensures
        named_entries(namespace, number, offset, count) == Seq::new(
            (count - left_out(offset, count)) as nat,
            |i: int| entry_at(namespace, number, left_out(offset, count) + i),
        ),
    decreases count,
{
    if count > 0 {
        let index = (count - 1) as nat;
        lemma_named_entries(namespace, number, offset, index);
        let front = named_entries(namespace, number, offset, index);
        let all = Seq::new(
            (count - left_out(offset, count)) as nat,
            |i: int| entry_at(namespace, number, left_out(offset, count) + i),
        );
        if index + FUSE_DIRECTORY_ENTRY_FIRST_OFFSET > offset {
            assert(left_out(offset, count) == left_out(offset, index));
            assert(all =~= front.push(entry_at(namespace, number, index as int)));
        } else {
            assert(left_out(offset, count) == count);
            assert(all =~= front);
        }
    }
}

/// The whole listing of a directory is the two dot entries and then every name in the directory, each
/// once, in increasing order, with the inode that it stands for.
pub proof fn lemma_listing_names_entries(namespace: Namespace, number: u64, name: Seq<u8>)
    requires
        directory_of(namespace, number) is Ok,
        lists_names(names_of(namespace.entries, number), namespace.entries, number),
        names_of(namespace.entries, number).len() + FUSE_DIRECTORY_ENTRY_FIRST_OFFSET <= u64::MAX,
    ensures
        ({
            let all = directory_listing(namespace, number, 0)->Ok_0;
            &&& directory_listing(namespace, number, 0) is Ok
            &&& all.len() == names_of(namespace.entries, number).len() + 2
            &&& all.take(2) == dot_entries(number, directory_of(namespace, number)->Ok_0, 0)
            &&& sorted_keys(all.skip(2).map_values(|entry: EntryView| entry.name))
            &&& namespace.entry(number, name) is Some <==> exists|i: int|
                2 <= i < all.len() && (#[trigger] all[i]).name == name
            &&& forall|i: int|
                2 <= i < all.len() && (#[trigger] all[i]).name == name ==> namespace.entry(
                    number,
                    name,
                ) is Some && all[i].inode == namespace.entry(number, name)->0.inode && all[i].kind
                    == namespace.entry(number, name)->0.kind
        }),
{
    let names = names_of(namespace.entries, number);
    let all = directory_listing(namespace, number, 0)->Ok_0;
    let dots = dot_entries(number, directory_of(namespace, number)->Ok_0, 0);
    lemma_named_entries(namespace, number, 0, names.len());
    assert(all.take(2) =~= dots);
    assert(all.skip(2).map_values(|entry: EntryView| entry.name) =~= names);
    assert forall|i: int| 2 <= i < all.len() implies #[trigger] all[i] == entry_at(
        namespace,
        number,
        i - 2,
    ) && namespace.entries.contains_key(named_key(number, names[i - 2])) by {
        assert(all[i] == entry_at(namespace, number, i - 2));
    }
    if namespace.entry(number, name) is Some {
        assert(namespace.entries.contains_key(named_key(number, name)));
        let at = choose|at: int| 0 <= at < names.len() && names[at] == name;
        assert(all[at + 2].name == name);
    }
}

/// A listing from an offset on is the whole listing without as many of its first entries.
pub proof fn lemma_listing_resumes(namespace: Namespace, number: u64, offset: u64)
    requires
        directory_of(namespace, number) is Ok,
        names_of(namespace.entries, number).len() + FUSE_DIRECTORY_ENTRY_FIRST_OFFSET <= u64::MAX,
    ensures
        ({
            let all = directory_listing(namespace, number, 0)->Ok_0;
            &&& directory_listing(namespace, number, offset) is Ok
            &&& directory_listing(namespace, number, offset)->Ok_0 == (if offset <= all.len() {
                all.skip(offset as int)
            } else {
                Seq::empty()
            })
        }),
{
    let count = names_of(namespace.entries, number).len();
    lemma_named_entries(namespace, number, 0, count);
    lemma_named_entries(namespace, number, offset, count);
    let all = directory_listing(namespace, number, 0)->Ok_0;
    let rest = directory_listing(namespace, number, offset)->Ok_0;
    let whole = named_entries(namespace, number, 0, count);
    let part = named_entries(namespace, number, offset, count);
    assert(part =~= whole.skip(left_out(offset, count) as int));
    if offset <= all.len() {
        assert(rest =~= all.skip(offset as int));
    } else {
        assert(rest =~= Seq::<EntryView>::empty());
    }
}

/// The single and the double dot carry the first two offsets, and each name behind them the number of
/// the entries before it and three more.
pub proof fn lemma_listing_offsets(namespace: Namespace, number: u64, i: int)
    requires
        directory_of(namespace, number) is Ok,
        names_of(namespace.entries, number).len() + 4 <= u64::MAX,
        0 <= i < directory_listing(namespace, number, 0)->Ok_0.len(),
    ensures
        ({
            let entry = directory_listing(namespace, number, 0)->Ok_0[i];
            &&& i < 2 ==> entry.offset == i + 1
            &&& i >= 2 ==> entry.offset == i + 2
        }),
{
    let names = names_of(namespace.entries, number);
    lemma_named_entries(namespace, number, 0, names.len());
    let all = directory_listing(namespace, number, 0)->Ok_0;
    if i >= 2 {
        assert(all[i] == entry_at(namespace, number, i - 2));
    }
}

} // verus!
