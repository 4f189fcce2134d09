//! The state of a branch: inodes, directory entries and extended attributes, and what an event
//! changes in it.

use vstd::prelude::*;

use crate::bytes::{bytes_before, copy_bytes, starts_with};
use crate::error::{Errno, FuseError};
use crate::inode::{
    text_from_bytes, InodeView, StoredDirectoryEntry, StoredInode, INODE_ROOT,
};
use crate::keys::{
    encode_namespace_inode_key, encode_namespace_pair_key, lemma_named_key_order,
    lemma_named_key_prefix, lemma_u64_key_injective, named_key, u64_key,
};
use crate::table::{
    lemma_past_prefix, lemma_prefix_not_before, lists_keys, sorted_keys, with_prefix, Table,
};

verus! {

/// An inode to store.
#[derive(Debug, PartialEq, Eq)]
pub struct StoredInodePut {
    /// Number of the inode.
    pub inode_number: u64,
    /// The inode.
    pub inode: StoredInode,
}

/// A directory entry to store.
#[derive(Debug, PartialEq, Eq)]
pub struct StoredDirectoryEntryPut {
    /// The directory.
    pub parent: u64,
    /// Name in the directory.
    pub name: Vec<u8>,
    /// The entry.
    pub entry: StoredDirectoryEntry,
}

/// A directory entry to delete.
#[derive(Debug, PartialEq, Eq)]
pub struct StoredDirectoryEntryDelete {
    /// The directory.
    pub parent: u64,
    /// Name in the directory.
    pub name: Vec<u8>,
}

/// An extended attribute to store.
#[derive(Debug, PartialEq, Eq)]
pub struct StoredExtendedAttributePut {
    /// The inode.
    pub inode_number: u64,
    /// Name of the attribute.
    pub name: Vec<u8>,
    /// Value of the attribute.
    pub value: Vec<u8>,
}

/// An extended attribute to delete.
#[derive(Debug, PartialEq, Eq)]
pub struct StoredExtendedAttributeDelete {
    /// The inode.
    pub inode_number: u64,
    /// Name of the attribute.
    pub name: Vec<u8>,
}

/// What an event changes in a branch.
#[derive(Debug, PartialEq, Eq)]
pub struct StoredMutation {
    /// Inodes to store.
    pub inode_puts: Vec<StoredInodePut>,
    /// Inodes to delete.
    pub inode_deletes: Vec<u64>,
    /// Directory entries to store.
    pub directory_entry_puts: Vec<StoredDirectoryEntryPut>,
    /// Directory entries to delete.
    pub directory_entry_deletes: Vec<StoredDirectoryEntryDelete>,
    /// Extended attributes to store.
    pub extended_attribute_puts: Vec<StoredExtendedAttributePut>,
    /// Extended attributes to delete.
    pub extended_attribute_deletes: Vec<StoredExtendedAttributeDelete>,
}

/// The value of a mutation. A directory entry is named by the directory and its name in it, an
/// extended attribute by the inode and its name.
#[verifier::ext_equal]
pub ghost struct MutationView {
    pub inode_puts: Seq<(u64, InodeView)>,
    pub inode_deletes: Seq<u64>,
    pub entry_puts: Seq<(u64, Seq<u8>, StoredDirectoryEntry)>,
    pub entry_deletes: Seq<(u64, Seq<u8>)>,
    pub attribute_puts: Seq<(u64, Seq<u8>, Seq<u8>)>,
    pub attribute_deletes: Seq<(u64, Seq<u8>)>,
}

impl View for StoredMutation {
    type V = MutationView;

    open spec fn view(&self) -> MutationView {
        MutationView {
            inode_puts: Seq::new(
                self.inode_puts@.len(),
                |i: int| (self.inode_puts@[i].inode_number, self.inode_puts@[i].inode@),
            ),
            inode_deletes: self.inode_deletes@,
            entry_puts: Seq::new(
                self.directory_entry_puts@.len(),
                |i: int|
                    (
                        self.directory_entry_puts@[i].parent,
                        self.directory_entry_puts@[i].name@,
                        self.directory_entry_puts@[i].entry,
                    ),
            ),
            entry_deletes: Seq::new(
                self.directory_entry_deletes@.len(),
                |i: int|
                    (
                        self.directory_entry_deletes@[i].parent,
                        self.directory_entry_deletes@[i].name@,
                    ),
            ),
            attribute_puts: Seq::new(
                self.extended_attribute_puts@.len(),
                |i: int|
                    (
                        self.extended_attribute_puts@[i].inode_number,
                        self.extended_attribute_puts@[i].name@,
                        self.extended_attribute_puts@[i].value@,
                    ),
            ),
            attribute_deletes: Seq::new(
                self.extended_attribute_deletes@.len(),
                |i: int|
                    (
                        self.extended_attribute_deletes@[i].inode_number,
                        self.extended_attribute_deletes@[i].name@,
                    ),
            ),
        }
    }
}

impl MutationView {
    /// The mutation that changes nothing.
    pub open spec fn nothing() -> MutationView {
        MutationView {
            inode_puts: Seq::empty(),
            inode_deletes: Seq::empty(),
            entry_puts: Seq::empty(),
            entry_deletes: Seq::empty(),
            attribute_puts: Seq::empty(),
            attribute_deletes: Seq::empty(),
        }
    }

    /// The mutation with one more inode to store.
    pub open spec fn with_inode(self, number: u64, inode: InodeView) -> MutationView {
        MutationView { inode_puts: self.inode_puts.push((number, inode)), ..self }
    }

    /// The mutation with one more inode to delete.
    pub open spec fn without_inode(self, number: u64) -> MutationView {
        MutationView { inode_deletes: self.inode_deletes.push(number), ..self }
    }

    /// The mutation with one more directory entry to store.
    pub open spec fn with_entry(
        self,
        parent: u64,
        name: Seq<u8>,
        entry: StoredDirectoryEntry,
    ) -> MutationView {
        MutationView { entry_puts: self.entry_puts.push((parent, name, entry)), ..self }
    }

    /// The mutation with one more directory entry to delete.
    pub open spec fn without_entry(self, parent: u64, name: Seq<u8>) -> MutationView {
        MutationView { entry_deletes: self.entry_deletes.push((parent, name)), ..self }
    }

    /// The mutation with one more extended attribute to store.
    pub open spec fn with_attribute(
        self,
        number: u64,
        name: Seq<u8>,
        value: Seq<u8>,
    ) -> MutationView {
        MutationView { attribute_puts: self.attribute_puts.push((number, name, value)), ..self }
    }

    /// The mutation with one more extended attribute to delete.
    pub open spec fn without_attribute(self, number: u64, name: Seq<u8>) -> MutationView {
        MutationView { attribute_deletes: self.attribute_deletes.push((number, name)), ..self }
    }
}

impl Default for StoredMutation {
    fn default() -> (mutation: Self)
        ensures
            mutation@ == MutationView::nothing(),
    {
        let mutation = StoredMutation {
            inode_puts: Vec::new(),
            inode_deletes: Vec::new(),
            directory_entry_puts: Vec::new(),
            directory_entry_deletes: Vec::new(),
            extended_attribute_puts: Vec::new(),
            extended_attribute_deletes: Vec::new(),
        };
        proof {
            assert(mutation@ =~= MutationView::nothing());
        }
        mutation
    }
}

impl Clone for StoredInodePut {
    fn clone(&self) -> (put: Self)
        ensures
            put.inode_number == self.inode_number,
            put.inode@ == self.inode@,
    {
        StoredInodePut { inode_number: self.inode_number, inode: self.inode.clone() }
    }
}

impl Clone for StoredMutation {
    fn clone(&self) -> (mutation: Self)
        ensures
            mutation@ == self@,
    {
        let mut mutation = StoredMutation::default();
        let ghost all = self@;
        let mut i: usize = 0;
        while i < self.inode_puts.len()
            invariant
                i <= self.inode_puts@.len(),
                all == self@,
                mutation@ == (MutationView {
                    inode_puts: all.inode_puts.take(i as int),
                    ..MutationView::nothing()
                }),
            decreases self.inode_puts@.len() - i,
        {
            mutation.put_inode(self.inode_puts[i].inode_number, &self.inode_puts[i].inode);
            i = i + 1;
            proof {
                assert(all.inode_puts.take(i as int) =~= all.inode_puts.take(i - 1).push(
                    all.inode_puts[i - 1],
                ));
            }
        }
        proof {
            assert(all.inode_puts.take(i as int) =~= all.inode_puts);
        }
        i = 0;
        while i < self.inode_deletes.len()
            invariant
                i <= self.inode_deletes@.len(),
                all == self@,
                mutation@ == (MutationView {
                    inode_puts: all.inode_puts,
                    inode_deletes: all.inode_deletes.take(i as int),
                    ..MutationView::nothing()
                }),
            decreases self.inode_deletes@.len() - i,
        {
            mutation.delete_inode(self.inode_deletes[i]);
            i = i + 1;
            proof {
                assert(all.inode_deletes.take(i as int) =~= all.inode_deletes.take(i - 1).push(
                    all.inode_deletes[i - 1],
                ));
            }
        }
        proof {
            assert(all.inode_deletes.take(i as int) =~= all.inode_deletes);
        }
        i = 0;
        while i < self.directory_entry_puts.len()
            invariant
                i <= self.directory_entry_puts@.len(),
                all == self@,
                mutation@ == (MutationView {
                    inode_puts: all.inode_puts,
                    inode_deletes: all.inode_deletes,
                    entry_puts: all.entry_puts.take(i as int),
                    ..MutationView::nothing()
                }),
            decreases self.directory_entry_puts@.len() - i,
        {
            let put = &self.directory_entry_puts[i];
            mutation.put_directory_entry(put.parent, put.name.as_slice(), &put.entry);
            i = i + 1;
            proof {
                assert(all.entry_puts.take(i as int) =~= all.entry_puts.take(i - 1).push(
                    all.entry_puts[i - 1],
                ));
            }
        }
        proof {
            assert(all.entry_puts.take(i as int) =~= all.entry_puts);
        }
        i = 0;
        while i < self.directory_entry_deletes.len()
            invariant
                i <= self.directory_entry_deletes@.len(),
                all == self@,
                mutation@ == (MutationView {
                    inode_puts: all.inode_puts,
                    inode_deletes: all.inode_deletes,
                    entry_puts: all.entry_puts,
                    entry_deletes: all.entry_deletes.take(i as int),
                    ..MutationView::nothing()
                }),
            decreases self.directory_entry_deletes@.len() - i,
        {
            let delete = &self.directory_entry_deletes[i];
            mutation.delete_directory_entry(delete.parent, delete.name.as_slice());
            i = i + 1;
            proof {
                assert(all.entry_deletes.take(i as int) =~= all.entry_deletes.take(i - 1).push(
                    all.entry_deletes[i - 1],
                ));
            }
        }
        proof {
            assert(all.entry_deletes.take(i as int) =~= all.entry_deletes);
        }
        i = 0;
        while i < self.extended_attribute_puts.len()
            invariant
                i <= self.extended_attribute_puts@.len(),
                all == self@,
                mutation@ == (MutationView {
                    attribute_puts: all.attribute_puts.take(i as int),
                    attribute_deletes: Seq::empty(),
                    ..all
                }),
            decreases self.extended_attribute_puts@.len() - i,
        {
            let put = &self.extended_attribute_puts[i];
            mutation.put_extended_attribute(
                put.inode_number,
                put.name.as_slice(),
                put.value.as_slice(),
            );
            i = i + 1;
            proof {
                assert(all.attribute_puts.take(i as int) =~= all.attribute_puts.take(i - 1).push(
                    all.attribute_puts[i - 1],
                ));
            }
        }
        proof {
            assert(all.attribute_puts.take(i as int) =~= all.attribute_puts);
        }
        i = 0;
        while i < self.extended_attribute_deletes.len()
            invariant
                i <= self.extended_attribute_deletes@.len(),
                all == self@,
                mutation@ == (MutationView {
                    attribute_deletes: all.attribute_deletes.take(i as int),
                    ..all
                }),
            decreases self.extended_attribute_deletes@.len() - i,
        {
            let delete = &self.extended_attribute_deletes[i];
            mutation.delete_extended_attribute(delete.inode_number, delete.name.as_slice());
            i = i + 1;
            proof {
                assert(all.attribute_deletes.take(i as int) =~= all.attribute_deletes.take(
                    i - 1,
                ).push(all.attribute_deletes[i - 1]));
            }
        }
        proof {
            assert(all.attribute_deletes.take(i as int) =~= all.attribute_deletes);
        }
        mutation
    }
}

impl StoredMutation {
    /// Adds an inode to store.
    pub fn put_inode(&mut self, inode_number: u64, inode: &StoredInode)
        ensures
            final(self)@ == old(self)@.with_inode(inode_number, inode@),
    {
        self.inode_puts.push(StoredInodePut { inode_number, inode: inode.clone() });
        proof {
            assert(self@ =~= old(self)@.with_inode(inode_number, inode@));
        }
    }

    /// Adds an inode to delete.
    pub fn delete_inode(&mut self, inode_number: u64)
        ensures
            final(self)@ == old(self)@.without_inode(inode_number),
    {
        self.inode_deletes.push(inode_number);
        proof {
            assert(self@ =~= old(self)@.without_inode(inode_number));
        }
    }

    /// Adds a directory entry to store.
    pub fn put_directory_entry(&mut self, parent: u64, name: &[u8], entry: &StoredDirectoryEntry)
        ensures
            final(self)@ == old(self)@.with_entry(parent, name@, *entry),
    {
        self.directory_entry_puts.push(
            StoredDirectoryEntryPut { parent, name: copy_bytes(name), entry: *entry },
        );
        proof {
            assert(self@ =~= old(self)@.with_entry(parent, name@, *entry));
        }
    }

    /// Adds a directory entry to delete.
    pub fn delete_directory_entry(&mut self, parent: u64, name: &[u8])
        ensures
            final(self)@ == old(self)@.without_entry(parent, name@),
    {
        self.directory_entry_deletes.push(
            StoredDirectoryEntryDelete { parent, name: copy_bytes(name) },
        );
        proof {
            assert(self@ =~= old(self)@.without_entry(parent, name@));
        }
    }

    /// Adds an extended attribute to store.
    pub fn put_extended_attribute(&mut self, inode_number: u64, name: &[u8], value: &[u8])
        ensures
            final(self)@ == old(self)@.with_attribute(inode_number, name@, value@),
    {
        self.extended_attribute_puts.push(
            StoredExtendedAttributePut {
                inode_number,
                name: copy_bytes(name),
                value: copy_bytes(value),
            },
        );
        proof {
            assert(self@ =~= old(self)@.with_attribute(inode_number, name@, value@));
        }
    }

    /// Adds an extended attribute to delete.
    pub fn delete_extended_attribute(&mut self, inode_number: u64, name: &[u8])
        ensures
            final(self)@ == old(self)@.without_attribute(inode_number, name@),
    {
        self.extended_attribute_deletes.push(
            StoredExtendedAttributeDelete { inode_number, name: copy_bytes(name) },
        );
        proof {
            assert(self@ =~= old(self)@.without_attribute(inode_number, name@));
        }
    }
}

/// The state of a branch.
#[derive(Debug, PartialEq, Eq)]
pub struct MaterializedBranchState {
    /// Inodes, under the keys of their numbers.
    pub inodes: Table<StoredInode>,
    /// Directory entries, under the keys of their directory and name.
    pub directory_entries: Table<StoredDirectoryEntry>,
    /// Extended attributes, under the keys of their inode and name.
    pub extended_attributes: Table<Vec<u8>>,
}

/// The value of a branch state, under the same keys.
#[verifier::ext_equal]
pub ghost struct Namespace {
    pub inodes: Map<Seq<u8>, InodeView>,
    pub entries: Map<Seq<u8>, StoredDirectoryEntry>,
    pub attributes: Map<Seq<u8>, Seq<u8>>,
}

/// The values of inodes.
pub open spec fn inode_views(inodes: Map<Seq<u8>, StoredInode>) -> Map<Seq<u8>, InodeView> {
    inodes.map_values(|inode: StoredInode| inode@)
}

impl View for MaterializedBranchState {
    type V = Namespace;

    open spec fn view(&self) -> Namespace {
        Namespace {
            inodes: inode_views(self.inodes@),
            entries: self.directory_entries@,
            attributes: crate::hash::blobs(self.extended_attributes@),
        }
    }
}

/// Removes inodes, one after the other.
pub open spec fn remove_inodes(
    inodes: Map<Seq<u8>, InodeView>,
    deletes: Seq<u64>,
) -> Map<Seq<u8>, InodeView>
    decreases deletes.len(),
{
    if deletes.len() == 0 {
        inodes
    } else {
        remove_inodes(inodes, deletes.drop_last()).remove(u64_key(deletes.last()))
    }
}

/// Removes all extended attributes of inodes.
pub open spec fn remove_attributes_of(
    attributes: Map<Seq<u8>, Seq<u8>>,
    deletes: Seq<u64>,
) -> Map<Seq<u8>, Seq<u8>>
    decreases deletes.len(),
{
    if deletes.len() == 0 {
        attributes
    } else {
        remove_attributes_of(attributes, deletes.drop_last()).remove_keys(
            with_prefix(u64_key(deletes.last())),
        )
    }
}

/// Removes what numbers and names stand for.
pub open spec fn remove_named<V>(
    map: Map<Seq<u8>, V>,
    deletes: Seq<(u64, Seq<u8>)>,
) -> Map<Seq<u8>, V>
    decreases deletes.len(),
{
    if deletes.len() == 0 {
        map
    } else {
        remove_named(map, deletes.drop_last()).remove(
            named_key(deletes.last().0, deletes.last().1),
        )
    }
}

/// Stores inodes, one after the other.
pub open spec fn put_inodes(
    inodes: Map<Seq<u8>, InodeView>,
    puts: Seq<(u64, InodeView)>,
) -> Map<Seq<u8>, InodeView>
    decreases puts.len(),
{
    if puts.len() == 0 {
        inodes
    } else {
        put_inodes(inodes, puts.drop_last()).insert(u64_key(puts.last().0), puts.last().1)
    }
}

/// Stores values under numbers and names.
pub open spec fn put_named<V>(
    map: Map<Seq<u8>, V>,
    puts: Seq<(u64, Seq<u8>, V)>,
) -> Map<Seq<u8>, V>
    decreases puts.len(),
{
    if puts.len() == 0 {
        map
    } else {
        put_named(map, puts.drop_last()).insert(
            named_key(puts.last().0, puts.last().1),
            puts.last().2,
        )
    }
}

impl Namespace {
    /// The state without anything.
    pub open spec fn nothing() -> Namespace {
        Namespace { inodes: Map::empty(), entries: Map::empty(), attributes: Map::empty() }
    }

    /// The inode with a number.
    pub open spec fn inode(self, number: u64) -> Option<InodeView> {
        if self.inodes.contains_key(u64_key(number)) {
            Some(self.inodes[u64_key(number)])
        } else {
            None
        }
    }

    /// The entry of a directory with a name.
    pub open spec fn entry(self, parent: u64, name: Seq<u8>) -> Option<StoredDirectoryEntry> {
        if self.entries.contains_key(named_key(parent, name)) {
            Some(self.entries[named_key(parent, name)])
        } else {
            None
        }
    }

    /// The extended attribute of an inode with a name.
    pub open spec fn attribute(self, number: u64, name: Seq<u8>) -> Option<Seq<u8>> {
        if self.attributes.contains_key(named_key(number, name)) {
            Some(self.attributes[named_key(number, name)])
        } else {
            None
        }
    }

    /// A directory has no entries.
    pub open spec fn empty_directory(self, number: u64) -> bool {
        forall|name: Seq<u8>| !self.entries.contains_key(#[trigger] named_key(number, name))
    }

    /// The state after a mutation: deletions first, then what is stored.
    pub open spec fn after(self, mutation: MutationView) -> Namespace {
        Namespace {
            inodes: put_inodes(
                remove_inodes(self.inodes, mutation.inode_deletes),
                mutation.inode_puts,
            ),
            entries: put_named(
                remove_named(self.entries, mutation.entry_deletes),
                mutation.entry_puts,
            ),
            attributes: put_named(
                remove_named(
                    remove_attributes_of(self.attributes, mutation.inode_deletes),
                    mutation.attribute_deletes,
                ),
                mutation.attribute_puts,
            ),
        }
    }
}

proof fn lemma_inode_views_insert(
    inodes: Map<Seq<u8>, StoredInode>,
    key: Seq<u8>,
    inode: StoredInode,
)
    ensures
        inode_views(inodes.insert(key, inode)) == inode_views(inodes).insert(key, inode@),
        inode_views(inodes.remove(key)) == inode_views(inodes).remove(key),
{
    assert(inode_views(inodes.insert(key, inode)) =~= inode_views(inodes).insert(key, inode@));
    assert(inode_views(inodes.remove(key)) =~= inode_views(inodes).remove(key));
}

proof fn lemma_blobs_insert(map: Map<Seq<u8>, Vec<u8>>, key: Seq<u8>, value: Vec<u8>)
    ensures
        crate::hash::blobs(map.insert(key, value)) == crate::hash::blobs(map).insert(key, value@),
        crate::hash::blobs(map.remove(key)) == crate::hash::blobs(map).remove(key),
{
    assert(crate::hash::blobs(map.insert(key, value)) =~= crate::hash::blobs(map).insert(
        key,
        value@,
    ));
    assert(crate::hash::blobs(map.remove(key)) =~= crate::hash::blobs(map).remove(key));
}

impl MaterializedBranchState {
    /// Creates the state without anything.
    pub fn new() -> (state: Self)
        ensures
            state@ == Namespace::nothing(),
    {
        let state = MaterializedBranchState {
            inodes: Table::new(),
            directory_entries: Table::new(),
            extended_attributes: Table::new(),
        };
        proof {
            assert(state@ =~= Namespace::nothing());
        }
        state
    }

    /// Returns an inode.
    pub fn inode(&self, inode_number: u64) -> (inode: Option<&StoredInode>)
        ensures
            match inode {
                Some(inode) => self@.inode(inode_number) == Some(inode@),
                None => self@.inode(inode_number) is None,
            },
    {
        let key = encode_namespace_inode_key(inode_number);
        self.inodes.get(key.as_slice())
    }

    /// Returns a directory entry.
    pub fn directory_entry(&self, parent: u64, name: &[u8]) -> (entry: Option<StoredDirectoryEntry>)
        ensures
            entry == self@.entry(parent, name@),
    {
        let key = encode_namespace_pair_key(parent, name);
        match self.directory_entries.get(key.as_slice()) {
            Some(entry) => Some(*entry),
            None => None,
        }
    }

    /// Returns the value of an extended attribute.
    pub fn extended_attribute(&self, inode_number: u64, name: &[u8]) -> (value: Option<&Vec<u8>>)
        ensures
            match value {
                Some(value) => self@.attribute(inode_number, name@) == Some(value@),
                None => self@.attribute(inode_number, name@) is None,
            },
    {
        let key = encode_namespace_pair_key(inode_number, name);
        self.extended_attributes.get(key.as_slice())
    }

    /// Applies a mutation.
    pub fn apply(&mut self, mutation: &StoredMutation)
        ensures
            final(self)@ == old(self)@.after(mutation@),
    {
        let ghost start = self@;
        let ghost view = mutation@;
        let mut i: usize = 0;
        proof {
            assert(view.inode_deletes.take(0) =~= Seq::<u64>::empty());
        }
        while i < mutation.inode_deletes.len()
            invariant
                i <= mutation.inode_deletes@.len(),
                view == mutation@,
                self@.inodes == remove_inodes(start.inodes, view.inode_deletes.take(i as int)),
                self@.entries == start.entries,
                self@.attributes == remove_attributes_of(
                    start.attributes,
                    view.inode_deletes.take(i as int),
                ),
            decreases mutation.inode_deletes@.len() - i,
        {
            let key = encode_namespace_inode_key(mutation.inode_deletes[i]);
            proof {
                let front = view.inode_deletes.take(i + 1);
                assert(front.drop_last() =~= view.inode_deletes.take(i as int));
                assert(front.last() == mutation.inode_deletes@[i as int]);
                lemma_inode_views_insert(self.inodes@, key@, arbitrary());
                assert(crate::hash::blobs(
                    self.extended_attributes@.remove_keys(with_prefix(key@)),
                ) =~= crate::hash::blobs(self.extended_attributes@).remove_keys(
                    with_prefix(key@),
                ));
            }
            self.inodes.remove(key.as_slice());
            self.extended_attributes.remove_prefix(key.as_slice());
            i = i + 1;
        }
        let ghost removed = view.inode_deletes;
        proof {
            assert(view.inode_deletes.take(i as int) =~= removed);
            assert(view.entry_deletes.take(0) =~= Seq::<(u64, Seq<u8>)>::empty());
        }
        i = 0;
        while i < mutation.directory_entry_deletes.len()
            invariant
                i <= mutation.directory_entry_deletes@.len(),
                view == mutation@,
                self@.inodes == remove_inodes(start.inodes, view.inode_deletes),
                self@.entries == remove_named(start.entries, view.entry_deletes.take(i as int)),
                self@.attributes == remove_attributes_of(start.attributes, view.inode_deletes),
            decreases mutation.directory_entry_deletes@.len() - i,
        {
            let delete = &mutation.directory_entry_deletes[i];
            let key = encode_namespace_pair_key(delete.parent, delete.name.as_slice());
            proof {
                let front = view.entry_deletes.take(i + 1);
                assert(front.drop_last() =~= view.entry_deletes.take(i as int));
                assert(front.last() == (delete.parent, delete.name@));
            }
            self.directory_entries.remove(key.as_slice());
            i = i + 1;
        }
        proof {
            assert(view.entry_deletes.take(i as int) =~= view.entry_deletes);
            assert(view.attribute_deletes.take(0) =~= Seq::<(u64, Seq<u8>)>::empty());
        }
        i = 0;
        while i < mutation.extended_attribute_deletes.len()
            invariant
                i <= mutation.extended_attribute_deletes@.len(),
                view == mutation@,
                self@.inodes == remove_inodes(start.inodes, view.inode_deletes),
                self@.entries == remove_named(start.entries, view.entry_deletes),
                self@.attributes == remove_named(
                    remove_attributes_of(start.attributes, view.inode_deletes),
                    view.attribute_deletes.take(i as int),
                ),
            decreases mutation.extended_attribute_deletes@.len() - i,
        {
            let delete = &mutation.extended_attribute_deletes[i];
            let key = encode_namespace_pair_key(delete.inode_number, delete.name.as_slice());
            proof {
                let front = view.attribute_deletes.take(i + 1);
                assert(front.drop_last() =~= view.attribute_deletes.take(i as int));
                assert(front.last() == (delete.inode_number, delete.name@));
                lemma_blobs_insert(self.extended_attributes@, key@, arbitrary());
            }
            self.extended_attributes.remove(key.as_slice());
            i = i + 1;
        }
        let ghost kept = remove_named(
            remove_attributes_of(start.attributes, view.inode_deletes),
            view.attribute_deletes,
        );
        proof {
            assert(view.attribute_deletes.take(i as int) =~= view.attribute_deletes);
            assert(view.inode_puts.take(0) =~= Seq::<(u64, InodeView)>::empty());
        }
        i = 0;
        while i < mutation.inode_puts.len()
            invariant
                i <= mutation.inode_puts@.len(),
                view == mutation@,
                self@.inodes == put_inodes(
                    remove_inodes(start.inodes, view.inode_deletes),
                    view.inode_puts.take(i as int),
                ),
                self@.entries == remove_named(start.entries, view.entry_deletes),
                self@.attributes == kept,
            decreases mutation.inode_puts@.len() - i,
        {
            let put = &mutation.inode_puts[i];
            let key = encode_namespace_inode_key(put.inode_number);
            let inode = put.inode.clone();
            proof {
                let front = view.inode_puts.take(i + 1);
                assert(front.drop_last() =~= view.inode_puts.take(i as int));
                assert(front.last() == (put.inode_number, put.inode@));
                lemma_inode_views_insert(self.inodes@, key@, inode);
            }
            self.inodes.insert(key, inode);
            i = i + 1;
        }
        proof {
            assert(view.inode_puts.take(i as int) =~= view.inode_puts);
            assert(view.entry_puts.take(0) =~= Seq::<(u64, Seq<u8>, StoredDirectoryEntry)>::empty());
        }
        i = 0;
        while i < mutation.directory_entry_puts.len()
            invariant
                i <= mutation.directory_entry_puts@.len(),
                view == mutation@,
                self@.inodes == put_inodes(
                    remove_inodes(start.inodes, view.inode_deletes),
                    view.inode_puts,
                ),
                self@.entries == put_named(
                    remove_named(start.entries, view.entry_deletes),
                    view.entry_puts.take(i as int),
                ),
                self@.attributes == kept,
            decreases mutation.directory_entry_puts@.len() - i,
        {
            let put = &mutation.directory_entry_puts[i];
            let key = encode_namespace_pair_key(put.parent, put.name.as_slice());
            proof {
                let front = view.entry_puts.take(i + 1);
                assert(front.drop_last() =~= view.entry_puts.take(i as int));
                assert(front.last() == (put.parent, put.name@, put.entry));
            }
            self.directory_entries.insert(key, put.entry);
            i = i + 1;
        }
        proof {
            assert(view.entry_puts.take(i as int) =~= view.entry_puts);
            assert(view.attribute_puts.take(0) =~= Seq::<(u64, Seq<u8>, Seq<u8>)>::empty());
        }
        i = 0;
        while i < mutation.extended_attribute_puts.len()
            invariant
                i <= mutation.extended_attribute_puts@.len(),
                view == mutation@,
                self@.inodes == put_inodes(
                    remove_inodes(start.inodes, view.inode_deletes),
                    view.inode_puts,
                ),
                self@.entries == put_named(
                    remove_named(start.entries, view.entry_deletes),
                    view.entry_puts,
                ),
                self@.attributes == put_named(kept, view.attribute_puts.take(i as int)),
            decreases mutation.extended_attribute_puts@.len() - i,
        {
            let put = &mutation.extended_attribute_puts[i];
            let key = encode_namespace_pair_key(put.inode_number, put.name.as_slice());
            let value = copy_bytes(put.value.as_slice());
            proof {
                let front = view.attribute_puts.take(i + 1);
                assert(front.drop_last() =~= view.attribute_puts.take(i as int));
                assert(front.last() == (put.inode_number, put.name@, put.value@));
                lemma_blobs_insert(self.extended_attributes@, key@, value);
            }
            self.extended_attributes.insert(key, value);
            i = i + 1;
        }
        proof {
            assert(view.attribute_puts.take(i as int) =~= view.attribute_puts);
        }
    }
}

/// The names below a number, in increasing order.
pub open spec fn lists_names<V>(names: Seq<Seq<u8>>, map: Map<Seq<u8>, V>, number: u64) -> bool {
    &&& sorted_keys(names)
    &&& forall|i: int|
        0 <= i < names.len() ==> map.contains_key(named_key(number, #[trigger] names[i]))
    &&& forall|name: Seq<u8>|
        map.contains_key(#[trigger] named_key(number, name)) ==> names.contains(name)
}

/// The list of the names below a number.
pub open spec fn names_of<V>(map: Map<Seq<u8>, V>, number: u64) -> Seq<Seq<u8>> {
    choose|names: Seq<Seq<u8>>| lists_names(names, map, number)
}

/// Any increasing list of the names below a number is the list of those names.
pub proof fn lemma_names_of<V>(names: Seq<Seq<u8>>, map: Map<Seq<u8>, V>, number: u64)
    requires
        lists_names(names, map, number),
    ensures
        names_of(map, number) == names,
{
    let other = names_of(map, number);
    assert(lists_names(other, map, number));
    assert forall|name: Seq<u8>| names.contains(name) <==> other.contains(name) by {
        if names.contains(name) {
            let i = choose|i: int| 0 <= i < names.len() && names[i] == name;
            assert(map.contains_key(named_key(number, names[i])));
        }
        if other.contains(name) {
            let i = choose|i: int| 0 <= i < other.len() && other[i] == name;
            assert(map.contains_key(named_key(number, other[i])));
        }
    }
    crate::table::lemma_sorted_unique(names, other);
}

/// The contents of byte strings.
pub open spec fn byte_views(items: Seq<Vec<u8>>) -> Seq<Seq<u8>> {
    Seq::new(items.len(), |i: int| items[i]@)
}

/// Returns the names below a number in increasing order.
pub fn names_below<V>(table: &Table<V>, number: u64) -> (names: Vec<Vec<u8>>)
    ensures
        lists_names(byte_views(names@), table@, number),
        byte_views(names@) == names_of(table@, number),
{
    let prefix = encode_namespace_inode_key(number);
    let first: usize = table.lower_bound(prefix.as_slice());
    let total: usize = table.len();
    let ghost keys = table.keys();
    let mut names: Vec<Vec<u8>> = Vec::new();
    let mut index: usize = first;
    while index < total && starts_with(table.key_at(index), prefix.as_slice())
        invariant
            first <= index <= total,
            total == keys.len(),
            keys == table.keys(),
            lists_keys(keys, table@),
            prefix@ == u64_key(number),
            names@.len() == index - first,
            forall|i: int| 0 <= i < first ==> bytes_before(#[trigger] keys[i], prefix@),
            forall|i: int| first <= i < keys.len() ==> !bytes_before(#[trigger] keys[i], prefix@),
            forall|i: int|
                0 <= i < names@.len() ==> keys[first + i] == named_key(
                    number,
                    (#[trigger] names@[i])@,
                ),
        decreases total - index,
    {
        let key = table.key_at(index);
        let name = vstd::slice::slice_subrange(key, 8, key.len());
        proof {
            lemma_named_key_prefix(number, key@);
            assert(name@ =~= key@.skip(8));
        }
        names.push(copy_bytes(name));
        index = index + 1;
    }
    proof {
        let views = byte_views(names@);
        assert forall|i: int, j: int| 0 <= i < j < views.len() implies bytes_before(
            #[trigger] views[i],
            #[trigger] views[j],
        ) by {
            assert(bytes_before(keys[first + i], keys[first + j]));
            assert(keys[first + i] == named_key(number, names@[i]@));
            assert(keys[first + j] == named_key(number, names@[j]@));
            lemma_named_key_order(number, views[i], number, views[j]);
        }
        assert forall|i: int| 0 <= i < views.len() implies table@.contains_key(
            named_key(number, #[trigger] views[i]),
        ) by {
            assert(keys[first + i] == named_key(number, names@[i]@));
            assert(table@.contains_key(keys[first + i]));
        }
        assert forall|name: Seq<u8>| table@.contains_key(
            #[trigger] named_key(number, name),
        ) implies views.contains(name) by {
            let key = named_key(number, name);
            assert(keys.contains(key));
            let k = choose|k: int| 0 <= k < keys.len() && keys[k] == key;
            assert(key.take(8) =~= prefix@);
            lemma_prefix_not_before(prefix@, key);
            assert(k >= first);
            if k >= index {
                if k > index {
                    assert(bytes_before(keys[index as int], keys[k]));
                    lemma_past_prefix(prefix@, keys[index as int], key);
                }
            } else {
                let i = k - first;
                assert(keys[first + i] == named_key(number, names@[i]@));
                lemma_named_key_order(number, name, number, names@[i]@);
                assert(views[i] == name);
            }
        }
        lemma_names_of(views, table@, number);
    }
    names
}

/// What a mutation makes of an inode: nothing where it is deleted, else what was stored last, else
/// what it was.
pub open spec fn inode_after(
    namespace: Namespace,
    mutation: MutationView,
    number: u64,
) -> Option<InodeView> {
    if mutation.inode_deletes.contains(number) {
        None
    } else {
        match last_put(mutation.inode_puts, number) {
            Some(inode) => Some(inode),
            None => namespace.inode(number),
        }
    }
}

/// The last inode stored under a number.
pub open spec fn last_put(puts: Seq<(u64, InodeView)>, number: u64) -> Option<InodeView>
    decreases puts.len(),
{
    if puts.len() == 0 {
        None
    } else if puts.last().0 == number {
        Some(puts.last().1)
    } else {
        last_put(puts.drop_last(), number)
    }
}

/// Returns what a mutation makes of an inode.
pub fn namespace_inode_after_mutation<'a>(
    namespace: &'a MaterializedBranchState,
    mutation: &'a StoredMutation,
    inode_number: u64,
) -> (inode: Option<&'a StoredInode>)
    ensures
        match inode {
            Some(inode) => inode_after(namespace@, mutation@, inode_number) == Some(inode@),
            None => inode_after(namespace@, mutation@, inode_number) is None,
        },
{
    let ghost view = mutation@;
    let mut i: usize = 0;
    while i < mutation.inode_deletes.len()
        invariant
            i <= mutation.inode_deletes@.len(),
            view == mutation@,
            forall|j: int| 0 <= j < i ==> view.inode_deletes[j] != inode_number,
        decreases mutation.inode_deletes@.len() - i,
    {
        if mutation.inode_deletes[i] == inode_number {
            assert(view.inode_deletes[i as int] == inode_number);
            return None;
        }
        i = i + 1;
    }
    let mut left: usize = mutation.inode_puts.len();
    proof {
        assert(view.inode_puts.take(left as int) =~= view.inode_puts);
    }
    while left > 0
        invariant
            left <= mutation.inode_puts@.len(),
            view == mutation@,
            !view.inode_deletes.contains(inode_number),
            last_put(view.inode_puts, inode_number) == last_put(
                view.inode_puts.take(left as int),
                inode_number,
            ),
        decreases left,
    {
        let put = &mutation.inode_puts[left - 1];
        proof {
            let front = view.inode_puts.take(left as int);
            assert(front.last() == (put.inode_number, put.inode@));
            assert(front.drop_last() =~= view.inode_puts.take(left - 1));
        }
        if put.inode_number == inode_number {
            return Some(&put.inode);
        }
        left = left - 1;
    }
    namespace.inode(inode_number)
}

/// Removing inodes leaves the others.
pub proof fn lemma_inode_removed(
    inodes: Map<Seq<u8>, InodeView>,
    deletes: Seq<u64>,
    number: u64,
)
    ensures
        remove_inodes(inodes, deletes).contains_key(u64_key(number)) == (inodes.contains_key(
            u64_key(number),
        ) && !deletes.contains(number)),
        !deletes.contains(number) && inodes.contains_key(u64_key(number)) ==> remove_inodes(
            inodes,
            deletes,
        )[u64_key(number)] == inodes[u64_key(number)],
    decreases deletes.len(),
{
    if deletes.len() > 0 {
        let rest = deletes.drop_last();
        lemma_inode_removed(inodes, rest, number);
        lemma_u64_key_injective(deletes.last(), number);
        assert(deletes.contains(number) == (rest.contains(number) || deletes.last() == number))
            by {
            if rest.contains(number) {
                let i = choose|i: int| 0 <= i < rest.len() && rest[i] == number;
                assert(deletes[i] == number);
            }
            if deletes.contains(number) && deletes.last() != number {
                let i = choose|i: int| 0 <= i < deletes.len() && deletes[i] == number;
                assert(rest[i] == number);
            }
            if deletes.last() == number {
                assert(deletes[deletes.len() - 1] == number);
            }
        }
    }
}

/// Storing inodes gives each the one that was stored last and leaves the others.
pub proof fn lemma_inode_put(inodes: Map<Seq<u8>, InodeView>, puts: Seq<(u64, InodeView)>, number: u64)
    ensures
        ({
            let after = put_inodes(inodes, puts);
            match last_put(puts, number) {
                Some(inode) => after.contains_key(u64_key(number)) && after[u64_key(number)]
                    == inode,
                None => after.contains_key(u64_key(number)) == inodes.contains_key(u64_key(number))
                    && (inodes.contains_key(u64_key(number)) ==> after[u64_key(number)]
                    == inodes[u64_key(number)]),
            }
        }),
    decreases puts.len(),
{
    if puts.len() > 0 {
        lemma_inode_put(inodes, puts.drop_last(), number);
        lemma_u64_key_injective(puts.last().0, number);
    }
}

/// Looking an inode up past a mutation gives what applying the mutation gives, for an inode that the
/// mutation does not both delete and store.
pub proof fn lemma_inode_after_agrees(namespace: Namespace, mutation: MutationView, number: u64)
    requires
        !(mutation.inode_deletes.contains(number) && last_put(mutation.inode_puts, number) is Some),
    ensures
        namespace.after(mutation).inode(number) == inode_after(namespace, mutation, number),
{
    lemma_inode_removed(namespace.inodes, mutation.inode_deletes, number);
    lemma_inode_put(
        remove_inodes(namespace.inodes, mutation.inode_deletes),
        mutation.inode_puts,
        number,
    );
}

/// The names on the way from the root to an inode, looking at most some steps up.
pub open spec fn ancestry(namespace: Namespace, number: u64, steps: nat) -> Result<
    Seq<Seq<u8>>,
    FuseError,
>
    decreases steps,
{
    if steps == 0 {
        Err(FuseError::Integrity)
    } else if number == INODE_ROOT {
        Ok(Seq::empty())
    } else {
        match namespace.inode(number) {
            None => Err(FuseError::Errno(Errno::ENOENT)),
            Some(inode) => match ancestry(namespace, inode.parent, (steps - 1) as nat) {
                Ok(names) => Ok(names.push(inode.name)),
                Err(error) => Err(error),
            },
        }
    }
}

/// Most directories on the way from the root to an inode.
pub const PATH_STEPS: u64 = 1024;

/// Names joined by slashes, with one in front.
pub open spec fn joined(names: Seq<Seq<u8>>) -> Seq<u8>
    decreases names.len(),
{
    if names.len() == 0 {
        seq![47u8]
    } else {
        with_name(joined(names.drop_last()), names.last())
    }
}

/// A path with one more name.
pub open spec fn with_name(path: Seq<u8>, name: Seq<u8>) -> Seq<u8> {
    if path.len() > 1 {
        path.push(47) + name
    } else {
        path + name
    }
}

fn ancestor_names(state: &MaterializedBranchState, inode_number: u64, steps: u64) -> (names: Result<
    Vec<Vec<u8>>,
    FuseError,
>)
    ensures
        match names {
            Ok(names) => ancestry(state@, inode_number, steps as nat) == Ok::<
                Seq<Seq<u8>>,
                FuseError,
            >(byte_views(names@)),
            Err(error) => ancestry(state@, inode_number, steps as nat) == Err::<
                Seq<Seq<u8>>,
                FuseError,
            >(error),
        },
    decreases steps,
{
    if steps == 0 {
        return Err(FuseError::Integrity);
    }
    if inode_number == INODE_ROOT {
        let names: Vec<Vec<u8>> = Vec::new();
        proof {
            assert(byte_views(names@) =~= Seq::<Seq<u8>>::empty());
        }
        return Ok(names);
    }
    match state.inode(inode_number) {
        None => Err(FuseError::Errno(Errno::ENOENT)),
        Some(inode) => {
            match ancestor_names(state, inode.parent, steps - 1) {
                Err(error) => Err(error),
                Ok(above) => {
                    let mut names = above;
                    let ghost before = names@;
                    names.push(copy_bytes(inode.name.as_slice()));
                    proof {
                        assert(byte_views(names@) =~= byte_views(before).push(inode.name@));
                    }
                    Ok(names)
                },
            }
        },
    }
}

fn add_name(path: &mut Vec<u8>, name: &[u8])
    ensures
        final(path)@ == with_name(old(path)@, name@),
{
    if path.len() > 1 {
        path.push(47);
    }
    crate::bytes::append_bytes(path, name);
}

/// The path of an inode as bytes.
pub open spec fn path_bytes(namespace: Namespace, number: u64) -> Result<Seq<u8>, FuseError> {
    match ancestry(namespace, number, PATH_STEPS as nat) {
        Ok(names) => Ok(joined(names)),
        Err(error) => Err(error),
    }
}

/// What making bytes gives: the bytes, or an error.
pub open spec fn bytes_result(
    result: Result<Vec<u8>, FuseError>,
    expected: Result<Seq<u8>, FuseError>,
) -> bool {
    match result {
        Ok(bytes) => expected == Ok::<Seq<u8>, FuseError>(bytes@),
        Err(error) => expected == Err::<Seq<u8>, FuseError>(error),
    }
}

/// Returns the path of an inode as bytes.
pub fn inode_path_bytes(inode_number: u64, state: &MaterializedBranchState) -> (path: Result<
    Vec<u8>,
    FuseError,
>)
    ensures
        bytes_result(path, path_bytes(state@, inode_number)),
{
    match ancestor_names(state, inode_number, PATH_STEPS) {
        Err(error) => Err(error),
        Ok(names) => {
            let ghost all = byte_views(names@);
            let mut path: Vec<u8> = Vec::new();
            path.push(47);
            let mut i: usize = 0;
            proof {
                assert(all.take(0) =~= Seq::<Seq<u8>>::empty());
                assert(path@ =~= seq![47u8]);
            }
            while i < names.len()
                invariant
                    i <= names@.len(),
                    all == byte_views(names@),
                    path@ == joined(all.take(i as int)),
                decreases names@.len() - i,
            {
                proof {
                    assert(all.take(i + 1).drop_last() =~= all.take(i as int));
                    assert(all.take(i + 1).last() == names@[i as int]@);
                }
                add_name(&mut path, names[i].as_slice());
                i = i + 1;
            }
            proof {
                assert(all.take(i as int) =~= all);
            }
            Ok(path)
        },
    }
}

/// The path of a name in a directory, as text.
pub open spec fn child_path(namespace: Namespace, parent: u64, name: Seq<u8>) -> Result<
    Seq<char>,
    FuseError,
> {
    match path_bytes(namespace, parent) {
        Err(error) => Err(error),
        Ok(path) => {
            let bytes = with_name(path, name);
            if vstd::utf8::valid_utf8(bytes) {
                Ok(vstd::utf8::decode_utf8(bytes))
            } else {
                Err(FuseError::Errno(Errno::EINVAL))
            }
        },
    }
}

/// What making text gives: the text, or an error.
pub open spec fn text_result(
    result: Result<String, FuseError>,
    expected: Result<Seq<char>, FuseError>,
) -> bool {
    match result {
        Ok(text) => expected == Ok::<Seq<char>, FuseError>(text@),
        Err(error) => expected == Err::<Seq<char>, FuseError>(error),
    }
}

/// Returns the path of a name in a directory.
pub fn child_event_path(parent: u64, name: &[u8], state: &MaterializedBranchState) -> (path: Result<
    String,
    FuseError,
>)
    ensures
        text_result(path, child_path(state@, parent, name@)),
{
    match inode_path_bytes(parent, state) {
        Err(error) => Err(error),
        Ok(bytes) => {
            let mut bytes = bytes;
            add_name(&mut bytes, name);
            match text_from_bytes(bytes) {
                Some(text) => Ok(text),
                None => Err(FuseError::Errno(Errno::EINVAL)),
            }
        },
    }
}

/// The path of an inode, as text.
pub open spec fn inode_path(namespace: Namespace, number: u64, inode: InodeView) -> Result<
    Seq<char>,
    FuseError,
> {
    if number == INODE_ROOT {
        Ok("/"@)
    } else {
        child_path(namespace, inode.parent, inode.name)
    }
}

/// Returns the path of an inode.
pub fn inode_event_path(
    inode_number: u64,
    inode: &StoredInode,
    state: &MaterializedBranchState,
) -> (path: Result<String, FuseError>)
    ensures
        text_result(path, inode_path(state@, inode_number, inode@)),
{
    if inode_number == INODE_ROOT {
        return Ok("/".to_owned());
    }
    child_event_path(inode.parent, inode.name.as_slice(), state)
}

/// Tells whether an inode is, or lies below, another, looking at most some steps up.
pub open spec fn lies_below(
    namespace: Namespace,
    ancestor: u64,
    number: u64,
    steps: nat,
) -> Result<bool, FuseError>
    decreases steps,
{
    if steps == 0 {
        Err(FuseError::Integrity)
    } else if number == ancestor {
        Ok(true)
    } else if number == INODE_ROOT {
        Ok(false)
    } else {
        match namespace.inode(number) {
            None => Err(FuseError::Errno(Errno::ENOENT)),
            Some(inode) => lies_below(namespace, ancestor, inode.parent, (steps - 1) as nat),
        }
    }
}

/// Tells whether a directory is, or lies below, another.
pub fn directory_is_self_or_descendant(
    state: &MaterializedBranchState,
    ancestor: u64,
    inode_number: u64,
) -> (below: Result<bool, FuseError>)
    ensures
        below == lies_below(state@, ancestor, inode_number, PATH_STEPS as nat),
{
    let mut current: u64 = inode_number;
    let mut steps: u64 = PATH_STEPS;
    while steps > 0
        invariant
            lies_below(state@, ancestor, inode_number, PATH_STEPS as nat) == lies_below(
                state@,
                ancestor,
                current,
                steps as nat,
            ),
        decreases steps,
    {
        if current == ancestor {
            return Ok(true);
        }
        if current == INODE_ROOT {
            return Ok(false);
        }
        match state.inode(current) {
            None => return Err(FuseError::Errno(Errno::ENOENT)),
            Some(inode) => {
                current = inode.parent;
            },
        }
        steps = steps - 1;
    }
    Err(FuseError::Integrity)
}

/// Tells whether a directory has no entries.
pub fn directory_is_empty(state: &MaterializedBranchState, inode_number: u64) -> (empty: bool)
    ensures
        empty == state@.empty_directory(inode_number),
{
    let names = names_below(&state.directory_entries, inode_number);
    proof {
        let views = byte_views(names@);
        if views.len() > 0 {
            assert(state@.entries.contains_key(named_key(inode_number, views[0])));
        } else {
            assert forall|name: Seq<u8>| !state@.entries.contains_key(
                #[trigger] named_key(inode_number, name),
            ) by {
                if state@.entries.contains_key(named_key(inode_number, name)) {
                    assert(views.contains(name));
                }
            }
        }
    }
    names.len() == 0
}

} // verus!
