//! Branches: finding, listing, creating, switching to and deleting them.

use vstd::prelude::*;
use vstd::utf8::encode_utf8;

use crate::bytes::{bytes_equal, copy_bytes};
use crate::commit::{ActiveBranchState, ActiveView};
use crate::database::{
    push_bytes, push_row, Batch, BatchView, BranchView, Database, Image, StoredBranch, WriteState,
};
use crate::error::FilesystemError;
use crate::filesystem::{
    BranchIdentifier, BranchName, BranchPage, BranchPageLimit, BranchPosition, BranchRecord,
    BranchStatus, EventSequence,
};
use crate::history::{branch_root_at_position, keys_from, lemma_same_keys, page_of, root_of, seek};
use crate::keys::{decode_u64, encode_branch_position_key, encode_u64, pair_key, u64_key};
use crate::metadata::{
    active_branch_identifier_key, active_branch_identifier_key_bytes, next_branch_identifier_key,
    next_branch_identifier_key_bytes,
};
use crate::persist::{namespace_state_for_identifier_in_database, stored_state};
use crate::storage::{Storage, StorageView};
use crate::table::{listed_keys, lists_keys};
use crate::trie::{namespace_root_in_database, root_at};

verus! {

/// Number of the first branch.
pub const BRANCH_IDENTIFIER_INITIAL: u64 = 1;

/// Tells whether two texts hold the same characters.
pub fn same_text(a: &str, b: &str) -> (same: bool)
    ensures
        same == (a@ == b@),
{
    let same = bytes_equal(a.as_bytes(), b.as_bytes());
    proof {
        vstd::utf8::encode_utf8_decode_utf8(a@);
        vstd::utf8::encode_utf8_decode_utf8(b@);
    }
    same
}

/// A record describes a stored branch.
pub open spec fn describes(record: BranchRecord, branch: BranchView) -> bool {
    &&& record.branch_identifier == BranchIdentifier(branch.identifier)
    &&& record.name@ == branch.name
    &&& record.status == branch.status
    &&& record.head_position == BranchPosition {
        branch_identifier: BranchIdentifier(branch.identifier),
        ordinal: branch.head_ordinal,
    }
    &&& record.head_sequence == EventSequence(branch.head_sequence)
}

/// What describing a stored branch gives: its record, or an integrity error where it has no name.
pub open spec fn gives_record(
    result: Result<BranchRecord, FilesystemError>,
    branch: Option<BranchView>,
) -> bool {
    match result {
        Ok(record) => branch is Some && branch->0.name.len() > 0 && describes(record, branch->0),
        Err(error) => error == FilesystemError::Integrity && (branch is None
            || branch->0.name.len() == 0),
    }
}

/// Describes a stored branch.
pub fn branch_record_from_stored(stored: &StoredBranch) -> (record: Result<
    BranchRecord,
    FilesystemError,
>)
    ensures
        gives_record(record, Some(stored@)),
{
    let identifier = BranchIdentifier::new(stored.identifier);
    match BranchName::new(stored.name.clone()) {
        Err(_) => Err(FilesystemError::Integrity),
        Ok(name) => Ok(
            BranchRecord::new(
                identifier,
                name,
                stored.status,
                BranchPosition::new(identifier, stored.head_ordinal),
                EventSequence::new(stored.head_sequence),
            ),
        ),
    }
}

/// The stored branch with a number.
pub open spec fn branch_at(image: Image, number: u64) -> Option<BranchView> {
    if image.branches.contains_key(u64_key(number)) {
        image.branches[u64_key(number)]
    } else {
        None
    }
}

/// Finds the stored branch with a number.
pub fn stored_branch<'a>(database: &'a Database, branch_identifier: BranchIdentifier) -> (branch:
    Result<&'a StoredBranch, FilesystemError>)
    ensures
        match branch {
            Ok(branch) => branch_at(database@, branch_identifier.0) == Some(branch@),
            Err(error) => error == FilesystemError::Integrity && branch_at(
                database@,
                branch_identifier.0,
            ) is None,
        },
{
    let key = encode_u64(branch_identifier.get());
    match database.branches.get(key.as_slice()) {
        None => Err(FilesystemError::Integrity),
        Some(None) => Err(FilesystemError::Integrity),
        Some(Some(branch)) => Ok(branch),
    }
}

/// The number of the branch with a name.
pub open spec fn number_of(image: Image, name: Seq<char>) -> Option<u64> {
    let key = encode_utf8(name);
    if image.branch_names.contains_key(key) && image.branch_names[key].len() == 8 {
        Some(crate::keys::u64_of(image.branch_names[key]))
    } else {
        None
    }
}

/// Finds the number of the branch with a name.
pub fn branch_identifier_by_name(database: &Database, name: &BranchName) -> (identifier: Result<
    BranchIdentifier,
    FilesystemError,
>)
    ensures
        match identifier {
            Ok(identifier) => number_of(database@, name@) == Some(identifier.0),
            Err(error) => error == FilesystemError::Integrity && number_of(
                database@,
                name@,
            ) is None,
        },
{
    match database.branch_names.get(name.as_str().as_bytes()) {
        None => Err(FilesystemError::Integrity),
        Some(value) => match decode_u64(value.as_slice()) {
            Err(error) => Err(error),
            Ok(number) => Ok(BranchIdentifier::new(number)),
        },
    }
}

/// Whether one of the branches under the given keys has a name. The branches before it must be
/// readable.
pub open spec fn name_taken(image: Image, name: Seq<char>, keys: Seq<Seq<u8>>) -> Option<bool>
    decreases keys.len(),
{
    if keys.len() == 0 {
        Some(false)
    } else if keys[0].len() != 8 || image.branches[keys[0]] is None {
        None
    } else if image.branches[keys[0]]->0.name == name {
        Some(true)
    } else {
        name_taken(image, name, keys.skip(1))
    }
}

/// Tells whether a branch, open or deleted, has a name.
pub fn branch_name_exists(database: &Database, name: &BranchName) -> (taken: Result<
    bool,
    FilesystemError,
>)
    ensures
        match taken {
            Ok(taken) => name_taken(database@, name@, listed_keys(database@.branches)) == Some(
                taken,
            ),
            Err(error) => error == FilesystemError::Integrity && name_taken(
                database@,
                name@,
                listed_keys(database@.branches),
            ) is None,
        },
{
    let table = &database.branches;
    let total: usize = table.len();
    let ghost image = database@;
    let ghost all = table.keys();
    let ghost expected = name_taken(database@, name@, listed_keys(database@.branches));
    let mut index: usize = 0;
    proof {
        lemma_same_keys(table@, image.branches, all);
        assert(all.skip(0) =~= all);
    }
    while index < total
        invariant
            index <= total,
            total == all.len(),
            table == &database.branches,
            all == table.keys(),
            lists_keys(all, table@),
            image == database@,
            expected == name_taken(database@, name@, listed_keys(database@.branches)),
            expected == name_taken(image, name@, all.skip(index as int)),
        decreases total - index,
    {
        let key = table.key_at(index);
        proof {
            assert(all.skip(index as int)[0] == key@);
            assert(all.skip(index as int).skip(1) =~= all.skip(index + 1));
            assert(image.branches.contains_key(key@));
        }
        if key.len() != 8 {
            return Err(FilesystemError::Integrity);
        }
        match table.value_at(index) {
            None => return Err(FilesystemError::Integrity),
            Some(branch) => {
                if same_text(branch.name.as_str(), name.as_str()) {
                    return Ok(true);
                }
            },
        }
        index = index + 1;
    }
    proof {
        assert(all.skip(index as int).len() == 0);
    }
    Ok(false)
}

/// The branch under a key, if it is readable and has a name.
pub open spec fn named_branch(image: Image, key: Seq<u8>) -> Option<BranchView> {
    match image.branches[key] {
        Some(branch) => if branch.name.len() > 0 {
            Some(branch)
        } else {
            None
        },
        None => None,
    }
}

/// The page of branches after a number.
pub open spec fn branches_after(image: Image, after: Option<BranchIdentifier>, limit: nat) -> Option<
    (Seq<BranchView>, bool),
> {
    if after is Some && (after->0).0 == u64::MAX {
        Some((Seq::empty(), false))
    } else {
        let start: u64 = match after {
            Some(identifier) => (identifier.0 + 1) as u64,
            None => BRANCH_IDENTIFIER_INITIAL,
        };
        let keys = keys_from(listed_keys(image.branches), u64_key(start));
        page_of(Seq::new(keys.len(), |i: int| named_branch(image, keys[i])), limit)
    }
}

/// What a listing of branches gives: records and the number of the last where more follow.
pub open spec fn describes_page(page: BranchPage, expected: (Seq<BranchView>, bool)) -> bool {
    &&& page.records@.len() == expected.0.len()
    &&& forall|i: int|
        0 <= i < page.records@.len() ==> describes(#[trigger] page.records@[i], expected.0[i])
    &&& page.next_after == (if expected.1 && expected.0.len() > 0 {
        Some(BranchIdentifier(expected.0.last().identifier))
    } else {
        None
    })
}

/// A branch that is to be created: its record, its rows and the counter after it.
pub ghost struct BranchCreation {
    pub branch: BranchView,
    pub batch: BatchView,
    pub next_branch_identifier: u64,
}

/// The sequence of the event at a position of a branch that is given with its own record.
pub open spec fn fork_sequence(image: Image, source: BranchView, from: BranchPosition) -> Option<u64> {
    let key = pair_key(from.branch_identifier.0, from.ordinal);
    if source.identifier == from.branch_identifier.0 && source.head_ordinal == from.ordinal {
        Some(source.head_sequence)
    } else if image.branch_events.contains_key(key) && image.branch_events[key].len() == 8 {
        Some(crate::keys::u64_of(image.branch_events[key]))
    } else {
        None
    }
}

impl StorageView {
    /// The branch that a fork creates. The name must be new, the source open and at least as long as
    /// the position, its state there known, and a number left.
    pub open spec fn branch_creation(self, name: Seq<char>, from: BranchPosition) -> Option<
        BranchCreation,
    > {
        let number = self.write.next_branch_identifier;
        match (branch_at(self.image, from.branch_identifier.0), root_of(self.image, from)) {
            (Some(source), Some(root)) => {
                let sequence = fork_sequence(self.image, source, from);
                if name_taken(self.image, name, listed_keys(self.image.branches)) == Some(false)
                    && source.name.len() > 0 && source.status == BranchStatus::Open
                    && from.ordinal <= source.head_ordinal && sequence == Some(root.sequence)
                    && !self.image.branches.contains_key(u64_key(number)) && number < u64::MAX {
                    let branch = BranchView {
                        identifier: number,
                        name,
                        status: BranchStatus::Open,
                        head_sequence: root.sequence,
                        head_ordinal: from.ordinal,
                        namespace_identifier: root.namespace_identifier,
                        fork_branch_identifier: Some(from.branch_identifier.0),
                        fork_ordinal: Some(from.ordinal),
                    };
                    Some(
                        BranchCreation {
                            branch,
                            batch: BatchView {
                                branches: seq![(u64_key(number), branch)],
                                branch_names: seq![(encode_utf8(name), u64_key(number))],
                                branch_roots: seq![(pair_key(number, from.ordinal), root)],
                                metadata: seq![
                                    (next_branch_identifier_key(), u64_key((number + 1) as u64)),
                                ],
                                ..BatchView::nothing()
                            },
                            next_branch_identifier: (number + 1) as u64,
                        },
                    )
                } else {
                    None
                }
            },
            _ => None,
        }
    }

    /// The filesystem after a branch was created.
    pub open spec fn after_creation(self, creation: BranchCreation) -> StorageView {
        StorageView {
            image: self.image.after(creation.batch),
            write: WriteState {
                next_branch_identifier: creation.next_branch_identifier,
                ..self.write
            },
            active: self.active,
        }
    }

    /// The number and the state of the branch that a switch makes active. The branch must be open,
    /// have a name, and its state must be readable.
    pub open spec fn branch_switch(self, name: Seq<char>) -> Option<(u64, ActiveView)> {
        match number_of(self.image, name) {
            None => None,
            Some(number) => match branch_at(self.image, number) {
                None => None,
                Some(branch) => match (
                    root_at(self.image.nodes, branch.namespace_identifier),
                    stored_state(self.image.nodes, branch.namespace_identifier),
                ) {
                    (Some(root), Some(namespace)) => if branch.status == BranchStatus::Open
                        && branch.name.len() > 0 {
                        Some((number, ActiveView { branch, root, namespace }))
                    } else {
                        None
                    },
                    _ => None,
                },
            },
        }
    }

    /// The row that records the active branch.
    pub open spec fn switch_rows(number: u64) -> BatchView {
        BatchView {
            metadata: seq![(active_branch_identifier_key(), u64_key(number))],
            ..BatchView::nothing()
        }
    }

    /// The filesystem after a branch was made active.
    pub open spec fn after_switch(
        self,
        batch: BatchView,
        number: u64,
        active: ActiveView,
    ) -> StorageView {
        StorageView {
            image: self.image.after(batch),
            write: WriteState {
                active_branch_identifier: number,
                active_branch_head_sequence: active.branch.head_sequence,
                active_branch_head_ordinal: active.branch.head_ordinal,
                ..self.write
            },
            active,
        }
    }

    /// The rows that delete a branch. It must be open, carry its own number and name, and be neither
    /// the first nor the active branch.
    pub open spec fn branch_deletion(self, name: Seq<char>) -> Option<BatchView> {
        match number_of(self.image, name) {
            None => None,
            Some(number) => match branch_at(self.image, number) {
                None => None,
                Some(branch) => if number != BRANCH_IDENTIFIER_INITIAL && number
                    != self.write.active_branch_identifier && branch.identifier == number
                    && branch.name == name && branch.status == BranchStatus::Open {
                    Some(
                        BatchView {
                            branches: seq![
                                (
                                    u64_key(number),
                                    BranchView { status: BranchStatus::Deleted, ..branch },
                                ),
                            ],
                            branch_name_deletes: seq![encode_utf8(name)],
                            ..BatchView::nothing()
                        },
                    )
                } else {
                    None
                },
            },
        }
    }

    /// The filesystem after a branch was deleted.
    pub open spec fn after_deletion(self, batch: BatchView) -> StorageView {
        StorageView { image: self.image.after(batch), write: self.write, active: self.active }
    }
}

/// The creation of a branch that is to be written out and finished.
#[derive(Debug, PartialEq, Eq)]
pub struct PreparedBranch {
    /// What to write out.
    pub batch: Batch,
    /// The branch.
    pub branch: StoredBranch,
    /// The next branch number.
    pub next_branch_identifier: u64,
    /// The record of the branch.
    pub record: BranchRecord,
}

impl View for PreparedBranch {
    type V = BranchCreation;

    open spec fn view(&self) -> BranchCreation {
        BranchCreation {
            branch: self.branch@,
            batch: self.batch@,
            next_branch_identifier: self.next_branch_identifier,
        }
    }
}

/// A switch to a branch that is to be written out and finished.
#[derive(Debug, PartialEq, Eq)]
pub struct PreparedSwitch {
    /// What to write out.
    pub batch: Batch,
    /// The number of the branch.
    pub branch_identifier: BranchIdentifier,
    /// The branch and its state.
    pub active: ActiveBranchState,
    /// The record of the branch.
    pub record: BranchRecord,
}

/// The deletion of a branch that is to be written out and finished.
#[derive(Debug, PartialEq, Eq)]
pub struct PreparedDeletion {
    /// What to write out.
    pub batch: Batch,
}

impl Storage {
    /// Describes the active branch.
    pub fn current_branch(&self) -> (record: Result<BranchRecord, FilesystemError>)
        ensures
            gives_record(record, Some(self@.active.branch)),
    {
        branch_record_from_stored(&self.active.branch)
    }

    /// Describes the branch with a number.
    pub fn branch_record(&self, branch_identifier: BranchIdentifier) -> (record: Result<
        BranchRecord,
        FilesystemError,
    >)
        ensures
            gives_record(record, branch_at(self@.image, branch_identifier.0)),
    {
        match stored_branch(&self.database, branch_identifier) {
            Err(error) => Err(error),
            Ok(stored) => branch_record_from_stored(stored),
        }
    }

    /// Lists branches after a number, in order, the deleted ones too.
    pub fn list_branches(&self, after: Option<BranchIdentifier>, limit: BranchPageLimit) -> (page:
        Result<BranchPage, FilesystemError>)
        ensures
            match page {
                Ok(page) => {
                    let expected = branches_after(self@.image, after, limit@ as nat);
                    expected is Some && describes_page(page, expected->0)
                },
                Err(error) => error == FilesystemError::Integrity && branches_after(
                    self@.image,
                    after,
                    limit@ as nat,
                ) is None,
            },
    {
        let start: u64 = match after {
            Some(identifier) => match identifier.get().checked_add(1) {
                Some(start) => start,
                None => {
                    return Ok(BranchPage::new(Vec::new(), None));
                },
            },
            None => BRANCH_IDENTIFIER_INITIAL,
        };
        let limit_value: u64 = limit.get();
        let start_key = encode_u64(start);
        let table = &self.database.branches;
        let first: usize = seek(table, start_key.as_slice());
        let total: usize = table.len();
        let ghost image = self@.image;
        let ghost all = table.keys();
        proof {
            lemma_same_keys(table@, image.branches, all);
        }
        let ghost keys = all.skip(first as int);
        let ghost items = Seq::new(keys.len(), |i: int| named_branch(image, keys[i]));
        let mut records: Vec<BranchRecord> = Vec::new();
        let mut index: usize = first;
        while index < total && (records.len() as u64) < limit_value
            invariant
                first <= index <= total,
                total == all.len(),
                table == &self.database.branches,
                all == table.keys(),
                lists_keys(all, table@),
                image == self@.image,
                limit_value == limit@,
                limit_value > 0,
                keys == all.skip(first as int),
                items == Seq::new(keys.len(), |i: int| named_branch(image, keys[i])),
                branches_after(image, after, limit@ as nat) == page_of(items, limit@ as nat),
                records@.len() == index - first,
                records@.len() <= limit_value,
                forall|i: int| 0 <= i < records@.len() ==> (#[trigger] items[i]) is Some,
                forall|i: int|
                    0 <= i < records@.len() ==> describes(#[trigger] records@[i], items[i]->0),
            decreases total - index,
        {
            let key = table.key_at(index);
            let ghost place = index - first;
            proof {
                assert(keys[place] == all[index as int]);
                assert(items[place] == named_branch(image, key@));
                assert(image.branches.contains_key(key@));
            }
            match table.value_at(index) {
                None => {
                    assert(items[place] is None);
                    return Err(FilesystemError::Integrity);
                },
                Some(stored) => match branch_record_from_stored(stored) {
                    Err(error) => {
                        assert(items[place] is None);
                        return Err(error);
                    },
                    Ok(record) => {
                        records.push(record);
                    },
                },
            }
            index = index + 1;
        }
        let next_after: Option<BranchIdentifier> = if index < total && records.len() > 0 {
            Some(records[records.len() - 1].branch_identifier())
        } else {
            None
        };
        Ok(BranchPage::new(records, next_after))
    }

    /// Finds the sequence of the event at a position of a branch that is given with its record.
    fn fork_point(&self, source: &StoredBranch, from: BranchPosition) -> (sequence: Result<
        u64,
        FilesystemError,
    >)
        ensures
            match sequence {
                Ok(sequence) => fork_sequence(self@.image, source@, from) == Some(sequence),
                Err(error) => error == FilesystemError::Integrity && fork_sequence(
                    self@.image,
                    source@,
                    from,
                ) is None,
            },
    {
        if source.identifier == from.branch_identifier().get() && source.head_ordinal
            == from.ordinal() {
            return Ok(source.head_sequence);
        }
        let key = encode_branch_position_key(from.branch_identifier().get(), from.ordinal());
        match self.database.branch_events.get(key.as_slice()) {
            None => Err(FilesystemError::Integrity),
            Some(value) => decode_u64(value.as_slice()),
        }
    }

    /// Prepares the creation of a branch that starts at a position of another.
    pub fn create_branch(&self, name: &BranchName, from: BranchPosition) -> (prepared: Result<
        PreparedBranch,
        FilesystemError,
    >)
        ensures
            match prepared {
                Ok(prepared) => self@.branch_creation(name@, from) == Some(prepared@) && describes(
                    prepared.record,
                    prepared@.branch,
                ),
                Err(error) => error == FilesystemError::Integrity && self@.branch_creation(
                    name@,
                    from,
                ) is None,
            },
    {
        match branch_name_exists(&self.database, name) {
            Err(error) => return Err(error),
            Ok(taken) => {
                if taken {
                    return Err(FilesystemError::Integrity);
                }
            },
        }
        let source = match stored_branch(&self.database, from.branch_identifier()) {
            Err(error) => return Err(error),
            Ok(source) => source,
        };
        let source_record = match branch_record_from_stored(source) {
            Err(error) => return Err(error),
            Ok(record) => record,
        };
        if source_record.status() != BranchStatus::Open || from.ordinal()
            > source_record.head_position().ordinal() {
            return Err(FilesystemError::Integrity);
        }
        let sequence: u64 = match self.fork_point(source, from) {
            Err(error) => return Err(error),
            Ok(sequence) => sequence,
        };
        let source_root = match branch_root_at_position(&self.database, from) {
            Err(error) => return Err(error),
            Ok(root) => root,
        };
        if source_root.sequence != sequence {
            return Err(FilesystemError::Integrity);
        }
        let number: u64 = self.write_state.next_branch_identifier;
        let number_key = encode_u64(number);
        if self.database.branches.contains_key(number_key.as_slice()) {
            return Err(FilesystemError::Integrity);
        }
        let next_branch_identifier: u64 = match number.checked_add(1) {
            None => return Err(FilesystemError::Integrity),
            Some(next) => next,
        };
        let branch = StoredBranch {
            identifier: number,
            name: name.as_str().to_owned(),
            status: BranchStatus::Open,
            head_sequence: sequence,
            head_ordinal: from.ordinal(),
            namespace_identifier: copy_bytes(source_root.namespace_identifier.as_slice()),
            fork_branch_identifier: Some(from.branch_identifier().get()),
            fork_ordinal: Some(from.ordinal()),
        };
        let record = match branch_record_from_stored(&branch) {
            Err(error) => return Err(error),
            Ok(record) => record,
        };
        let mut batch = Batch::new();
        push_row(&mut batch.branches, encode_u64(number), branch.clone());
        push_bytes(&mut batch.branch_names, copy_bytes(name.as_str().as_bytes()), number_key);
        push_row(
            &mut batch.branch_roots,
            encode_branch_position_key(number, from.ordinal()),
            source_root.clone(),
        );
        push_bytes(
            &mut batch.metadata,
            next_branch_identifier_key_bytes(),
            encode_u64(next_branch_identifier),
        );
        let prepared = PreparedBranch { batch, branch, next_branch_identifier, record };
        proof {
            let expected = self@.branch_creation(name@, from)->0;
            assert(prepared@.branch == expected.branch);
            assert(prepared@.batch =~= expected.batch);
        }
        Ok(prepared)
    }

    /// Finishes the creation of a branch that was written out.
    pub fn finish_create_branch(&mut self, prepared: PreparedBranch) -> (record: BranchRecord)
        ensures
            final(self)@ == old(self)@.after_creation(prepared@),
            record == prepared.record,
    {
        self.database.write(prepared.batch);
        self.write_state.next_branch_identifier = prepared.next_branch_identifier;
        prepared.record
    }

    /// Prepares a switch to a branch.
    pub fn switch_branch(&self, name: &BranchName) -> (prepared: Result<
        PreparedSwitch,
        FilesystemError,
    >)
        ensures
            match prepared {
                Ok(prepared) => {
                    &&& self@.branch_switch(name@) == Some(
                        (prepared.branch_identifier.0, prepared.active@),
                    )
                    &&& prepared.batch@ == StorageView::switch_rows(prepared.branch_identifier.0)
                    &&& describes(prepared.record, prepared.active@.branch)
                },
                Err(error) => error == FilesystemError::Integrity && self@.branch_switch(
                    name@,
                ) is None,
            },
    {
        let branch_identifier = match branch_identifier_by_name(&self.database, name) {
            Err(error) => return Err(error),
            Ok(identifier) => identifier,
        };
        let stored = match stored_branch(&self.database, branch_identifier) {
            Err(error) => return Err(error),
            Ok(stored) => stored,
        };
        if stored.status != BranchStatus::Open {
            return Err(FilesystemError::Integrity);
        }
        let namespace_root = match namespace_root_in_database(
            &self.database.namespace_nodes,
            stored.namespace_identifier.as_slice(),
        ) {
            Err(error) => return Err(error),
            Ok(root) => root,
        };
        let namespace = match namespace_state_for_identifier_in_database(
            &self.database.namespace_nodes,
            stored.namespace_identifier.as_slice(),
        ) {
            Err(error) => return Err(error),
            Ok(namespace) => namespace,
        };
        let record = match branch_record_from_stored(stored) {
            Err(error) => return Err(error),
            Ok(record) => record,
        };
        let mut batch = Batch::new();
        push_bytes(
            &mut batch.metadata,
            active_branch_identifier_key_bytes(),
            encode_u64(branch_identifier.get()),
        );
        let active = ActiveBranchState::new(stored.clone(), namespace_root, namespace);
        let prepared = PreparedSwitch { batch, branch_identifier, active, record };
        proof {
            assert(prepared.batch@ =~= StorageView::switch_rows(prepared.branch_identifier.0));
        }
        Ok(prepared)
    }

    /// Finishes a switch to a branch that was written out.
    pub fn finish_switch_branch(&mut self, prepared: PreparedSwitch) -> (record: BranchRecord)
        ensures
            final(self)@ == old(self)@.after_switch(
                prepared.batch@,
                prepared.branch_identifier.0,
                prepared.active@,
            ),
            record == prepared.record,
    {
        self.database.write(prepared.batch);
        self.write_state.active_branch_identifier = prepared.branch_identifier.get();
        self.write_state.active_branch_head_sequence = prepared.active.branch.head_sequence;
        self.write_state.active_branch_head_ordinal = prepared.active.branch.head_ordinal;
        self.active = prepared.active;
        prepared.record
    }

    /// Prepares the deletion of a branch.
    pub fn delete_branch(&self, name: &BranchName) -> (prepared: Result<
        PreparedDeletion,
        FilesystemError,
    >)
        ensures
            match prepared {
                Ok(prepared) => self@.branch_deletion(name@) == Some(prepared.batch@),
                Err(error) => error == FilesystemError::Integrity && self@.branch_deletion(
                    name@,
                ) is None,
            },
    {
        let branch_identifier = match branch_identifier_by_name(&self.database, name) {
            Err(error) => return Err(error),
            Ok(identifier) => identifier,
        };
        let number: u64 = branch_identifier.get();
        if number == BRANCH_IDENTIFIER_INITIAL || number
            == self.write_state.active_branch_identifier {
            return Err(FilesystemError::Integrity);
        }
        let stored = match stored_branch(&self.database, branch_identifier) {
            Err(error) => return Err(error),
            Ok(stored) => stored,
        };
        if stored.identifier != number || !same_text(stored.name.as_str(), name.as_str())
            || stored.status != BranchStatus::Open {
            return Err(FilesystemError::Integrity);
        }
        let mut deleted = stored.clone();
        deleted.status = BranchStatus::Deleted;
        let mut batch = Batch::new();
        push_row(&mut batch.branches, encode_u64(number), deleted);
        batch.branch_name_deletes.push(copy_bytes(name.as_str().as_bytes()));
        let prepared = PreparedDeletion { batch };
        proof {
            let expected = self@.branch_deletion(name@)->0;
            assert(prepared.batch@ =~= expected);
        }
        Ok(prepared)
    }

    /// Finishes the deletion of a branch that was written out.
    pub fn finish_delete_branch(&mut self, prepared: PreparedDeletion)
        ensures
            final(self)@ == old(self)@.after_deletion(prepared.batch@),
    {
        self.database.write(prepared.batch);
    }
}

} // verus!
