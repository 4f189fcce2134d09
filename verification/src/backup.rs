//! Backups: their identifiers and receipts, which backup a run created, which directories may not
//! overlap, and the order of steps that replaces a database directory.

use vstd::prelude::*;

use crate::bytes::{bytes_equal, copy_bytes};
use crate::error::{ConfigurationError, FilesystemError};
use crate::filesystem::EventSequence;

verus! {

/// Local backup repository directory: the bytes of a path that is not empty.
#[derive(Debug, PartialEq, Eq, PartialOrd, Ord, Hash)]
pub struct BackupDirectory {
    path: Vec<u8>,
}

impl BackupDirectory {
    #[verifier::type_invariant]
    spec fn valid(self) -> bool {
        self.path@.len() > 0
    }

    /// The bytes of the path.
    pub closed spec fn view(self) -> Seq<u8> {
        self.path@
    }

    /// Creates a backup directory value and rejects an empty path.
    pub fn new(path: Vec<u8>) -> (directory: Result<Self, ConfigurationError>)
        ensures
            path@.len() == 0 ==> directory == Err::<Self, ConfigurationError>(
                ConfigurationError::EmptyValue,
            ),
            path@.len() > 0 ==> directory is Ok && directory->Ok_0@ == path@,
    {
        if path.len() == 0 {
            return Err(ConfigurationError::EmptyValue);
        }
        Ok(BackupDirectory { path })
    }

    /// Returns the configured backup directory path.
    pub fn as_path(&self) -> (path: &[u8])
        ensures
            path@ == self@,
            path@.len() > 0,
    {
        proof {
            use_type_invariant(self);
        }
        self.path.as_slice()
    }
}

impl Clone for BackupDirectory {
    fn clone(&self) -> (directory: Self)
        ensures
            directory@ == self@,
    {
        proof {
            use_type_invariant(self);
        }
        BackupDirectory { path: copy_bytes(self.path.as_slice()) }
    }
}

/// Backup identifier; never zero.
#[derive(Clone, Copy, Debug, PartialEq, Eq, PartialOrd, Ord, Hash)]
pub struct BackupIdentifier {
    value: u32,
}

impl BackupIdentifier {
    #[verifier::type_invariant]
    spec fn valid(self) -> bool {
        self.value != 0
    }

    /// The number of the backup.
    pub closed spec fn view(self) -> u32 {
        self.value
    }

    /// Creates a backup identifier value and rejects zero.
    pub fn new(value: u32) -> (identifier: Result<Self, ConfigurationError>)
        ensures
            value == 0 ==> identifier == Err::<Self, ConfigurationError>(
                ConfigurationError::ZeroValue,
            ),
            value != 0 ==> identifier is Ok && identifier->Ok_0@ == value,
    {
        if value == 0 {
            return Err(ConfigurationError::ZeroValue);
        }
        Ok(BackupIdentifier { value })
    }

    /// Returns the numeric backup identifier.
    pub fn get(self) -> (value: u32)
        ensures
            value == self@,
            value != 0,
    {
        proof {
            use_type_invariant(self);
        }
        self.value
    }
}

/// Receipt returned after creating a local backup.
#[derive(Clone, Copy, Debug, PartialEq, Eq)]
pub struct BackupReceipt {
    /// The created backup.
    pub backup_identifier: BackupIdentifier,
    /// The newest event in it.
    pub source_event_sequence: EventSequence,
}

impl BackupReceipt {
    /// Creates a receipt.
    pub fn new(
        backup_identifier: BackupIdentifier,
        source_event_sequence: EventSequence,
    ) -> (receipt: Self)
        ensures
            receipt.backup_identifier == backup_identifier,
            receipt.source_event_sequence == source_event_sequence,
    {
        BackupReceipt { backup_identifier, source_event_sequence }
    }

    /// Returns the created backup identifier.
    pub fn backup_identifier(&self) -> (identifier: BackupIdentifier)
        ensures
            identifier == self.backup_identifier,
    {
        self.backup_identifier
    }

    /// Returns the source filesystem event sequence included in the backup.
    pub fn source_event_sequence(&self) -> (sequence: EventSequence)
        ensures
            sequence == self.source_event_sequence,
    {
        self.source_event_sequence
    }
}

/// Receipt returned after importing a local backup.
#[derive(Clone, Copy, Debug, PartialEq, Eq)]
pub struct ImportReceipt {
    /// The imported backup.
    pub backup_identifier: BackupIdentifier,
    /// The newest event in it.
    pub imported_event_sequence: EventSequence,
}

impl ImportReceipt {
    /// Creates a receipt.
    pub fn new(
        backup_identifier: BackupIdentifier,
        imported_event_sequence: EventSequence,
    ) -> (receipt: Self)
        ensures
            receipt.backup_identifier == backup_identifier,
            receipt.imported_event_sequence == imported_event_sequence,
    {
        ImportReceipt { backup_identifier, imported_event_sequence }
    }

    /// Returns the imported backup identifier.
    pub fn backup_identifier(&self) -> (identifier: BackupIdentifier)
        ensures
            identifier == self.backup_identifier,
    {
        self.backup_identifier
    }

    /// Returns the restored filesystem event sequence.
    pub fn imported_event_sequence(&self) -> (sequence: EventSequence)
        ensures
            sequence == self.imported_event_sequence,
    {
        self.imported_event_sequence
    }
}

/// `value` is the greatest number of `all` that is not in `known`.
pub open spec fn greatest_new(all: Seq<u32>, known: Seq<u32>, value: u32) -> bool {
    &&& all.contains(value)
    &&& !known.contains(value)
    &&& forall|i: int|
        0 <= i < all.len() && !known.contains(#[trigger] all[i]) ==> all[i] <= value
}

fn contains_number(numbers: &[u32], number: u32) -> (found: bool)
    ensures
        found == numbers@.contains(number),
{
    let mut i: usize = 0;
    while i < numbers.len()
        invariant
            i <= numbers.len(),
            forall|j: int| 0 <= j < i ==> numbers@[j] != number,
        decreases numbers.len() - i,
    {
        if numbers[i] == number {
            proof {
                assert(numbers@[i as int] == number);
            }
            return true;
        }
        i = i + 1;
    }
    false
}

/// Finds the backup that a run created: the greatest identifier that was not there before. Without
/// one, or when it is zero, the backup failed.
pub fn created_backup_identifier(existing: &[u32], present: &[u32]) -> (created: Result<
    BackupIdentifier,
    FilesystemError,
>)
    ensures
        match created {
            Ok(identifier) => greatest_new(present@, existing@, identifier@) && identifier@ != 0,
            Err(error) => error == FilesystemError::Backup && forall|value: u32|
                greatest_new(present@, existing@, value) ==> value == 0,
        },
{
    let mut newest: Option<u32> = None;
    let mut i: usize = 0;
    while i < present.len()
        invariant
            i <= present.len(),
            match newest {
                None => forall|j: int|
                    0 <= j < i ==> existing@.contains(#[trigger] present@[j]),
                Some(value) => greatest_new(present@.take(i as int), existing@, value),
            },
        decreases present.len() - i,
    {
        let candidate: u32 = present[i];
        let ghost seen = present@.take(i as int);
        let ghost next = present@.take(i + 1);
        proof {
            assert(next =~= seen.push(candidate));
            assert(next[i as int] == candidate);
            assert forall|j: int| 0 <= j < i implies next[j] == #[trigger] seen[j] by {}
            if newest is Some {
                let at = choose|at: int| 0 <= at < seen.len() && seen[at] == newest->0;
                assert(next[at] == newest->0);
            }
        }
        if !contains_number(existing, candidate) {
            match newest {
                None => {
                    newest = Some(candidate);
                    proof {
                        assert forall|j: int| 0 <= j < next.len() && !existing@.contains(
                            #[trigger] next[j],
                        ) implies next[j] <= candidate by {
                            if j < i {
                                assert(existing@.contains(present@[j]));
                            }
                        }
                    }
                },
                Some(value) => {
                    if value < candidate {
                        newest = Some(candidate);
                    }
                    proof {
                        assert forall|j: int| 0 <= j < next.len() && !existing@.contains(
                            #[trigger] next[j],
                        ) implies next[j] <= newest->0 by {
                            if j < i {
                                assert(next[j] == seen[j]);
                            }
                        }
                    }
                },
            }
        } else {
            proof {
                if newest is Some {
                    assert forall|j: int| 0 <= j < next.len() && !existing@.contains(
                        #[trigger] next[j],
                    ) implies next[j] <= newest->0 by {
                        if j < i {
                            assert(next[j] == seen[j]);
                        }
                    }
                }
            }
        }
        i = i + 1;
    }
    proof {
        assert(present@.take(i as int) =~= present@);
    }
    match newest {
        None => {
            proof {
                assert forall|value: u32| greatest_new(present@, existing@, value) implies value
                    == 0 by {
                    let at = choose|at: int| 0 <= at < present@.len() && present@[at] == value;
                    assert(existing@.contains(present@[at]));
                }
            }
            Err(FilesystemError::Backup)
        },
        Some(value) => match BackupIdentifier::new(value) {
            Ok(identifier) => Ok(identifier),
            Err(_) => {
                proof {
                    assert forall|other: u32| greatest_new(present@, existing@, other) implies other
                        == 0 by {
                        let at = choose|at: int| 0 <= at < present@.len() && present@[at] == other;
                        assert(present@[at] <= value);
                    }
                }
                Err(FilesystemError::Backup)
            },
        },
    }
}

/// The components of a path, each the bytes between separators.
pub open spec fn component_views(path: Seq<Vec<u8>>) -> Seq<Seq<u8>> {
    Seq::new(path.len(), |i: int| path[i]@)
}

/// One path of components is the other or lies below it.
pub open spec fn overlapping(first: Seq<Seq<u8>>, second: Seq<Seq<u8>>) -> bool {
    first.is_prefix_of(second) || second.is_prefix_of(first)
}

/// Tells whether two paths, as lists of components, are the same or one lies below the other.
pub fn paths_overlap(first: &[Vec<u8>], second: &[Vec<u8>]) -> (overlap: bool)
    ensures
        overlap == overlapping(component_views(first@), component_views(second@)),
{
    let ghost a = component_views(first@);
    let ghost b = component_views(second@);
    let mut i: usize = 0;
    while i < first.len() && i < second.len()
        invariant
            i <= first.len(),
            i <= second.len(),
            a == component_views(first@),
            b == component_views(second@),
            forall|j: int| 0 <= j < i ==> #[trigger] a[j] == b[j],
        decreases first.len() - i,
    {
        if !bytes_equal(first[i].as_slice(), second[i].as_slice()) {
            proof {
                assert(a[i as int] != b[i as int]);
                assert(!a.is_prefix_of(b)) by {
                    if a.is_prefix_of(b) {
                        assert(a[i as int] == b.subrange(0, a.len() as int)[i as int]);
                    }
                }
                assert(!b.is_prefix_of(a)) by {
                    if b.is_prefix_of(a) {
                        assert(b[i as int] == a.subrange(0, b.len() as int)[i as int]);
                    }
                }
            }
            return false;
        }
        i = i + 1;
    }
    proof {
        if i == a.len() {
            assert(a =~= b.subrange(0, a.len() as int));
        } else {
            assert(b =~= a.subrange(0, b.len() as int));
        }
    }
    true
}

/// Two paths overlap in either order.
pub proof fn lemma_overlap_symmetric(first: Seq<Seq<u8>>, second: Seq<Seq<u8>>)
    ensures
        overlapping(first, second) == overlapping(second, first),
        overlapping(first, first),
{
    assert(first =~= first.subrange(0, first.len() as int));
}

/// Decides whether a backup may go to a directory: it may not overlap the database directory.
pub fn validate_backup_directory(database: &[Vec<u8>], backup: &[Vec<u8>]) -> (result: Result<
    (),
    FilesystemError,
>)
    ensures
        result == (if overlapping(component_views(database@), component_views(backup@)) {
            Err::<(), FilesystemError>(FilesystemError::Backup)
        } else {
            Ok::<(), FilesystemError>(())
        }),
{
    if paths_overlap(database, backup) {
        return Err(FilesystemError::Backup);
    }
    Ok(())
}

/// Decides whether a backup may be imported into a directory: the directory has a path, both paths
/// could be normalized, and they do not overlap. `backup` and `target` are the normalized
/// components, absent where normalizing failed.
pub fn validate_import_database_directory(
    path: &[u8],
    backup: Option<Vec<Vec<u8>>>,
    target: Option<Vec<Vec<u8>>>,
) -> (result: Result<(), FilesystemError>)
    ensures
        result == (if path@.len() == 0 {
            Err::<(), FilesystemError>(FilesystemError::Import)
        } else if backup is None {
            Err::<(), FilesystemError>(FilesystemError::Integrity)
        } else if target is None {
            Err::<(), FilesystemError>(FilesystemError::Import)
        } else if overlapping(component_views(target->0@), component_views(backup->0@)) {
            Err::<(), FilesystemError>(FilesystemError::Import)
        } else {
            Ok::<(), FilesystemError>(())
        }),
{
    if path.len() == 0 {
        return Err(FilesystemError::Import);
    }
    match backup {
        None => Err(FilesystemError::Integrity),
        Some(backup) => match target {
            None => Err(FilesystemError::Import),
            Some(target) => {
                if paths_overlap(target.as_slice(), backup.as_slice()) {
                    return Err(FilesystemError::Import);
                }
                Ok(())
            },
        },
    }
}

/// One component of a path that is being normalized.
#[derive(Debug, PartialEq, Eq)]
pub enum PathComponent {
    /// The root directory.
    Root,
    /// The directory itself.
    Current,
    /// The directory above.
    Parent,
    /// A name below.
    Normal(Vec<u8>),
}

/// What to do after one component.
#[derive(Debug, PartialEq, Eq)]
pub enum NormalizeStep {
    /// The path so far.
    Settled(Vec<Vec<u8>>),
    /// A candidate that the file system may know under another path; where it does not, the
    /// candidate is the path so far.
    Resolve(Vec<Vec<u8>>),
}

/// Takes one component into account: the root starts over, `.` changes nothing, `..` drops the last
/// name, and a name is added and resolved.
pub fn normalize_component(normalized: Vec<Vec<u8>>, component: PathComponent) -> (step:
    NormalizeStep)
    ensures
        match component {
            PathComponent::Root => step matches NormalizeStep::Settled(path) && path@.len() == 0,
            PathComponent::Current => step == NormalizeStep::Settled(normalized),
            PathComponent::Parent => step matches NormalizeStep::Settled(path) && path@ == (
            if normalized@.len() == 0 {
                normalized@
            } else {
                normalized@.drop_last()
            }),
            PathComponent::Normal(name) => step matches NormalizeStep::Resolve(path) && path@
                == normalized@.push(name),
        },
{
    let mut path = normalized;
    match component {
        PathComponent::Root => NormalizeStep::Settled(Vec::new()),
        PathComponent::Current => NormalizeStep::Settled(path),
        PathComponent::Parent => {
            let ghost before = path@;
            let _ = path.pop();
            proof {
                assert(before.len() > 0 ==> path@ =~= before.drop_last());
            }
            NormalizeStep::Settled(path)
        },
        PathComponent::Normal(name) => {
            path.push(name);
            NormalizeStep::Resolve(path)
        },
    }
}

/// Where the replacement of a database directory stands.
#[derive(Clone, Copy, Debug, PartialEq, Eq)]
pub enum Replacement {
    /// The old directory is being moved away.
    MovingOld,
    /// The restored directory is being moved in.
    MovingNew,
    /// The old directory is being moved back.
    RollingBack,
    /// The old directory is being removed.
    RemovingOld,
    /// Nothing is left to do.
    Finished(Result<(), FilesystemError>),
}

/// Starts the replacement: only a target that exists is moved away.
pub fn start_replacement(target_exists: bool) -> (state: Replacement)
    ensures
        state == (if target_exists {
            Replacement::MovingOld
        } else {
            Replacement::MovingNew
        }),
{
    if target_exists {
        Replacement::MovingOld
    } else {
        Replacement::MovingNew
    }
}

/// What follows a step of the replacement that did or did not succeed.
pub open spec fn replacement_after(
    state: Replacement,
    succeeded: bool,
    old_exists: bool,
) -> Replacement {
    match state {
        Replacement::MovingOld => if succeeded {
            Replacement::MovingNew
        } else {
            Replacement::Finished(Err(FilesystemError::Import))
        },
        Replacement::MovingNew => if succeeded {
            Replacement::RemovingOld
        } else if old_exists {
            Replacement::RollingBack
        } else {
            Replacement::Finished(Err(FilesystemError::Import))
        },
        Replacement::RollingBack => Replacement::Finished(Err(FilesystemError::Import)),
        Replacement::RemovingOld => if succeeded {
            Replacement::Finished(Ok(()))
        } else {
            Replacement::Finished(Err(FilesystemError::Import))
        },
        Replacement::Finished(result) => Replacement::Finished(result),
    }
}

/// Decides what follows a step of the replacement; `old_exists` says whether the old directory is
/// still in the place it was moved to.
pub fn next_replacement(state: Replacement, succeeded: bool, old_exists: bool) -> (next: Replacement)
    ensures
        next == replacement_after(state, succeeded, old_exists),
{
    match state {
        Replacement::MovingOld => {
            if succeeded {
                Replacement::MovingNew
            } else {
                Replacement::Finished(Err(FilesystemError::Import))
            }
        },
        Replacement::MovingNew => {
            if succeeded {
                Replacement::RemovingOld
            } else if old_exists {
                Replacement::RollingBack
            } else {
                Replacement::Finished(Err(FilesystemError::Import))
            }
        },
        Replacement::RollingBack => Replacement::Finished(Err(FilesystemError::Import)),
        Replacement::RemovingOld => {
            if succeeded {
                Replacement::Finished(Ok(()))
            } else {
                Replacement::Finished(Err(FilesystemError::Import))
            }
        },
        Replacement::Finished(result) => Replacement::Finished(result),
    }
}

/// When the restored directory cannot be moved in and the old one is still there, the old one is
/// moved back and the import fails, whether or not that succeeds.
pub proof fn lemma_failed_replacement_rolls_back(succeeded: bool, old_exists: bool)
    ensures
        replacement_after(Replacement::MovingNew, false, true) == Replacement::RollingBack,
        replacement_after(Replacement::RollingBack, succeeded, old_exists) == Replacement::Finished(
            Err(FilesystemError::Import),
        ),
{
}

/// An import ends well only by removing the old directory, which is only done after the restored one was
/// moved in, which is only tried after the old one was moved away. What has ended stays as it is.
pub proof fn lemma_replacement_in_order(state: Replacement, succeeded: bool, old_exists: bool)
    ensures
        replacement_after(state, succeeded, old_exists) == Replacement::Finished(Ok(())) ==> state
            == Replacement::Finished(Ok(())) || (state == Replacement::RemovingOld && succeeded),
        replacement_after(state, succeeded, old_exists) == Replacement::RemovingOld ==> state
            == Replacement::MovingNew && succeeded,
        replacement_after(state, succeeded, old_exists) == Replacement::MovingNew ==> state
            == Replacement::MovingOld && succeeded,
        replacement_after(state, succeeded, old_exists) != Replacement::MovingOld,
        state is Finished ==> replacement_after(state, succeeded, old_exists) == state,
        succeeded && state == Replacement::MovingOld ==> replacement_after(
            state,
            succeeded,
            old_exists,
        ) == Replacement::MovingNew,
        succeeded && state == Replacement::MovingNew ==> replacement_after(
            state,
            succeeded,
            old_exists,
        ) == Replacement::RemovingOld,
        succeeded && state == Replacement::RemovingOld ==> replacement_after(
            state,
            succeeded,
            old_exists,
        ) == Replacement::Finished(Ok(())),
{
}

} // verus!
