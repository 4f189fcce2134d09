//! Mount configuration and the synchronization policy that follows from it.

use vstd::prelude::*;

use crate::error::ConfigurationError;

verus! {

/// FUSE mount option.
#[derive(Clone, Debug, PartialEq, Eq, Hash)]
pub enum MountOption {
    /// Sets the filesystem name shown by the mount.
    FilesystemName(String),
    /// Sets the filesystem subtype shown by the mount.
    Subtype(String),
    /// Passes a custom mount option string.
    Custom(String),
    /// Automatically unmounts when the mounting process exits.
    AutoUnmount,
    /// Mounts the filesystem read-only.
    ReadOnly,
    /// Mounts the filesystem read-write.
    ReadWrite,
    /// Supports inode access time.
    Atime,
    /// Does not update inode access time.
    NoAtime,
    /// Performs directory modifications synchronously.
    DirSync,
    /// Performs all I/O synchronously.
    Sync,
    /// Performs all I/O asynchronously.
    Async,
}

/// Configuration required to open and mount a filesystem. Paths are the bytes of the path; a
/// failure callback is known by the number that it was registered under.
#[derive(Clone, Debug, PartialEq, Eq)]
pub struct FilesystemConfiguration {
    /// Directory of the database.
    pub database_directory: Vec<u8>,
    /// Directory to mount at.
    pub mount_point: Vec<u8>,
    /// Additional mount options, in order.
    pub mount_options: Vec<MountOption>,
    /// Whether a failure callback is configured.
    pub fuse_error_callback: bool,
    /// The number of the configured callback, zero where there is none.
    pub callback_number: u64,
}

/// Rejects an empty path.
pub fn validate_configuration_path(path: &[u8]) -> (result: Result<(), ConfigurationError>)
    ensures
        path@.len() == 0 ==> result == Err::<(), ConfigurationError>(
            ConfigurationError::EmptyValue,
        ),
        path@.len() > 0 ==> result == Ok::<(), ConfigurationError>(()),
{
    if path.len() == 0 {
        return Err(ConfigurationError::EmptyValue);
    }
    Ok(())
}

impl FilesystemConfiguration {
    /// Creates a filesystem configuration and rejects empty paths.
    pub fn new(database_directory: Vec<u8>, mount_point: Vec<u8>) -> (configuration: Result<
        Self,
        ConfigurationError,
    >)
        ensures
            database_directory@.len() == 0 || mount_point@.len() == 0 ==> configuration == Err::<
                Self,
                ConfigurationError,
            >(ConfigurationError::EmptyValue),
            database_directory@.len() > 0 && mount_point@.len() > 0 ==> {
                &&& configuration matches Ok(value)
                &&& value.database_directory == database_directory
                &&& value.mount_point == mount_point
                &&& value.mount_options@.len() == 0
                &&& !value.fuse_error_callback
                &&& value.callback_number == 0
            },
    {
        match validate_configuration_path(database_directory.as_slice()) {
            Err(error) => return Err(error),
            Ok(_) => {},
        }
        match validate_configuration_path(mount_point.as_slice()) {
            Err(error) => return Err(error),
            Ok(_) => {},
        }
        Ok(
            FilesystemConfiguration {
                database_directory,
                mount_point,
                mount_options: Vec::new(),
                fuse_error_callback: false,
                callback_number: 0,
            },
        )
    }

    /// Configures additional FUSE mount options, in place of those configured before.
    pub fn with_mount_options(self, mount_options: Vec<MountOption>) -> (configuration: Self)
        ensures
            configuration == (FilesystemConfiguration { mount_options, ..self }),
    {
        let mut configuration = self;
        configuration.mount_options = mount_options;
        configuration
    }

    /// Configures a callback invoked after failed or unsupported FUSE operations.
    pub fn with_fuse_error_callback(self, callback: u64) -> (configuration: Self)
        ensures
            configuration == (FilesystemConfiguration {
                fuse_error_callback: true,
                callback_number: callback,
                ..self
            }),
    {
        let mut configuration = self;
        configuration.fuse_error_callback = true;
        configuration.callback_number = callback;
        configuration
    }

    /// Returns the database directory.
    pub fn database_directory(&self) -> (path: &[u8])
        ensures
            path@ == self.database_directory@,
    {
        self.database_directory.as_slice()
    }

    /// Returns the mount point.
    pub fn mount_point(&self) -> (path: &[u8])
        ensures
            path@ == self.mount_point@,
    {
        self.mount_point.as_slice()
    }

    /// Returns the mount options.
    pub fn mount_options(&self) -> (options: &[MountOption])
        ensures
            options@ == self.mount_options@,
    {
        self.mount_options.as_slice()
    }

    /// Returns the number of the configured failure callback.
    pub fn fuse_error_callback(&self) -> (callback: Option<u64>)
        ensures
            callback == (if self.fuse_error_callback { Some(self.callback_number) } else { None }),
    {
        if self.fuse_error_callback {
            Some(self.callback_number)
        } else {
            None
        }
    }
}

/// Two optional callbacks are equal: both absent, or the same one.
pub fn fuse_error_callbacks_equal(left: Option<u64>, right: Option<u64>) -> (equal: bool)
    ensures
        equal == (left == right),
{
    match (left, right) {
        (None, None) => true,
        (Some(a), Some(b)) => a == b,
        _ => false,
    }
}

/// The mount is synchronous: of the options that decide, the last one asks for it.
pub open spec fn mount_synchronous(options: Seq<MountOption>) -> bool
    decreases options.len(),
{
    if options.len() == 0 {
        false
    } else {
        match options.last() {
            MountOption::Sync => true,
            MountOption::Async => false,
            _ => mount_synchronous(options.drop_last()),
        }
    }
}

/// Directory changes are synchronous.
pub open spec fn directory_synchronous(options: Seq<MountOption>) -> bool {
    mount_synchronous(options) || options.contains(MountOption::DirSync)
}

/// Tells whether all changes must reach the disk before they are answered.
pub fn mount_synchronization_required(options: &[MountOption]) -> (required: bool)
    ensures
        required == mount_synchronous(options@),
{
    let mut required = false;
    let mut i: usize = 0;
    while i < options.len()
        invariant
            i <= options.len(),
            required == mount_synchronous(options@.take(i as int)),
        decreases options.len() - i,
    {
        proof {
            assert(options@.take(i + 1).drop_last() =~= options@.take(i as int));
        }
        match &options[i] {
            MountOption::Sync => {
                required = true;
            },
            MountOption::Async => {
                required = false;
            },
            _ => {},
        }
        i = i + 1;
    }
    proof {
        assert(options@.take(i as int) =~= options@);
    }
    required
}

/// Tells whether directory changes must reach the disk before they are answered.
pub fn directory_synchronization_required(options: &[MountOption]) -> (required: bool)
    ensures
        required == directory_synchronous(options@),
{
    if mount_synchronization_required(options) {
        return true;
    }
    let mut i: usize = 0;
    while i < options.len()
        invariant
            i <= options.len(),
            forall|j: int| 0 <= j < i ==> options@[j] != MountOption::DirSync,
        decreases options.len() - i,
    {
        match &options[i] {
            MountOption::DirSync => {
                proof {
                    assert(options@[i as int] == MountOption::DirSync);
                }
                return true;
            },
            _ => {},
        }
        i = i + 1;
    }
    false
}

/// The `O_DSYNC` open flag.
pub const O_DSYNC: i32 = 0o10000;

/// The `O_SYNC` open flag.
pub const O_SYNC: i32 = 0o4010000;

/// Open flags ask for synchronous writes.
pub open spec fn flags_synchronous(flags: i32) -> bool {
    flags & (O_SYNC | O_DSYNC) != 0
}

/// Tells whether open flags ask for synchronous writes.
pub fn open_flags_synchronous(flags: i32) -> (synchronous: bool)
    ensures
        synchronous == flags_synchronous(flags),
{
    flags & (O_SYNC | O_DSYNC) != 0
}

/// Tells whether a write must reach the disk before it is answered: because of the mount, of the
/// flags of the write, or of the flags that its handle was opened with.
pub fn write_synchronization_required(
    options: &[MountOption],
    flags: i32,
    handle_flags: Option<i32>,
) -> (required: bool)
    ensures
        required == (mount_synchronous(options@) || flags_synchronous(flags) || (handle_flags is Some
            && flags_synchronous(handle_flags->0))),
{
    if mount_synchronization_required(options) || open_flags_synchronous(flags) {
        return true;
    }
    match handle_flags {
        Some(opened) => open_flags_synchronous(opened),
        None => false,
    }
}

/// Of several options that ask for and against synchronous changes, the last one counts; without any,
/// changes are not synchronous.
pub proof fn lemma_last_option_counts(options: Seq<MountOption>, i: int)
    requires
        -1 <= i < options.len(),
        forall|j: int|
            i < j < options.len() ==> (#[trigger] options[j]) != MountOption::Sync && options[j]
                != MountOption::Async,
    ensures
        i >= 0 && options[i] == MountOption::Sync ==> mount_synchronous(options),
        i >= 0 && options[i] == MountOption::Async ==> !mount_synchronous(options),
        i == -1 ==> !mount_synchronous(options),
    decreases options.len(),
{
    if i < options.len() - 1 {
        assert(options[options.len() - 1] == options.last());
        assert forall|j: int| i < j < options.drop_last().len() implies (
        #[trigger] options.drop_last()[j]) != MountOption::Sync && options.drop_last()[j]
            != MountOption::Async by {
            assert(options.drop_last()[j] == options[j]);
        }
        lemma_last_option_counts(options.drop_last(), i);
    }
}

/// Changes of directories are synchronous where all changes are, or where one option asks for it.
pub proof fn lemma_directories_are_synchronous(options: Seq<MountOption>, i: int)
    requires
        0 <= i < options.len(),
    ensures
        options[i] == MountOption::DirSync ==> directory_synchronous(options),
        mount_synchronous(options) ==> directory_synchronous(options),
        directory_synchronous(options) && !mount_synchronous(options) ==> exists|j: int|
            0 <= j < options.len() && (#[trigger] options[j]) == MountOption::DirSync,
{
}

/// Open flags ask for synchronous writes by either of two bits.
pub proof fn lemma_synchronous_flags(flags: i32)
    ensures
        flags_synchronous(flags) <==> flags & 0o10000 != 0 || flags & 0o4000000 != 0,
{
    assert(flags & (0o4010000i32 | 0o10000i32) != 0 <==> flags & 0o10000i32 != 0 || flags
        & 0o4000000i32 != 0) by (bit_vector);
}

} // verus!
