//! Errors of the public interface and of filesystem operations.

use vstd::prelude::*;

verus! {

/// Error returned by public configuration value constructors.
#[derive(Clone, Copy, Debug, PartialEq, Eq, Structural)]
pub enum ConfigurationError {
    /// A required path value was empty.
    EmptyValue,
    /// A required non-zero numeric value was zero.
    ZeroValue,
}

/// Error returned by filesystem operations.
#[derive(Clone, Copy, Debug, PartialEq, Eq, Structural)]
pub enum FilesystemError {
    /// A mounted filesystem operation failed.
    FilesystemOperation,
    /// A database operation failed.
    Database,
    /// Stored data or backup data failed an integrity check.
    Integrity,
    /// A backup operation failed.
    Backup,
    /// An import operation failed.
    Import,
}

impl ConfigurationError {
    /// The text that `message` returns.
    pub open spec fn text(self) -> Seq<char> {
        match self {
            ConfigurationError::EmptyValue => "configuration value must not be empty"@,
            ConfigurationError::ZeroValue => "configuration value must be non-zero"@,
        }
    }

    /// Describes the error.
    pub fn message(&self) -> (text: String)
        ensures
            text@ == self.text(),
    {
        match self {
            ConfigurationError::EmptyValue => "configuration value must not be empty".to_owned(),
            ConfigurationError::ZeroValue => "configuration value must be non-zero".to_owned(),
        }
    }
}

impl FilesystemError {
    /// The text that `message` returns.
    pub open spec fn text(self) -> Seq<char> {
        match self {
            FilesystemError::FilesystemOperation => "filesystem operation failed"@,
            FilesystemError::Database => "database operation failed"@,
            FilesystemError::Integrity => "integrity check failed"@,
            FilesystemError::Backup => "backup operation failed"@,
            FilesystemError::Import => "import operation failed"@,
        }
    }

    /// Describes the error.
    pub fn message(&self) -> (text: String)
        ensures
            text@ == self.text(),
    {
        match self {
            FilesystemError::FilesystemOperation => "filesystem operation failed".to_owned(),
            FilesystemError::Database => "database operation failed".to_owned(),
            FilesystemError::Integrity => "integrity check failed".to_owned(),
            FilesystemError::Backup => "backup operation failed".to_owned(),
            FilesystemError::Import => "import operation failed".to_owned(),
        }
    }
}

/// The error numbers that filesystem operations answer with.
#[derive(Clone, Copy, Debug, PartialEq, Eq, Structural)]
#[allow(non_camel_case_types)]
pub enum Errno {
    /// Operation not permitted.
    EPERM,
    /// No such file or directory.
    ENOENT,
    /// Input or output failed.
    EIO,
    /// Argument list too long.
    E2BIG,
    /// Try again.
    EAGAIN,
    /// Permission denied.
    EACCES,
    /// File exists.
    EEXIST,
    /// Not a directory.
    ENOTDIR,
    /// Is a directory.
    EISDIR,
    /// Invalid argument.
    EINVAL,
    /// Not a typewriter.
    ENOTTY,
    /// File too large.
    EFBIG,
    /// No space left on device.
    ENOSPC,
    /// Result out of range.
    ERANGE,
    /// File name too long.
    ENAMETOOLONG,
    /// Function not implemented.
    ENOSYS,
    /// Directory not empty.
    ENOTEMPTY,
    /// No such extended attribute.
    NO_XATTR,
    /// Value too large.
    EOVERFLOW,
    /// Operation not supported.
    ENOTSUP,
}

impl Errno {
    /// The positive Linux error number.
    pub open spec fn number(self) -> i32 {
        match self {
            Errno::EPERM => 1,
            Errno::ENOENT => 2,
            Errno::EIO => 5,
            Errno::E2BIG => 7,
            Errno::EAGAIN => 11,
            Errno::EACCES => 13,
            Errno::EEXIST => 17,
            Errno::ENOTDIR => 20,
            Errno::EISDIR => 21,
            Errno::EINVAL => 22,
            Errno::ENOTTY => 25,
            Errno::EFBIG => 27,
            Errno::ENOSPC => 28,
            Errno::ERANGE => 34,
            Errno::ENAMETOOLONG => 36,
            Errno::ENOSYS => 38,
            Errno::ENOTEMPTY => 39,
            Errno::NO_XATTR => 61,
            Errno::EOVERFLOW => 75,
            Errno::ENOTSUP => 95,
        }
    }

    /// Returns the positive Linux error number.
    pub fn code(&self) -> (code: i32)
        ensures
            code == self.number(),
    {
        match self {
            Errno::EPERM => 1,
            Errno::ENOENT => 2,
            Errno::EIO => 5,
            Errno::E2BIG => 7,
            Errno::EAGAIN => 11,
            Errno::EACCES => 13,
            Errno::EEXIST => 17,
            Errno::ENOTDIR => 20,
            Errno::EISDIR => 21,
            Errno::EINVAL => 22,
            Errno::ENOTTY => 25,
            Errno::EFBIG => 27,
            Errno::ENOSPC => 28,
            Errno::ERANGE => 34,
            Errno::ENAMETOOLONG => 36,
            Errno::ENOSYS => 38,
            Errno::ENOTEMPTY => 39,
            Errno::NO_XATTR => 61,
            Errno::EOVERFLOW => 75,
            Errno::ENOTSUP => 95,
        }
    }
}

/// Error of one mounted filesystem operation.
#[derive(Clone, Copy, Debug, PartialEq, Eq, Structural)]
pub enum FuseError {
    /// The operation is answered with this error number.
    Errno(Errno),
    /// The database failed.
    Database,
    /// Stored data failed an integrity check.
    Integrity,
}

impl FuseError {
    /// The error number that the operation is answered with.
    pub open spec fn answer(self) -> Errno {
        match self {
            FuseError::Errno(errno) => errno,
            FuseError::Database => Errno::EIO,
            FuseError::Integrity => Errno::EIO,
        }
    }

    /// Returns the error number that the operation is answered with; a failed database or integrity
    /// check is an input/output error.
    pub fn errno(&self) -> (errno: Errno)
        ensures
            errno == self.answer(),
    {
        match self {
            FuseError::Errno(errno) => *errno,
            FuseError::Database => Errno::EIO,
            FuseError::Integrity => Errno::EIO,
        }
    }
}

/// Turns a failure while reading stored data into the integrity error of an operation.
pub fn to_fuse_integrity<T>(result: Result<T, FilesystemError>) -> (mapped: Result<T, FuseError>)
    ensures
        mapped == fuse_integrity(result),
{
    match result {
        Ok(value) => Ok(value),
        Err(_) => Err(FuseError::Integrity),
    }
}

/// What `to_fuse_integrity` returns.
pub open spec fn fuse_integrity<T>(result: Result<T, FilesystemError>) -> Result<T, FuseError> {
    match result {
        Ok(value) => Ok(value),
        Err(_) => Err(FuseError::Integrity),
    }
}

/// Error context passed to configured operation failure callbacks.
#[derive(Clone, Copy, Debug, PartialEq, Eq)]
pub struct FuseOperationError {
    /// Name of the operation.
    pub operation: &'static str,
    /// Positive platform error number returned for it.
    pub errno: i32,
    /// The mapped public error.
    pub filesystem_error: FilesystemError,
    /// Whether the operation is explicitly unsupported.
    pub unsupported: bool,
}

impl FuseOperationError {
    /// Describes a failed operation; the mapped public error is always a failed filesystem
    /// operation.
    pub fn new(operation: &'static str, errno: Errno, unsupported: bool) -> (error: Self)
        ensures
            error.operation == operation,
            error.errno == errno.number(),
            error.filesystem_error == FilesystemError::FilesystemOperation,
            error.unsupported == unsupported,
    {
        FuseOperationError {
            operation,
            errno: errno.code(),
            filesystem_error: FilesystemError::FilesystemOperation,
            unsupported,
        }
    }

    /// Returns the FUSE operation name.
    pub fn operation(&self) -> (operation: &'static str)
        ensures
            operation == self.operation,
    {
        self.operation
    }

    /// Returns the positive platform errno returned to FUSE.
    pub fn errno(&self) -> (errno: i32)
        ensures
            errno == self.errno,
    {
        self.errno
    }

    /// Returns the mapped public filesystem error.
    pub fn filesystem_error(&self) -> (error: FilesystemError)
        ensures
            error == self.filesystem_error,
    {
        self.filesystem_error
    }

    /// Returns whether the operation is explicitly unsupported.
    pub fn is_unsupported(&self) -> (unsupported: bool)
        ensures
            unsupported == self.unsupported,
    {
        self.unsupported
    }
}

/// Different errors have different numbers, and all of them are positive.
pub proof fn lemma_numbers_differ(one: Errno, other: Errno)
    ensures
        one.number() > 0,
        one != other ==> one.number() != other.number(),
{
}

/// An operation that is refused with an error number is answered with that, and every failure of the
/// database or of an integrity check with an input/output error, which has the number five.
pub proof fn lemma_failures_are_answered(error: FuseError)
    ensures
        error matches FuseError::Errno(errno) ==> error.answer() == errno,
        error !is Errno ==> error.answer().number() == 5,
{
}

} // verus!
