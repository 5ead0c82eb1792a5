//! Errors reported by a walk.

use std::io::Error as IoError;
use std::path::PathBuf;
use vstd::prelude::*;

verus! {

/// The standard library's I/O error, carried through the walker untouched.
#[verifier::external_type_specification]
#[verifier::external_body]
pub struct ExIoError(IoError);

/// The standard library's owned path, carried through the walker untouched.
#[verifier::external_type_specification]
#[verifier::external_body]
pub struct ExPathBuf(PathBuf);

/// Whether the kind of `error` is `PermissionDenied`.
pub uninterp spec fn io_error_denies_access(error: IoError) -> bool;

/// Whether `error` has kind `PermissionDenied`.
///
/// Calls `std::io::Error::kind`, whose answer depends on the error value alone,
/// and compares it with `ErrorKind::PermissionDenied`; the contract names that
/// answer [`io_error_denies_access`].
#[verifier::external_body]
fn kind_is_permission_denied(error: &IoError) -> (denied: bool)
    ensures
        denied == io_error_denies_access(*error),
{
    error.kind() == std::io::ErrorKind::PermissionDenied
}

/// An I/O operation that failed, together with the path it was applied to.
#[derive(Debug)]
pub struct IoFailure {
    /// The error the operating system reported.
    pub error: IoError,
    /// The path the failed operation was applied to.
    pub path: PathBuf,
    /// Whether the error says that access was denied.
    pub permission_denied: bool,
}

impl IoFailure {
    /// Records that the operation on `path` failed with `error`.
    pub fn new(error: IoError, path: PathBuf) -> (failure: IoFailure)
        ensures
            failure.error == error,
            failure.path == path,
            failure.permission_denied == io_error_denies_access(error),
    {
        let permission_denied = kind_is_permission_denied(&error);
        IoFailure { error, path, permission_denied }
    }

    /// Whether the error says that access was denied, read from the error itself.
    pub fn denies_access(&self) -> (denied: bool)
        ensures
            denied == io_error_denies_access(self.error),
    {
        kind_is_permission_denied(&self.error)
    }
}

/// Errors that can end or interrupt a step of the walk.
#[derive(Debug)]
pub enum WalkError {
    /// An I/O operation failed on the given path.
    Io(IoError, PathBuf),
    /// A symbolic link leads back to a directory the walk has already entered.
    LoopDetected(PathBuf),
}

impl From<IoFailure> for WalkError {
    /// Wraps a failed I/O operation as [`WalkError::Io`].
    fn from(failure: IoFailure) -> (err: Self) {
        WalkError::Io(failure.error, failure.path)
    }
}

impl vstd::std_specs::convert::FromSpecImpl<IoFailure> for WalkError {
    open spec fn obeys_from_spec() -> bool {
        true
    }

    open spec fn from_spec(failure: IoFailure) -> Self {
        WalkError::Io(failure.error, failure.path)
    }
}

} // verus!
