//! The errors of the library.
use vstd::prelude::*;

verus! {

/// `std::io::Error`, carried through as an opaque value: nothing is claimed
/// of it.
#[verifier::external_type_specification]
#[verifier::external_body]
pub struct ExIoError(std::io::Error);

/// Errors that can occur in git-perms.
#[derive(Debug)]
pub enum Error {
    /// Not a git repository (or any parent up to mount point).
    NotAGitRepo,
    /// A git command failed; the text says how.
    GitCommandFailed(String),
    /// A line of `.gitperms` could not be read.
    ParseError { line: usize, reason: String },
    /// Reading or writing a file failed.
    Io(std::io::Error),
    /// A hook of that name exists and was not installed by git-perms.
    HookExists(String),
}

} // verus!
