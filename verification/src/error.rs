//! The errors of the repository.

use vstd::prelude::*;

verus! {

/// The rule that a branch name breaks.
#[derive(Clone, Copy, Debug, PartialEq, Eq, Structural)]
pub enum NameError {
    /// The name is empty.
    Empty,
    /// The name is `.` or `..`.
    Dot,
    /// The name starts or ends with `/`.
    SlashAtEnd,
    /// The name holds `//`.
    DoubleSlash,
    /// The name holds `..`.
    DoubleDot,
    /// The name holds white space or one of `~ ^ : ? * [ \`.
    Forbidden,
    /// The name has more than 255 bytes.
    TooLong,
}

/// What can go wrong in the repository.
#[derive(Clone, Copy, Debug, PartialEq, Eq, Structural)]
pub enum Error {
    /// An object, a reference or a path is missing.
    NotFound,
    /// A branch name breaks a rule for names.
    InvalidName(NameError),
    /// A branch of that name is there already.
    AlreadyExists,
    /// A stored object does not have the form that its kind requires.
    Corrupt,
    /// The branch to delete is the one that is checked out.
    IsCurrentBranch,
}

} // verus!
