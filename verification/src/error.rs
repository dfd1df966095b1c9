//! The error taxonomy shared by all directory operations.

use vstd::prelude::*;

verus! {

/// Errors during directory interaction.  All of them are non-fatal: the
/// operation that reports one leaves the tree and the working directory
/// unchanged.
#[derive(Clone, Copy, Debug, PartialEq, Eq, Structural)]
pub enum DirError {
    /// The separator character `/` occurred in a component name.
    SlashInName,
    /// A directory of the requested name already exists among the direct
    /// children of the target directory.
    DirExists,
    /// A traversal or directory change referenced a path component that does
    /// not name an existing child.
    InvalidChild,
}

impl DirError {
    /// A human-readable description of the error.
    pub fn message(&self) -> (r: String)
        ensures
            *self == DirError::SlashInName ==> r@ == "slash in name is invalid"@,
            *self == DirError::DirExists ==> r@ == "directory exists"@,
            *self == DirError::InvalidChild ==> r@ == "invalid element in path"@,
    {
        match self {
            DirError::SlashInName => "slash in name is invalid".to_owned(),
            DirError::DirExists => "directory exists".to_owned(),
            DirError::InvalidChild => "invalid element in path".to_owned(),
        }
    }
}

} // verus!
