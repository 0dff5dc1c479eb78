use vstd::prelude::*;

verus! {

/// The failure classes that repository operations report.
#[derive(Clone, Copy, Debug, PartialEq, Eq, Structural)]
pub enum RepoError {
    /// A missing object, ref, path or repository.
    NotFound,
    /// A branch or tag name that is already taken.
    AlreadyExists,
    /// Malformed HEAD, index line, tree row or ignore pattern.
    InvalidData,
    /// The working tree differs from the index or from HEAD.
    DirtyWorkingTree,
    /// An operation that needs HEAD attached to a branch found it detached.
    DetachedHeadForbidden,
    /// A three-way merge left at least one conflicted entry.
    MergeConflict,
    /// The filesystem failed underneath an operation.
    Io,
}

} // verus!
