//! What happens to a comment whose parent is missing.

use vstd::prelude::*;

verus! {

/// What to do with an orphan: a comment that names a parent which is not
/// among the comments that came before it, or that names itself.
#[derive(Clone, Copy, Debug, PartialEq, Eq, Hash)]
pub enum OrphanPolicy {
    /// Refuse the whole input with [`TreeError::MissingParent`].
    Fail,
    /// Make the orphan a top-level comment.
    Promote,
    /// Leave the orphan, and every reply below it, out of the forest.
    Drop,
}

/// Why a forest could not be built.
#[derive(Clone, Copy, Debug, PartialEq, Eq, Hash)]
pub enum TreeError {
    /// The comment `id` names the parent `parent`, under which it cannot
    /// hang: no earlier comment has that identifier, or it is its own.
    MissingParent { id: i32, parent: i32 },
}

} // verus!
