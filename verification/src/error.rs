//! Failure taxonomy of the store: lookups that do not resolve and key
//! conflicts.  Lock handling and storage faults of the surrounding process
//! stay outside the library.

use vstd::prelude::*;

verus! {

/// Why a store operation could not be carried out.
#[derive(Clone, Copy, PartialEq, Eq, Structural, Debug)]
pub enum AppError {
    /// A task id did not resolve to a stored task.
    TaskNotFound,
    /// A category id did not resolve to a stored category.
    CategoryNotFound,
    /// An insert would have reused an id that is already stored.
    DuplicateId,
}

impl AppError {
    /// The human-readable message that crosses the boundary to the shell.
    pub fn message(&self) -> (r: &'static str)
        ensures
            r@ == self.spec_message(),
    {
        match self {
            AppError::TaskNotFound => "Task not found",
            AppError::CategoryNotFound => "Category not found",
            AppError::DuplicateId => "Duplicate id",
        }
    }

    pub open spec fn spec_message(self) -> Seq<char> {
        match self {
            AppError::TaskNotFound => "Task not found"@,
            AppError::CategoryNotFound => "Category not found"@,
            AppError::DuplicateId => "Duplicate id"@,
        }
    }
}

} // verus!
