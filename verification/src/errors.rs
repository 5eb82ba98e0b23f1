//! Errors reported by tasks and by the runtime's bookkeeping.
use vstd::prelude::*;

verus! {

/// Why a task failed to run to completion.
#[derive(Clone, Copy, Debug, PartialEq, Eq, Structural)]
pub enum JoinError {
    /// The task was aborted.
    Cancelled,
}

impl JoinError {
    /// The message that describes the error.
    pub fn message(&self) -> (r: String)
        ensures
            r@ == "task was cancelled"@,
    {
        match self {
            JoinError::Cancelled => String::from_str("task was cancelled"),
        }
    }
}

/// Why the state of the current execution could not be borrowed.
#[derive(Clone, Copy, Debug, PartialEq, Eq, Hash, Structural)]
pub enum ExecutionStateBorrowError {
    /// No execution is running.
    NotSet,
    /// The state is already borrowed.
    AlreadyBorrowed,
}

/// A task-local value was accessed after it was destroyed.
#[derive(Clone, Copy, Debug, PartialEq, Eq, Structural)]
#[non_exhaustive]
pub struct AccessError;

impl AccessError {
    /// The message that describes the error.
    pub fn message(&self) -> (r: String)
        ensures
            r@ == "already destroyed"@,
    {
        String::from_str("already destroyed")
    }
}

} // verus!
