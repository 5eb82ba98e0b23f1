use vstd::prelude::*;

verus! {

/// Identifier of a task. Task ids are allocated densely from zero.
#[derive(Clone, Copy, Debug, PartialEq, Eq, Hash, PartialOrd, Ord, Structural)]
pub struct TaskId(pub usize);

impl TaskId {
    /// The task id as an index.
    pub fn as_usize(self) -> (r: usize)
        ensures
            r == self.0,
    {
        self.0
    }
}

impl From<usize> for TaskId {
    fn from(id: usize) -> (r: TaskId) {
        TaskId(id)
    }
}

impl vstd::std_specs::convert::FromSpecImpl<usize> for TaskId {
    open spec fn obeys_from_spec() -> bool {
        true
    }

    open spec fn from_spec(v: usize) -> TaskId {
        TaskId(v)
    }
}

impl From<TaskId> for usize {
    fn from(id: TaskId) -> (r: usize) {
        id.0
    }
}

impl vstd::std_specs::convert::FromSpecImpl<TaskId> for usize {
    open spec fn obeys_from_spec() -> bool {
        true
    }

    open spec fn from_spec(v: TaskId) -> usize {
        v.0
    }
}

/// The scheduling state of a task.
#[derive(Clone, Copy, Debug, PartialEq, Eq, Structural)]
pub enum TaskState {
    Runnable,
    Blocked { allow_spurious_wakeups: bool },
    Sleeping,
    Finished,
}

} // verus!
