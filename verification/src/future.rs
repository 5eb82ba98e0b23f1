//! Handles on spawned tasks: a join handle awaits a task's result, an abort handle only refers to
//! the task. Whether a task finished is read from the runtime's task states.
use vstd::prelude::*;
use crate::task::{TaskId, TaskState};
use crate::task_manager::TaskManager;
use crate::errors::JoinError;

verus! {

/// A permission to abort a spawned task without awaiting it.
#[derive(Clone, Copy, Debug, PartialEq, Eq, Structural)]
pub struct AbortHandle {
    task_id: TaskId,
}

impl AbortHandle {
    /// The task the handle refers to.
    pub closed spec fn task(&self) -> TaskId {
        self.task_id
    }

    /// Whether the task finished.
    pub fn is_finished(&self, tasks: &TaskManager) -> (r: bool)
        requires
            self.task().0 < tasks.tasks().len(),
        ensures
            r == (tasks.tasks()[self.task().0 as int].0 == TaskState::Finished),
    {
        tasks.state(self.task_id) == TaskState::Finished
    }
}

/// A permission to await a spawned task's result.
#[derive(Debug)]
pub struct JoinHandle<T> {
    task_id: TaskId,
    result: Option<Result<T, JoinError>>,
}

impl<T> JoinHandle<T> {
    /// The task the handle refers to.
    pub closed spec fn task(&self) -> TaskId {
        self.task_id
    }

    /// The result the task published and that was not yet taken.
    pub closed spec fn result(&self) -> Option<Result<T, JoinError>> {
        self.result
    }

    /// A handle on task `task_id`, which has published no result yet.
    pub fn new(task_id: TaskId) -> (r: JoinHandle<T>)
        ensures
            r.task() == task_id,
            r.result() is None,
    {
        JoinHandle { task_id, result: None }
    }

    /// Whether the task finished.
    pub fn is_finished(&self, tasks: &TaskManager) -> (r: bool)
        requires
            self.task().0 < tasks.tasks().len(),
        ensures
            r == (tasks.tasks()[self.task().0 as int].0 == TaskState::Finished),
    {
        tasks.state(self.task_id) == TaskState::Finished
    }

    /// A handle that can abort the same task.
    pub fn abort_handle(&self) -> (r: AbortHandle)
        ensures
            r.task() == self.task(),
    {
        AbortHandle { task_id: self.task_id }
    }

    /// The task publishes its result.
    pub fn publish(&mut self, result: Result<T, JoinError>)
        ensures
            final(self).task() == old(self).task(),
            final(self).result() == Some(result),
    {
        self.result = Some(result);
    }

    /// Polls for the result: it is taken if the task published it; otherwise the awaiting task
    /// waits to be woken.
    pub fn poll(&mut self) -> (r: Option<Result<T, JoinError>>)
        ensures
            r == old(self).result(),
            final(self).result() is None,
            final(self).task() == old(self).task(),
    {
        self.result.take()
    }
}

} // verus!
