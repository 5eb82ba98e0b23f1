//! A scheduler that wraps another so that the schedule it produces can be annotated for
//! inspection. Recording the annotations is the caller's part; the wrapper passes every choice of
//! the inner scheduler through unchanged.
use vstd::prelude::*;
use crate::task::TaskId;
use crate::schedule::{Schedule, ScheduleView};
use crate::scheduler::{Scheduler, Task, has_task};

verus! {

/// A scheduler that wraps `S` and makes the same choices.
pub struct AnnotationScheduler<S: Scheduler>(S);

impl<S: Scheduler> AnnotationScheduler<S> {
    /// The wrapped scheduler.
    pub closed spec fn inner(&self) -> S {
        self.0
    }

    /// Wraps `inner`.
    pub fn new(inner: S) -> (r: AnnotationScheduler<S>)
        ensures
            r.inner() == inner,
    {
        AnnotationScheduler(inner)
    }
}

impl<S: Scheduler> Scheduler for AnnotationScheduler<S> {
    closed spec fn wf(&self) -> bool {
        self.0.wf()
    }

    open spec fn can_choose(&self, runnable: Seq<Task>, current: Option<TaskId>, is_yielding: bool) -> bool {
        self.inner().can_choose(runnable, current, is_yielding)
    }

    open spec fn can_draw(&self) -> bool {
        self.inner().can_draw()
    }

    open spec fn can_start(&self) -> bool {
        self.inner().can_start()
    }

    /// The execution the inner scheduler begins.
    open spec fn new_execution_gives(&self, r: Option<ScheduleView>) -> bool {
        self.inner().new_execution_gives(r)
    }

    /// The inner scheduler's choice.
    open spec fn next_task_gives(&self, runnable: Seq<Task>, current: Option<TaskId>, is_yielding: bool, r: Option<TaskId>) -> bool {
        self.inner().next_task_gives(runnable, current, is_yielding, r)
    }

    /// The inner scheduler's value.
    open spec fn next_u64_gives(&self, r: u64) -> bool {
        self.inner().next_u64_gives(r)
    }

    fn new_execution(&mut self) -> (r: Option<Schedule>) {
        self.0.new_execution()
    }

    fn next_task(&mut self, runnable: &[Task], current: Option<TaskId>, is_yielding: bool) -> (r: Option<TaskId>) {
        self.0.next_task(runnable, current, is_yielding)
    }

    fn next_u64(&mut self) -> (r: u64) {
        self.0.next_u64()
    }
}

} // verus!
