//! Recorded schedules: the sequence of scheduling decisions and random choices of one execution.
use vstd::prelude::*;
use crate::task::TaskId;

verus! {

/// One step of a schedule: either a context switch to a task, or the choice of a random value.
#[derive(Clone, Copy, Debug, PartialEq, Eq, Structural)]
pub enum ScheduleStep {
    Task(TaskId),
    Random,
}

/// A schedule: the seed of the random values handed to the program, and the steps taken.
#[derive(Clone, Debug, PartialEq, Eq, Default)]
pub struct Schedule {
    pub seed: u64,
    pub steps: Vec<ScheduleStep>,
}

/// The mathematical value of a schedule.
pub struct ScheduleView {
    pub seed: u64,
    pub steps: Seq<ScheduleStep>,
}

impl View for Schedule {
    type V = ScheduleView;

    open spec fn view(&self) -> ScheduleView {
        ScheduleView { seed: self.seed, steps: self.steps@ }
    }
}

impl Schedule {
    /// An empty schedule whose random values come from `seed`.
    pub fn new(seed: u64) -> (r: Schedule)
        ensures
            r.seed == seed,
            r.steps@ == Seq::<ScheduleStep>::empty(),
    {
        Schedule { seed, steps: Vec::new() }
    }

    /// Records a context switch to `task`.
    pub fn push_task(&mut self, task: TaskId)
        ensures
            final(self).seed == old(self).seed,
            final(self).steps@ == old(self).steps@.push(ScheduleStep::Task(task)),
    {
        self.steps.push(ScheduleStep::Task(task));
    }

    /// Records the choice of a random value.
    pub fn push_random(&mut self)
        ensures
            final(self).seed == old(self).seed,
            final(self).steps@ == old(self).steps@.push(ScheduleStep::Random),
    {
        self.steps.push(ScheduleStep::Random);
    }

    /// The number of steps.
    pub fn len(&self) -> (r: usize)
        ensures
            r == self.steps@.len(),
    {
        self.steps.len()
    }

    /// Whether the schedule has no steps.
    pub fn is_empty(&self) -> (r: bool)
        ensures
            r == (self.steps@.len() == 0),
    {
        self.steps.len() == 0
    }
}

/// The schedule of the execution running on a thread, kept apart from the rest of the execution's
/// state so that it can still be read, and reported, when that state cannot be reached.
#[derive(Debug, Default)]
pub struct CurrentSchedule {
    current_schedule: Schedule,
}

impl CurrentSchedule {
    /// The schedule recorded so far.
    pub closed spec fn view(&self) -> ScheduleView {
        self.current_schedule@
    }

    /// No schedule recorded yet: no steps, and the seed zero.
    pub fn new() -> (r: CurrentSchedule)
        ensures
            r.view() == (ScheduleView { seed: 0, steps: Seq::empty() }),
    {
        CurrentSchedule { current_schedule: Schedule::new(0) }
    }

    /// Starts recording from `schedule`, as an execution begins.
    pub fn init(&mut self, schedule: Schedule)
        ensures
            final(self).view() == schedule@,
    {
        self.current_schedule = schedule;
    }

    /// Records a context switch to `task` as the next step.
    pub fn push_task(&mut self, task: TaskId)
        ensures
            final(self).view() == (ScheduleView {
                steps: old(self).view().steps.push(ScheduleStep::Task(task)),
                ..old(self).view()
            }),
    {
        self.current_schedule.push_task(task);
    }

    /// Records the choice of a random value as the next step.
    pub fn push_random(&mut self)
        ensures
            final(self).view() == (ScheduleView {
                steps: old(self).view().steps.push(ScheduleStep::Random),
                ..old(self).view()
            }),
    {
        self.current_schedule.push_random();
    }

    /// The number of steps recorded.
    pub fn len(&self) -> (r: usize)
        ensures
            r == self.view().steps.len(),
    {
        self.current_schedule.len()
    }

    /// A copy of the schedule recorded so far.
    pub fn get_schedule(&self) -> (r: Schedule)
        ensures
            r@ == self.view(),
    {
        let mut steps: Vec<ScheduleStep> = Vec::new();
        let mut i: usize = 0;
        while i < self.current_schedule.steps.len()
            invariant
                i <= self.current_schedule.steps@.len(),
                steps@ == self.current_schedule.steps@.take(i as int),
            decreases self.current_schedule.steps@.len() - i,
        {
            steps.push(self.current_schedule.steps[i]);
            proof {
                assert(self.current_schedule.steps@.take(i + 1) =~= self.current_schedule.steps@.take(i as int).push(
                    self.current_schedule.steps@[i as int],
                ));
            }
            i = i + 1;
        }
        proof {
            assert(self.current_schedule.steps@.take(i as int) =~= self.current_schedule.steps@);
        }
        Schedule { seed: self.current_schedule.seed, steps }
    }
}

} // verus!
