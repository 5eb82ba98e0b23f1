//! A scheduler that runs tasks in turn: at each scheduling point, the next runnable task after
//! the current one in id order, wrapping around to the first.
use vstd::prelude::*;
use crate::task::TaskId;
use crate::schedule::{Schedule, ScheduleView};
use crate::pcg::pcg_value;
use crate::scheduler::{Scheduler, Task, DataSource, RandomDataSource, has_task};

verus! {

/// Index of the first runnable task, from index `from` on, whose id is above `current`.
pub open spec fn first_after(runnable: Seq<Task>, current: TaskId, from: int) -> Option<int>
    decreases runnable.len() - from,
{
    if from < 0 || from >= runnable.len() {
        None
    } else if runnable[from].id.0 > current.0 {
        Some(from)
    } else {
        first_after(runnable, current, from + 1)
    }
}

/// The task the round-robin order picks: the first runnable task after the current one, or the
/// first runnable task when there is none after it or no current task.
pub open spec fn round_robin_choice(runnable: Seq<Task>, current: Option<TaskId>) -> TaskId {
    match current {
        None => runnable[0].id,
        Some(c) => match first_after(runnable, c, 0) {
            Some(i) => runnable[i].id,
            None => runnable[0].id,
        },
    }
}

proof fn lemma_first_after(runnable: Seq<Task>, current: TaskId, from: int)
    requires
        0 <= from,
    ensures
        first_after(runnable, current, from) matches Some(i) ==> from <= i < runnable.len() && runnable[i].id.0 > current.0,
    decreases runnable.len() - from,
{
    if from < runnable.len() && runnable[from].id.0 <= current.0 {
        lemma_first_after(runnable, current, from + 1);
    }
}

/// A scheduler that runs the runnable tasks in turn, for a given number of executions.
pub struct RoundRobinScheduler {
    iterations: usize,
    max_iterations: usize,
    data_source: RandomDataSource,
}

impl RoundRobinScheduler {
    /// A scheduler for up to `max_iterations` executions.
    pub fn new(max_iterations: usize) -> (r: RoundRobinScheduler)
        ensures
            r.wf(),
            r.iterations() == 0,
            r.max_iterations() == max_iterations,
            r.data_source().position() == (0u64, 0nat),
    {
        RoundRobinScheduler { iterations: 0, max_iterations, data_source: RandomDataSource::initialize(0) }
    }

    /// The number of executions started.
    pub closed spec fn iterations(&self) -> nat {
        self.iterations as nat
    }

    /// The number of executions to run.
    pub closed spec fn max_iterations(&self) -> nat {
        self.max_iterations as nat
    }

    /// The source of random values.
    pub closed spec fn data_source(&self) -> RandomDataSource {
        self.data_source
    }
}

impl Default for RoundRobinScheduler {
    fn default() -> (r: RoundRobinScheduler)
        ensures
            r.wf(),
            r.iterations() == 0,
            r.max_iterations() == 1,
    {
        RoundRobinScheduler::new(1)
    }
}

impl Scheduler for RoundRobinScheduler {
    closed spec fn wf(&self) -> bool {
        self.data_source.wf() && self.iterations <= self.max_iterations
    }

    open spec fn can_choose(&self, runnable: Seq<Task>, current: Option<TaskId>, is_yielding: bool) -> bool {
        runnable.len() > 0
    }

    open spec fn can_start(&self) -> bool {
        true
    }

    open spec fn can_draw(&self) -> bool {
        true
    }

    /// No execution once all executions are run; otherwise one that begins afresh from the seed the data
    /// source moves to.
    open spec fn new_execution_gives(&self, r: Option<ScheduleView>) -> bool {
        if self.iterations() >= self.max_iterations() {
            r is None
        } else {
            r matches Some(v) && v.seed == self.data_source().next_seed() && v.steps.len() == 0
        }
    }

    /// The next task after the current one, in id order.
    open spec fn next_task_gives(&self, runnable: Seq<Task>, current: Option<TaskId>, is_yielding: bool, r: Option<TaskId>) -> bool {
        r == Some(round_robin_choice(runnable, current))
    }

    /// The next value of the data source.
    open spec fn next_u64_gives(&self, r: u64) -> bool {
        r == pcg_value(self.data_source().position().0, self.data_source().position().1)
    }

    fn new_execution(&mut self) -> (r: Option<Schedule>)
        ensures
            r matches Some(s) ==> s.seed == old(self).data_source().next_seed()
                && final(self).data_source().position() == (s.seed, 0nat),
            r is None ==> final(self).data_source() == old(self).data_source(),
            old(self).iterations() < old(self).max_iterations() ==> (r matches Some(s) && s.steps@.len() == 0
                && final(self).iterations() == old(self).iterations() + 1),
            old(self).iterations() >= old(self).max_iterations() ==> r is None && final(self).iterations()
                == old(self).iterations(),
            final(self).max_iterations() == old(self).max_iterations(),
    {
        if self.iterations < self.max_iterations {
            self.iterations = self.iterations + 1;
            let seed = self.data_source.reinitialize();
            Some(Schedule::new(seed))
        } else {
            None
        }
    }

    fn next_task(&mut self, runnable: &[Task], current: Option<TaskId>, is_yielding: bool) -> (r: Option<TaskId>)
        ensures
            r == Some(round_robin_choice(runnable@, current)),
            final(self).iterations() == old(self).iterations(),
    {
        let first = runnable[0].id;
        proof {
            assert(runnable@[0].id == first);
            lemma_round_robin_choice(runnable@, current);
        }
        match current {
            None => Some(first),
            Some(c) => {
                let mut i: usize = 0;
                while i < runnable.len()
                    invariant
                        i <= runnable@.len(),
                        self.wf(),
                        self.iterations() == old(self).iterations(),
                        current == Some(c),
                        runnable@.len() > 0,
                        first_after(runnable@, c, 0) == first_after(runnable@, c, i as int),
                    decreases runnable@.len() - i,
                {
                    if runnable[i].id.0 > c.0 {
                        return Some(runnable[i].id);
                    }
                    i = i + 1;
                }
                Some(first)
            },
        }
    }

    fn next_u64(&mut self) -> (r: u64)
        ensures
            r == pcg_value(old(self).data_source().position().0, old(self).data_source().position().1),
            final(self).data_source().position() == (old(self).data_source().position().0,
                old(self).data_source().position().1 + 1),
            final(self).iterations() == old(self).iterations(),
    {
        self.data_source.next_u64()
    }
}

/// The round-robin choice is one of the runnable tasks, and the one after the current task when
/// some runnable task has a larger id.
pub proof fn lemma_round_robin_choice(runnable: Seq<Task>, current: Option<TaskId>)
    requires
        runnable.len() > 0,
    ensures
        has_task(runnable, round_robin_choice(runnable, current)),
        current matches Some(c) ==> (first_after(runnable, c, 0) is Some ==> round_robin_choice(runnable, current).0 > c.0),
{
    assert(runnable[0].id == runnable[0].id);
    match current {
        None => {},
        Some(c) => {
            lemma_first_after(runnable, c, 0);
            match first_after(runnable, c, 0) {
                Some(i) => {
                    assert(runnable[i].id == round_robin_choice(runnable, current));
                },
                None => {},
            }
        },
    }
}

} // verus!
