//! A scheduler that picks a runnable task at random at each scheduling point. Each execution
//! draws a fresh seed from the data source, so that the execution can be replayed from it, and
//! reseeds its generator with it.
use vstd::prelude::*;
use rand_pcg::Mcg128Xsl64;
use crate::task::TaskId;
use crate::schedule::{Schedule, ScheduleView};
use crate::scheduler::{Scheduler, Task, DataSource, RandomDataSource, has_task};
use crate::pcg::{pcg_value, pcg_state, pcg_seeded, pcg_choose, pcg_from_seed, pcg_choose_task};

verus! {

/// A scheduler that chooses a random runnable task at each context switch, for a given number of
/// executions.
pub struct RandomScheduler {
    max_iterations: usize,
    rng: Mcg128Xsl64,
    iterations: usize,
    data_source: RandomDataSource,
    current_seed: Option<u64>,
}

impl RandomScheduler {
    /// A scheduler seeded with `seed`. Two schedulers with the same seed make the same choices
    /// on the same workload.
    pub fn new_from_seed(seed: u64, max_iterations: usize) -> (r: RandomScheduler)
        ensures
            r.wf(),
            r.iterations() == 0,
            r.max_iterations() == max_iterations,
            r.data_source().position() == (seed, 0nat),
            r.data_source().is_fresh(),
            r.current_seed() is None,
            r.rng_state() == pcg_seeded(seed),
    {
        RandomScheduler {
            max_iterations,
            rng: pcg_from_seed(seed),
            iterations: 0,
            data_source: RandomDataSource::initialize(seed),
            current_seed: None,
        }
    }

    /// The number of executions started.
    pub closed spec fn iterations(&self) -> nat {
        self.iterations as nat
    }

    /// The number of executions to run.
    pub closed spec fn max_iterations(&self) -> nat {
        self.max_iterations as nat
    }

    /// The source of random values.
    pub closed spec fn data_source(&self) -> RandomDataSource {
        self.data_source
    }

    /// The seed of the execution under way, if one is.
    pub closed spec fn current_seed(&self) -> Option<u64> {
        self.current_seed
    }

    /// The state of the generator that picks tasks.
    pub closed spec fn rng_state(&self) -> u128 {
        pcg_state(self.rng)
    }

    /// The seed of the execution under way, which replays it; `None` once the executions are over.
    pub fn seed(&self) -> (r: Option<u64>)
        ensures
            r == self.current_seed(),
    {
        self.current_seed
    }
}

impl Scheduler for RandomScheduler {
    closed spec fn wf(&self) -> bool {
        self.data_source.wf() && self.iterations <= self.max_iterations
    }

    open spec fn can_choose(&self, runnable: Seq<Task>, current: Option<TaskId>, is_yielding: bool) -> bool {
        runnable.len() > 0
    }

    open spec fn can_start(&self) -> bool {
        true
    }

    open spec fn can_draw(&self) -> bool {
        true
    }

    /// No execution once all executions are run; otherwise one that begins afresh from the seed the data
    /// source moves to.
    open spec fn new_execution_gives(&self, r: Option<ScheduleView>) -> bool {
        if self.iterations() >= self.max_iterations() {
            r is None
        } else {
            r matches Some(v) && v.seed == self.data_source().next_seed() && v.steps.len() == 0
        }
    }

    /// The task at the index the generator picks.
    open spec fn next_task_gives(&self, runnable: Seq<Task>, current: Option<TaskId>, is_yielding: bool, r: Option<TaskId>) -> bool {
        r == Some(runnable[pcg_choose(self.rng_state(), runnable.len()).0 as int].id)
    }

    /// The next value of the data source.
    open spec fn next_u64_gives(&self, r: u64) -> bool {
        r == pcg_value(self.data_source().position().0, self.data_source().position().1)
    }

    fn new_execution(&mut self) -> (r: Option<Schedule>)
        ensures
            r matches Some(s) ==> s.seed == old(self).data_source().next_seed()
                && final(self).data_source().position() == (s.seed, 0nat),
            r is None ==> final(self).data_source() == old(self).data_source(),
            old(self).iterations() < old(self).max_iterations() ==> (r matches Some(s) && s.steps@.len() == 0
                && final(self).current_seed() == Some(s.seed) && final(self).rng_state() == pcg_seeded(s.seed) && final(self).iterations() == old(self).iterations() + 1
                && final(self).data_source().position() == (s.seed, 0nat)),
            old(self).iterations() >= old(self).max_iterations() ==> (r is None && final(self).current_seed() is None
                && final(self).iterations() == old(self).iterations()),
            final(self).max_iterations() == old(self).max_iterations(),
    {
        if self.iterations >= self.max_iterations {
            self.current_seed = None;
            None
        } else {
            self.iterations = self.iterations + 1;
            let seed = self.data_source.reinitialize();
            self.rng = pcg_from_seed(seed);
            self.current_seed = Some(seed);
            Some(Schedule::new(seed))
        }
    }

    fn next_task(&mut self, runnable: &[Task], current: Option<TaskId>, is_yielding: bool) -> (r: Option<TaskId>)
        ensures
            r == Some(runnable@[pcg_choose(old(self).rng_state(), runnable@.len()).0 as int].id),
            final(self).rng_state() == pcg_choose(old(self).rng_state(), runnable@.len()).1,
            final(self).iterations() == old(self).iterations(),
    {
        let id = pcg_choose_task(&mut self.rng, runnable);
        proof {
            let i = pcg_choose(pcg_state(old(self).rng), runnable@.len()).0 as int;
            assert(runnable@[i].id == id);
        }
        Some(id)
    }

    fn next_u64(&mut self) -> (r: u64)
        ensures
            r == pcg_value(old(self).data_source().position().0, old(self).data_source().position().1),
            final(self).data_source().position() == (old(self).data_source().position().0,
                old(self).data_source().position().1 + 1),
            final(self).iterations() == old(self).iterations(),
    {
        self.data_source.next_u64()
    }
}

} // verus!
