//! The entry points for testing: a runner drives a scheduler, wrapped to count what its schedules
//! do, through as many executions as it asks for; a portfolio runner holds several schedulers to
//! run side by side. Running an execution itself is the runtime's work: the runners here decide
//! which schedule comes next and when the test is over.
use vstd::prelude::*;
use crate::config::Config;
use crate::schedule::{Schedule, ScheduleView};
use crate::scheduler::{Scheduler, Task};
use crate::task::TaskId;
use crate::metrics::MetricsScheduler;
use crate::time::{ConstantSteppedTimeModel, TimeModel, default_step, duration_nanos, nanos_of};
use std::sync::Arc;
use std::sync::atomic::{AtomicBool, Ordering};
use std::time::Duration;

verus! {

/// Whether a test that has run for `elapsed` has used up the time the configuration allows.
pub open spec fn out_of_time(config: Config, elapsed: Duration) -> bool {
    config.max_time matches Some(t) && duration_nanos(elapsed) > duration_nanos(t)
}

/// Drives a scheduler through the executions of a test.
pub struct Runner<S: Scheduler, T: TimeModel> {
    scheduler: MetricsScheduler<S>,
    time_model: T,
    config: Config,
}

impl<S: Scheduler> Runner<S, ConstantSteppedTimeModel> {
    /// A runner for `scheduler`, whose time advances by ten microseconds at each step.
    pub fn new(scheduler: S, config: Config) -> (r: Runner<S, ConstantSteppedTimeModel>)
        ensures
            r.scheduler().inner() == scheduler,
            r.scheduler().iterations() == 0,
            r.time_model().view().step == 10_000,
            r.time_model().view().elapsed == 0,
            r.time_model().view().waiters.len() == 0,
    {
        let step = default_step();
        Runner { scheduler: MetricsScheduler::new(scheduler), time_model: ConstantSteppedTimeModel::new(step), config }
    }
}

impl<S: Scheduler, T: TimeModel> Runner<S, T> {
    /// The scheduler, wrapped.
    pub closed spec fn scheduler(&self) -> MetricsScheduler<S> {
        self.scheduler
    }

    /// The time model.
    pub closed spec fn time_model(&self) -> T {
        self.time_model
    }

    /// The configuration.
    pub closed spec fn config_view(&self) -> Config {
        self.config
    }

    /// A runner for `scheduler` under the given time model.
    pub fn new_with_time_model(scheduler: S, time_model: T, config: Config) -> (r: Runner<S, T>)
        ensures
            r.scheduler().inner() == scheduler,
            r.scheduler().iterations() == 0,
            r.time_model() == time_model,
    {
        Runner { scheduler: MetricsScheduler::new(scheduler), time_model, config }
    }

    /// The configuration of the test.
    pub fn config(&self) -> (r: &Config)
        ensures
            *r == self.config_view(),
    {
        &self.config
    }

    /// The schedule of the next execution, or `None` when the scheduler has no more: the test is
    /// then over.
    pub fn next_execution(&mut self) -> (r: Option<Schedule>)
        requires
            old(self).scheduler().wf(),
            old(self).scheduler().can_start(),
        ensures
            final(self).scheduler().wf(),
            final(self).scheduler().iterations() == old(self).scheduler().iterations() + 1,
            final(self).time_model() == old(self).time_model(),
            final(self).config_view() == old(self).config_view(),
    {
        self.scheduler.new_execution()
    }

    /// The schedule of the next execution of a test that has run for `elapsed`, or `None` when
    /// the test is over: when it has used up its time, in which case the scheduler is not asked,
    /// or when the scheduler has no more executions.
    pub fn next_execution_within(&mut self, elapsed: Duration) -> (r: Option<Schedule>)
        requires
            old(self).scheduler().wf(),
            old(self).scheduler().can_start(),
        ensures
            out_of_time(old(self).config_view(), elapsed) ==> r is None && *final(self) == *old(self),
            !out_of_time(old(self).config_view(), elapsed) ==> {
                &&& final(self).scheduler().wf()
                &&& final(self).scheduler().iterations() == old(self).scheduler().iterations() + 1
                &&& final(self).time_model() == old(self).time_model()
                &&& final(self).config_view() == old(self).config_view()
            },
    {
        match &self.config.max_time {
            Some(t) => {
                if nanos_of(&elapsed) > nanos_of(t) {
                    return None;
                }
            },
            None => {},
        }
        self.next_execution()
    }
}

/// A scheduler that a flag shared between threads can stop early: once the flag is set, it
/// begins no more executions and ends the running one. A portfolio runs each of its schedulers
/// in one of these, to stop them all as soon as one fails.
pub struct PortfolioStoppableScheduler<S: Scheduler> {
    scheduler: S,
    stop_signal: Arc<AtomicBool>,
}

impl<S: Scheduler> PortfolioStoppableScheduler<S> {
    /// The scheduler inside.
    pub closed spec fn inner(&self) -> S {
        self.scheduler
    }

    /// `scheduler`, to be stopped when `stop_signal` is set.
    pub fn new(scheduler: S, stop_signal: Arc<AtomicBool>) -> (r: PortfolioStoppableScheduler<S>)
        ensures
            r.inner() == scheduler,
    {
        PortfolioStoppableScheduler { scheduler, stop_signal }
    }

    /// Whether the flag is set; another thread may set it at any time.
    fn stopped(&self) -> bool {
        self.stop_signal.load(Ordering::SeqCst)
    }
}

impl<S: Scheduler> Scheduler for PortfolioStoppableScheduler<S> {
    open spec fn wf(&self) -> bool {
        self.inner().wf()
    }

    open spec fn can_choose(&self, runnable: Seq<Task>, current: Option<TaskId>, is_yielding: bool) -> bool {
        self.inner().can_choose(runnable, current, is_yielding)
    }

    open spec fn can_draw(&self) -> bool {
        self.inner().can_draw()
    }

    open spec fn can_start(&self) -> bool {
        self.inner().can_start()
    }

    /// Once stopped, no execution; otherwise the execution the inner scheduler begins.
    open spec fn new_execution_gives(&self, r: Option<ScheduleView>) -> bool {
        r is None || self.inner().new_execution_gives(r)
    }

    /// Once stopped, no task; otherwise the inner scheduler's choice.
    open spec fn next_task_gives(&self, runnable: Seq<Task>, current: Option<TaskId>, is_yielding: bool, r: Option<TaskId>) -> bool {
        r is None || self.inner().next_task_gives(runnable, current, is_yielding, r)
    }

    /// The inner scheduler's value, stopped or not.
    open spec fn next_u64_gives(&self, r: u64) -> bool {
        self.inner().next_u64_gives(r)
    }

    /// `None` once stopped, leaving the scheduler inside as it was; otherwise the inner
    /// scheduler's next execution.
    fn new_execution(&mut self) -> (r: Option<Schedule>)
    {
        if self.stopped() {
            None
        } else {
            self.scheduler.new_execution()
        }
    }

    /// `None` once stopped, which ends the execution; otherwise the inner scheduler's choice.
    fn next_task(&mut self, runnable: &[Task], current: Option<TaskId>, is_yielding: bool) -> (r: Option<TaskId>)
    {
        if self.stopped() {
            None
        } else {
            self.scheduler.next_task(runnable, current, is_yielding)
        }
    }

    fn next_u64(&mut self) -> (r: u64)
    {
        self.scheduler.next_u64()
    }
}

/// Several schedulers to run one test under side by side. If any of them finds a failing
/// execution, the whole run fails.
pub struct PortfolioRunner<T: TimeModel> {
    schedulers: Vec<Box<dyn Scheduler>>,
    time_model: T,
    stop_on_first_failure: bool,
    config: Config,
}

impl PortfolioRunner<ConstantSteppedTimeModel> {
    /// A portfolio with no schedulers yet, whose time advances by ten microseconds at each step.
    /// With `stop_on_first_failure`, every scheduler stops as soon as one fails; otherwise they go
    /// on and may find several bugs.
    pub fn new(stop_on_first_failure: bool, config: Config) -> (r: PortfolioRunner<ConstantSteppedTimeModel>)
        ensures
            r.scheduler_count() == 0,
            r.stops_on_first_failure() == stop_on_first_failure,
            r.time_model().view().step == 10_000,
            r.time_model().view().elapsed == 0,
    {
        let step = default_step();
        PortfolioRunner {
            schedulers: Vec::new(),
            time_model: ConstantSteppedTimeModel::new(step),
            stop_on_first_failure,
            config,
        }
    }
}

impl<T: TimeModel> PortfolioRunner<T> {
    /// The number of schedulers in the portfolio.
    pub closed spec fn scheduler_count(&self) -> nat {
        self.schedulers@.len()
    }

    /// Whether all schedulers stop as soon as one fails.
    pub closed spec fn stops_on_first_failure(&self) -> bool {
        self.stop_on_first_failure
    }

    /// The time model each scheduler's runs start from.
    pub closed spec fn time_model(&self) -> T {
        self.time_model
    }

    /// A portfolio with no schedulers yet, under the given time model.
    pub fn new_with_time_model(stop_on_first_failure: bool, time_model: T, config: Config) -> (r: PortfolioRunner<T>)
        ensures
            r.scheduler_count() == 0,
            r.stops_on_first_failure() == stop_on_first_failure,
            r.time_model() == time_model,
    {
        PortfolioRunner { schedulers: Vec::new(), time_model, stop_on_first_failure, config }
    }

    /// Adds `scheduler` to the portfolio.
    pub fn add<S: Scheduler + 'static>(&mut self, scheduler: S)
        ensures
            final(self).scheduler_count() == old(self).scheduler_count() + 1,
            final(self).stops_on_first_failure() == old(self).stops_on_first_failure(),
            final(self).time_model() == old(self).time_model(),
    {
        let boxed: Box<dyn Scheduler> = Box::new(scheduler);
        let ghost before = self.schedulers@;
        self.schedulers.push(boxed);
        proof {
            vstd::seq::axiom_seq_push_len(before, boxed);
        }
    }

    /// Whether all schedulers stop as soon as one fails.
    pub fn stop_on_first_failure(&self) -> (r: bool)
        ensures
            r == self.stops_on_first_failure(),
    {
        self.stop_on_first_failure
    }

    /// Takes the portfolio apart, to run each scheduler: the schedulers in the order they were
    /// added, the time model, whether to stop on the first failure, and the configuration.
    pub fn into_parts(self) -> (r: (Vec<Box<dyn Scheduler>>, T, bool, Config))
        ensures
            r.0@.len() == self.scheduler_count(),
            r.1 == self.time_model(),
            r.2 == self.stops_on_first_failure(),
    {
        (self.schedulers, self.time_model, self.stop_on_first_failure, self.config)
    }
}

} // verus!
