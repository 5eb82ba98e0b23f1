//! A scheduler that wraps another and counts what the schedules it produces do: the steps of each
//! execution, the context switches and preemptions, the random choices, and the events of each
//! kind that the chosen tasks perform. At the end of each execution the counts are recorded into
//! summaries of their minimum, maximum and total over the executions.
use vstd::prelude::*;
use crate::task::TaskId;
use crate::schedule::{Schedule, ScheduleView};
use crate::scheduler::{Scheduler, Task, EventKind, has_task, schedule_view};
use crate::replay::find_task;

verus! {

/// The sum of the values.
pub open spec fn seq_sum(values: Seq<nat>) -> nat
    decreases values.len(),
{
    if values.len() == 0 {
        0
    } else {
        seq_sum(values.drop_last()) + values.last()
    }
}

/// The smallest of the values, of which there is at least one.
pub open spec fn seq_min(values: Seq<nat>) -> nat
    decreases values.len(),
{
    if values.len() <= 1 {
        values[0]
    } else {
        let rest = seq_min(values.drop_last());
        if values.last() < rest { values.last() } else { rest }
    }
}

/// The largest of the values, of which there is at least one.
pub open spec fn seq_max(values: Seq<nat>) -> nat
    decreases values.len(),
{
    if values.len() <= 1 {
        values[0]
    } else {
        let rest = seq_max(values.drop_last());
        if values.last() > rest { values.last() } else { rest }
    }
}

/// Every value lies between the smallest and the largest, both of which are among the values.
pub proof fn lemma_min_max_bound(values: Seq<nat>)
    requires
        values.len() > 0,
    ensures
        forall|i: int| 0 <= i < values.len() ==> seq_min(values) <= #[trigger] values[i] <= seq_max(values),
        exists|i: int| 0 <= i < values.len() && values[i] == seq_min(values),
        exists|i: int| 0 <= i < values.len() && values[i] == seq_max(values),
    decreases values.len(),
{
    if values.len() > 1 {
        let rest = values.drop_last();
        lemma_min_max_bound(rest);
        assert forall|i: int| 0 <= i < values.len() implies seq_min(values) <= #[trigger] values[i] <= seq_max(values) by {
            if i < values.len() - 1 {
                assert(values[i] == rest[i]);
            }
        }
        let a = choose|i: int| 0 <= i < rest.len() && rest[i] == seq_min(rest);
        let b = choose|i: int| 0 <= i < rest.len() && rest[i] == seq_max(rest);
        assert(values[a] == rest[a]);
        assert(values[b] == rest[b]);
        assert(values[values.len() - 1] == values.last());
    } else {
        assert(values[0] == seq_min(values));
    }
}

/// A summary of a stream of counts: their minimum, maximum, sum and number.
pub struct CountSummaryMetric {
    min: usize,
    sum: usize,
    max: usize,
    n: usize,
    recorded: Ghost<Seq<nat>>,
}

impl CountSummaryMetric {
    /// The counts recorded so far, in order.
    pub closed spec fn recorded(&self) -> Seq<nat> {
        self.recorded@
    }

    /// The summary describes the counts recorded: their number and sum, and, once there is one,
    /// their minimum and maximum.
    pub closed spec fn wf(&self) -> bool {
        &&& self.n as nat == self.recorded@.len()
        &&& self.sum as nat == seq_sum(self.recorded@)
        &&& (self.n == 0 ==> self.min == usize::MAX && self.max == 0)
        &&& (self.n > 0 ==> self.min as nat == seq_min(self.recorded@) && self.max as nat == seq_max(self.recorded@))
    }

    /// A summary of no counts.
    pub fn new() -> (r: CountSummaryMetric)
        ensures
            r.wf(),
            r.recorded().len() == 0,
    {
        CountSummaryMetric { min: usize::MAX, sum: 0, max: 0, n: 0, recorded: Ghost(Seq::empty()) }
    }

    /// Records one more count.
    pub fn record(&mut self, value: usize)
        requires
            old(self).wf(),
            seq_sum(old(self).recorded()) + value <= usize::MAX,
            old(self).recorded().len() < usize::MAX,
        ensures
            final(self).wf(),
            final(self).recorded() == old(self).recorded().push(value as nat),
    {
        let ghost before = self.recorded@;
        if value < self.min {
            self.min = value;
        }
        if value > self.max {
            self.max = value;
        }
        self.sum = self.sum + value;
        self.n = self.n + 1;
        self.recorded = Ghost(before.push(value as nat));
        proof {
            assert(self.recorded@.drop_last() =~= before);
            if before.len() == 0 {
                assert(self.min == value);
            }
        }
    }

    /// The smallest count recorded, or `usize::MAX` before the first.
    pub fn min(&self) -> (r: usize)
        requires
            self.wf(),
        ensures
            self.recorded().len() == 0 ==> r == usize::MAX,
            self.recorded().len() > 0 ==> r == seq_min(self.recorded()),
    {
        self.min
    }

    /// The largest count recorded, or zero before the first.
    pub fn max(&self) -> (r: usize)
        requires
            self.wf(),
        ensures
            self.recorded().len() == 0 ==> r == 0,
            self.recorded().len() > 0 ==> r == seq_max(self.recorded()),
    {
        self.max
    }

    /// The sum of the counts recorded.
    pub fn sum(&self) -> (r: usize)
        requires
            self.wf(),
        ensures
            r == seq_sum(self.recorded()),
    {
        self.sum
    }

    /// The number of counts recorded.
    pub fn count(&self) -> (r: usize)
        requires
            self.wf(),
        ensures
            r == self.recorded().len(),
    {
        self.n
    }
}

/// The number of kinds of events.
pub const EVENT_KINDS: usize = 18;

/// The position of each kind of event among the counters.
pub open spec fn event_slot(e: EventKind) -> int {
    match e {
        EventKind::AtomicRead => 0,
        EventKind::AtomicWrite => 1,
        EventKind::AtomicReadWrite => 2,
        EventKind::BatchSemaphoreAcq => 3,
        EventKind::BatchSemaphoreRel => 4,
        EventKind::BarrierWait => 5,
        EventKind::CondvarWait => 6,
        EventKind::CondvarNotify => 7,
        EventKind::Park => 8,
        EventKind::Unpark => 9,
        EventKind::ChannelSend => 10,
        EventKind::ChannelRecv => 11,
        EventKind::Spawn => 12,
        EventKind::Yield => 13,
        EventKind::Sleep => 14,
        EventKind::Exit => 15,
        EventKind::Join => 16,
        EventKind::Unknown => 17,
    }
}

/// Each kind of event has a counter of its own: distinct kinds have distinct counters, all among
/// the `EVENT_KINDS` counters kept. So counting an event of one kind leaves the count of every
/// other kind as it was.
pub proof fn lemma_event_slots_distinct(a: EventKind, b: EventKind)
    ensures
        0 <= event_slot(a) < EVENT_KINDS,
        a != b ==> event_slot(a) != event_slot(b),
        forall|counts: Seq<usize>, v: usize| counts.len() == EVENT_KINDS && a != b
            ==> #[trigger] counts.update(event_slot(a), v)[event_slot(b)] == counts[event_slot(b)],
{
    assert(0 <= event_slot(b) < EVENT_KINDS);
}

/// The position of the counter of events of kind `e`.
pub fn event_index(e: EventKind) -> (r: usize)
    ensures
        r == event_slot(e),
        r < EVENT_KINDS,
{
    match e {
        EventKind::AtomicRead => 0,
        EventKind::AtomicWrite => 1,
        EventKind::AtomicReadWrite => 2,
        EventKind::BatchSemaphoreAcq => 3,
        EventKind::BatchSemaphoreRel => 4,
        EventKind::BarrierWait => 5,
        EventKind::CondvarWait => 6,
        EventKind::CondvarNotify => 7,
        EventKind::Park => 8,
        EventKind::Unpark => 9,
        EventKind::ChannelSend => 10,
        EventKind::ChannelRecv => 11,
        EventKind::Spawn => 12,
        EventKind::Yield => 13,
        EventKind::Sleep => 14,
        EventKind::Exit => 15,
        EventKind::Join => 16,
        EventKind::Unknown => 17,
    }
}

/// The counts of the current execution: steps, context switches, preemptions, random choices,
/// and the events of each kind.
pub struct CountsView {
    pub steps: nat,
    pub context_switches: nat,
    pub preemptions: nat,
    pub random_choices: nat,
    pub events: Seq<nat>,
}

/// A scheduler that wraps `S` and counts what the schedules it produces do.
pub struct MetricsScheduler<S: Scheduler> {
    inner: S,
    iterations: usize,
    iteration_divisor: usize,
    steps: usize,
    steps_metric: CountSummaryMetric,
    last_task: TaskId,
    context_switches: usize,
    context_switches_metric: CountSummaryMetric,
    preemptions: usize,
    preemptions_metric: CountSummaryMetric,
    random_choices: usize,
    random_choices_metric: CountSummaryMetric,
    event_counts: Vec<usize>,
    event_metrics: Vec<CountSummaryMetric>,
}

impl<S: Scheduler> MetricsScheduler<S> {
    /// The wrapped scheduler.
    pub closed spec fn inner(&self) -> S {
        self.inner
    }

    /// The number of executions begun.
    pub closed spec fn iterations(&self) -> nat {
        self.iterations as nat
    }

    /// The task chosen last.
    pub closed spec fn last_task(&self) -> TaskId {
        self.last_task
    }

    /// The counts of the current execution.
    pub closed spec fn counts(&self) -> CountsView {
        CountsView {
            steps: self.steps as nat,
            context_switches: self.context_switches as nat,
            preemptions: self.preemptions as nat,
            random_choices: self.random_choices as nat,
            events: Seq::new(EVENT_KINDS as nat, |i: int| self.event_counts@[i] as nat),
        }
    }

    /// The counts of each finished execution, in order: of steps, context switches, preemptions,
    /// random choices, and events of each kind.
    pub closed spec fn history(&self) -> (Seq<nat>, Seq<nat>, Seq<nat>, Seq<nat>, Seq<Seq<nat>>) {
        (
            self.steps_metric.recorded(),
            self.context_switches_metric.recorded(),
            self.preemptions_metric.recorded(),
            self.random_choices_metric.recorded(),
            Seq::new(EVENT_KINDS as nat, |i: int| self.event_metrics@[i].recorded()),
        )
    }

    /// Every summary describes its counts, has room for the counts of the current execution, and
    /// holds no more than `bound` of them.
    pub closed spec fn metrics_wf(&self, bound: nat) -> bool {
        &&& self.iteration_divisor > 0
        &&& self.event_counts@.len() == EVENT_KINDS
        &&& self.event_metrics@.len() == EVENT_KINDS
        &&& self.steps_metric.wf() && self.context_switches_metric.wf()
        &&& self.preemptions_metric.wf() && self.random_choices_metric.wf()
        &&& seq_sum(self.steps_metric.recorded()) + self.steps <= usize::MAX
        &&& seq_sum(self.context_switches_metric.recorded()) + self.context_switches <= usize::MAX
        &&& seq_sum(self.preemptions_metric.recorded()) + self.preemptions <= usize::MAX
        &&& seq_sum(self.random_choices_metric.recorded()) + self.random_choices <= usize::MAX
        &&& forall|i: int| 0 <= i < EVENT_KINDS ==> (#[trigger] self.event_metrics@[i]).wf()
            && seq_sum(self.event_metrics@[i].recorded()) + self.event_counts@[i] <= usize::MAX
        &&& self.steps_metric.recorded().len() <= bound
        &&& self.context_switches_metric.recorded().len() <= bound
        &&& self.preemptions_metric.recorded().len() <= bound
        &&& self.random_choices_metric.recorded().len() <= bound
        &&& forall|i: int| 0 <= i < EVENT_KINDS ==> (#[trigger] self.event_metrics@[i]).recorded().len() <= bound
    }

    /// Room to count one more step and the events that go with it.
    pub closed spec fn has_room(&self) -> bool {
        &&& seq_sum(self.steps_metric.recorded()) + self.steps < usize::MAX
        &&& seq_sum(self.context_switches_metric.recorded()) + self.context_switches < usize::MAX
        &&& seq_sum(self.preemptions_metric.recorded()) + self.preemptions < usize::MAX
        &&& seq_sum(self.random_choices_metric.recorded()) + self.random_choices < usize::MAX
        &&& forall|i: int| 0 <= i < EVENT_KINDS ==> seq_sum((#[trigger] self.event_metrics@[i]).recorded())
            + self.event_counts@[i] < usize::MAX
    }

    /// Wraps `inner`, with no execution begun and nothing counted.
    pub fn new(inner: S) -> (r: MetricsScheduler<S>)
        ensures
            r.inner() == inner,
            r.iterations() == 0,
            r.counts().steps == 0,
            r.counts().context_switches == 0,
            r.counts().preemptions == 0,
            r.counts().random_choices == 0,
            r.counts().events == Seq::new(EVENT_KINDS as nat, |i: int| 0nat),
            r.last_task() == TaskId(0),
            r.history().0.len() == 0 && r.history().1.len() == 0 && r.history().2.len() == 0 && r.history().3.len() == 0,
            r.history().4 == Seq::new(EVENT_KINDS as nat, |i: int| Seq::<nat>::empty()),
            r.metrics_wf(0),
    {
        let mut event_counts: Vec<usize> = Vec::new();
        let mut event_metrics: Vec<CountSummaryMetric> = Vec::new();
        let mut k: usize = 0;
        while k < EVENT_KINDS
            invariant
                k <= EVENT_KINDS,
                event_counts@.len() == k,
                event_metrics@.len() == k,
                forall|i: int| 0 <= i < k ==> event_counts@[i] == 0,
                forall|i: int| 0 <= i < k ==> (#[trigger] event_metrics@[i]).wf() && event_metrics@[i].recorded().len() == 0,
            decreases EVENT_KINDS - k,
        {
            event_counts.push(0);
            event_metrics.push(CountSummaryMetric::new());
            k = k + 1;
        }
        let r = MetricsScheduler {
            inner,
            iterations: 0,
            iteration_divisor: 10,
            steps: 0,
            steps_metric: CountSummaryMetric::new(),
            last_task: TaskId(0),
            context_switches: 0,
            context_switches_metric: CountSummaryMetric::new(),
            preemptions: 0,
            preemptions_metric: CountSummaryMetric::new(),
            random_choices: 0,
            random_choices_metric: CountSummaryMetric::new(),
            event_counts,
            event_metrics,
        };
        proof {
            assert(r.counts().events =~= Seq::new(EVENT_KINDS as nat, |i: int| 0nat));
            assert forall|i: int| 0 <= i < EVENT_KINDS implies #[trigger] r.history().4[i] == Seq::<nat>::empty() by {
                assert(r.event_metrics@[i].recorded() =~= Seq::<nat>::empty());
            }
            assert(r.history().4 =~= Seq::new(EVENT_KINDS as nat, |i: int| Seq::<nat>::empty()));
            assert forall|i: int| 0 <= i < EVENT_KINDS implies (#[trigger] r.event_metrics@[i]).wf()
                && seq_sum(r.event_metrics@[i].recorded()) + r.event_counts@[i] <= usize::MAX by {
                assert(r.event_metrics@[i].recorded().len() == 0);
            }
        }
        r
    }

    /// Records the counts of the execution that ended into the summaries, and starts counting
    /// afresh.
    /// The counts of an execution that has just begun: nothing counted.
    pub open spec fn zero_counts() -> CountsView {
        CountsView {
            steps: 0,
            context_switches: 0,
            preemptions: 0,
            random_choices: 0,
            events: Seq::new(EVENT_KINDS as nat, |i: int| 0nat),
        }
    }

    /// The history once the counts `now` of an execution are recorded in it.
    pub open spec fn recorded_into(h: (Seq<nat>, Seq<nat>, Seq<nat>, Seq<nat>, Seq<Seq<nat>>), now: CountsView) -> (Seq<nat>, Seq<nat>, Seq<nat>, Seq<nat>, Seq<Seq<nat>>) {
        let (s, c, p, rc, e) = h;
        (s.push(now.steps), c.push(now.context_switches), p.push(now.preemptions),
            rc.push(now.random_choices), Seq::new(EVENT_KINDS as nat, |i: int| e[i].push(now.events[i])))
    }

    fn record_and_reset_metrics(&mut self)
        requires
            old(self).metrics_wf(old(self).iterations as nat),
            old(self).iterations < usize::MAX,
        ensures
            final(self).metrics_wf((old(self).iterations + 1) as nat),
            final(self).inner == old(self).inner,
            final(self).iterations == old(self).iterations,
            final(self).iteration_divisor == old(self).iteration_divisor,
            final(self).last_task == old(self).last_task,
            final(self).counts() == Self::zero_counts(),
            final(self).history() == Self::recorded_into(old(self).history(), old(self).counts()),
    {
        let ghost old_history = self.history();
        let ghost now = self.counts();
        self.steps_metric.record(self.steps);
        self.steps = 0;
        self.context_switches_metric.record(self.context_switches);
        self.context_switches = 0;
        self.preemptions_metric.record(self.preemptions);
        self.preemptions = 0;
        self.random_choices_metric.record(self.random_choices);
        self.random_choices = 0;
        let ghost counts0 = self.event_counts@;
        let ghost metrics0 = self.event_metrics@;
        record_event_metrics(&mut self.event_counts, &mut self.event_metrics, Ghost(self.iterations as nat));
        proof {
            assert(self.counts().events =~= Seq::new(EVENT_KINDS as nat, |i: int| 0nat));
            let (s, c, p, rc, e) = old_history;
            assert(self.history().4 =~= Seq::new(EVENT_KINDS as nat, |i: int| e[i].push(now.events[i])));
            assert forall|i: int| 0 <= i < EVENT_KINDS implies (#[trigger] self.event_metrics@[i]).wf()
                && seq_sum(self.event_metrics@[i].recorded()) + self.event_counts@[i] <= usize::MAX by {
                assert(self.event_metrics@[i].recorded().drop_last() =~= metrics0[i].recorded());
            }
            assert forall|i: int| 0 <= i < EVENT_KINDS implies #[trigger] self.history().4[i] == e[i].push(now.events[i]) by {
                assert(self.event_metrics@[i].recorded() == metrics0[i].recorded().push(counts0[i] as nat));
            }
            assert(self.steps_metric.recorded().drop_last() =~= old(self).steps_metric.recorded());
            assert(self.context_switches_metric.recorded().drop_last() =~= old(self).context_switches_metric.recorded());
            assert(self.preemptions_metric.recorded().drop_last() =~= old(self).preemptions_metric.recorded());
            assert(self.random_choices_metric.recorded().drop_last() =~= old(self).random_choices_metric.recorded());
        }
    }

    /// The number of executions begun.
    pub fn iteration_count(&self) -> (r: usize)
        ensures
            r == self.iterations(),
    {
        self.iterations
    }

    /// The number of steps of the current execution.
    pub fn step_count(&self) -> (r: usize)
        ensures
            r == self.counts().steps,
    {
        self.steps
    }

    /// The number of context switches in the current execution.
    pub fn context_switch_count(&self) -> (r: usize)
        ensures
            r == self.counts().context_switches,
    {
        self.context_switches
    }

    /// The number of preemptions in the current execution: switches away from a task that could
    /// have gone on.
    pub fn preemption_count(&self) -> (r: usize)
        ensures
            r == self.counts().preemptions,
    {
        self.preemptions
    }

    /// The number of random values drawn in the current execution.
    pub fn random_choice_count(&self) -> (r: usize)
        ensures
            r == self.counts().random_choices,
    {
        self.random_choices
    }

    /// The number of events of kind `e` in the current execution.
    pub fn event_count(&self, e: EventKind) -> (r: usize)
        requires
            self.metrics_wf(self.iterations()),
        ensures
            r == self.counts().events[event_slot(e)],
    {
        self.event_counts[event_index(e)]
    }

    /// The summary of the step counts of the finished executions.
    pub fn steps_summary(&self) -> (r: &CountSummaryMetric)
        ensures
            r.recorded() == self.history().0,
            self.metrics_wf(self.iterations()) ==> r.wf(),
    {
        &self.steps_metric
    }

    /// The wrapped scheduler.
    pub fn inner_scheduler(&self) -> (r: &S)
        ensures
            *r == self.inner(),
    {
        &self.inner
    }

    /// Records the counts of an execution that did not finish normally, as when the wrapping
    /// ends while an execution is still running.
    pub fn finish(&mut self)
        requires
            old(self).metrics_wf(old(self).iterations()),
            old(self).iterations() < usize::MAX,
        ensures
            final(self).metrics_wf(final(self).iterations()),
            old(self).counts().steps > 0 ==> final(self).iterations() == old(self).iterations() + 1
                && final(self).counts() == Self::zero_counts()
                && final(self).history() == Self::recorded_into(old(self).history(), old(self).counts()),
            final(self).inner() == old(self).inner(),
            final(self).last_task() == old(self).last_task(),
            old(self).counts().steps == 0 ==> final(self).iterations() == old(self).iterations()
                && final(self).counts() == old(self).counts() && final(self).history() == old(self).history(),
    {
        if self.steps > 0 {
            self.record_and_reset_metrics();
            self.iterations = self.iterations + 1;
        }
    }
}

impl<S: Scheduler> Scheduler for MetricsScheduler<S> {
    closed spec fn wf(&self) -> bool {
        &&& self.inner.wf()
        &&& self.metrics_wf(self.iterations as nat)
    }

    open spec fn can_choose(&self, runnable: Seq<Task>, current: Option<TaskId>, is_yielding: bool) -> bool {
        &&& self.inner().can_choose(runnable, current, is_yielding)
        &&& self.has_room()
    }

    open spec fn can_draw(&self) -> bool {
        &&& self.inner().can_draw()
        &&& self.has_room()
    }

    open spec fn can_start(&self) -> bool {
        &&& self.inner().can_start()
        &&& self.iterations() < usize::MAX
    }

    /// The execution the inner scheduler begins.
    open spec fn new_execution_gives(&self, r: Option<ScheduleView>) -> bool {
        self.inner().new_execution_gives(r)
    }

    /// The inner scheduler's choice.
    open spec fn next_task_gives(&self, runnable: Seq<Task>, current: Option<TaskId>, is_yielding: bool, r: Option<TaskId>) -> bool {
        self.inner().next_task_gives(runnable, current, is_yielding, r)
    }

    /// The inner scheduler's value.
    open spec fn next_u64_gives(&self, r: u64) -> bool {
        self.inner().next_u64_gives(r)
    }

    fn new_execution(&mut self) -> (r: Option<Schedule>)
        ensures
            final(self).iterations() == old(self).iterations() + 1,
            old(self).iterations() > 0 ==> final(self).counts() == Self::zero_counts()
                && final(self).history() == Self::recorded_into(old(self).history(), old(self).counts()),
            old(self).iterations() == 0 ==> final(self).counts() == old(self).counts()
                && final(self).history() == old(self).history(),
            final(self).last_task() == old(self).last_task(),
    {
        if self.iterations > 0 {
            self.record_and_reset_metrics();
            if self.iterations % self.iteration_divisor == 0 {
                match self.iteration_divisor.checked_mul(10) {
                    Some(next) => {
                        if self.iterations == next {
                            self.iteration_divisor = next;
                        }
                    },
                    None => {},
                }
            }
        }
        self.iterations = self.iterations + 1;
        self.inner.new_execution()
    }

    fn next_task(&mut self, runnable: &[Task], current: Option<TaskId>, is_yielding: bool) -> (r: Option<TaskId>)
        ensures
            final(self).iterations() == old(self).iterations(),
            r is None ==> final(self).counts() == old(self).counts() && final(self).last_task() == old(self).last_task(),
            r matches Some(id) ==> ({
                let before = old(self).counts();
                let switched = id != old(self).last_task();
                let i = find_task(runnable@, id, 0)->0;
                &&& final(self).last_task() == id
                &&& final(self).counts() == (CountsView {
                    steps: before.steps + 1,
                    context_switches: if switched { before.context_switches + 1 } else { before.context_switches },
                    preemptions: if switched && has_task(runnable@, old(self).last_task()) {
                        before.preemptions + 1
                    } else {
                        before.preemptions
                    },
                    events: before.events.update(event_slot(runnable@[i].next_event), before.events[event_slot(runnable@[i].next_event)] + 1),
                    ..before
                })
            }),
            final(self).history() == old(self).history(),
    {
        let chosen = self.inner.next_task(runnable, current, is_yielding);
        let id = match chosen {
            Some(id) => id,
            None => {
                return None;
            },
        };
        let ghost before = self.counts();
        let i = find_index(runnable, id);
        let e = event_index(runnable[i].next_event);
        proof {
            assert(old(self).event_metrics@[e as int] == self.event_metrics@[e as int]);
            assert(seq_sum(old(self).event_metrics@[e as int].recorded()) + old(self).event_counts@[e as int] < usize::MAX);
        }
        let count = self.event_counts[e];
        self.event_counts.set(e, count + 1);
        self.steps = self.steps + 1;
        if id != self.last_task {
            self.context_switches = self.context_switches + 1;
            if find_index_opt(runnable, self.last_task).is_some() {
                self.preemptions = self.preemptions + 1;
            }
        }
        self.last_task = id;
        proof {
            assert(self.counts().events =~= before.events.update(e as int, before.events[e as int] + 1));
            assert forall|k: int| 0 <= k < EVENT_KINDS implies (#[trigger] self.event_metrics@[k]).wf()
                && seq_sum(self.event_metrics@[k].recorded()) + self.event_counts@[k] <= usize::MAX by {
                assert(self.event_metrics@[k] == old(self).event_metrics@[k]);
            }
        }
        Some(id)
    }

    fn next_u64(&mut self) -> (r: u64)
        ensures
            final(self).counts() == (CountsView {
                steps: old(self).counts().steps + 1,
                random_choices: old(self).counts().random_choices + 1,
                ..old(self).counts()
            }),
            final(self).history() == old(self).history(),
            final(self).last_task() == old(self).last_task(),
    {
        self.steps = self.steps + 1;
        self.random_choices = self.random_choices + 1;
        proof {
            assert(self.counts().events =~= old(self).counts().events);
        }
        self.inner.next_u64()
    }
}

/// Records each event count into its summary and resets the count to zero.
fn record_event_metrics(counts: &mut Vec<usize>, metrics: &mut Vec<CountSummaryMetric>, bound: Ghost<nat>)
    requires
        old(counts)@.len() == EVENT_KINDS,
        old(metrics)@.len() == EVENT_KINDS,
        bound@ < usize::MAX,
        forall|i: int| 0 <= i < EVENT_KINDS ==> (#[trigger] old(metrics)@[i]).wf()
            && seq_sum(old(metrics)@[i].recorded()) + old(counts)@[i] <= usize::MAX
            && old(metrics)@[i].recorded().len() <= bound@,
    ensures
        final(counts)@.len() == EVENT_KINDS,
        final(metrics)@.len() == EVENT_KINDS,
        forall|i: int| 0 <= i < EVENT_KINDS ==> final(counts)@[i] == 0,
        forall|i: int| 0 <= i < EVENT_KINDS ==> (#[trigger] final(metrics)@[i]).wf()
            && final(metrics)@[i].recorded() == old(metrics)@[i].recorded().push(old(counts)@[i] as nat),
{
    let ghost counts0 = counts@;
    let ghost metrics0 = metrics@;
    let mut k: usize = 0;
    while k < EVENT_KINDS
        invariant
            k <= EVENT_KINDS,
            counts@.len() == EVENT_KINDS,
            metrics@.len() == EVENT_KINDS,
            counts0.len() == EVENT_KINDS,
            metrics0.len() == EVENT_KINDS,
            bound@ < usize::MAX,
            forall|i: int| 0 <= i < EVENT_KINDS ==> (#[trigger] metrics0[i]).wf()
                && seq_sum(metrics0[i].recorded()) + counts0[i] <= usize::MAX
                && metrics0[i].recorded().len() <= bound@,
            forall|i: int| 0 <= i < k ==> counts@[i] == 0,
            forall|i: int| k <= i < EVENT_KINDS ==> counts@[i] == counts0[i],
            forall|i: int| 0 <= i < k ==> (#[trigger] metrics@[i]).wf()
                && metrics@[i].recorded() == metrics0[i].recorded().push(counts0[i] as nat),
            forall|i: int| k <= i < EVENT_KINDS ==> metrics@[i] == metrics0[i],
        decreases EVENT_KINDS - k,
    {
        let value = counts[k];
        let mut metric = metrics.remove(k);
        proof {
            assert(metric == metrics0[k as int]);
            assert(metric.wf());
        }
        metric.record(value);
        metrics.insert(k, metric);
        counts.set(k, 0);
        k = k + 1;
    }
}

/// The index of the first task with id `id`, which is among the tasks.
fn find_index(tasks: &[Task], id: TaskId) -> (r: usize)
    requires
        has_task(tasks@, id),
    ensures
        find_task(tasks@, id, 0) == Some(r as int),
        r < tasks@.len(),
{
    let mut i: usize = 0;
    while i < tasks.len()
        invariant
            i <= tasks@.len(),
            find_task(tasks@, id, 0) == find_task(tasks@, id, i as int),
            forall|k: int| 0 <= k < i ==> tasks@[k].id != id,
        decreases tasks@.len() - i,
    {
        if tasks[i].id == id {
            return i;
        }
        i = i + 1;
    }
    proof {
        let k = choose|k: int| 0 <= k < tasks@.len() && #[trigger] tasks@[k].id == id;
        assert(tasks@[k].id != id);
    }
    0
}

/// The index of the first task with id `id`, if it is among the tasks.
fn find_index_opt(tasks: &[Task], id: TaskId) -> (r: Option<usize>)
    ensures
        r is Some <==> has_task(tasks@, id),
{
    let mut i: usize = 0;
    while i < tasks.len()
        invariant
            i <= tasks@.len(),
            forall|k: int| 0 <= k < i ==> tasks@[k].id != id,
        decreases tasks@.len() - i,
    {
        if tasks[i].id == id {
            return Some(i);
        }
        i = i + 1;
    }
    None
}

} // verus!
