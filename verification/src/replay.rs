//! A scheduler that replays a recorded schedule: at each scheduling point it runs the task the
//! schedule names next, and each random value comes from the recorded seed. With a target clock,
//! steps of tasks that are not causally before the target are skipped, with the random values
//! they drew. What happens once the schedule can no longer be followed is chosen by the user:
//! fail, stop the execution, or hand it over to another scheduler.
use vstd::prelude::*;
use crate::task::TaskId;
use crate::schedule::{Schedule, ScheduleStep, ScheduleView};
use crate::clock::{VectorClock, clock_le};
use crate::scheduler::{Scheduler, Task, DataSource, RandomDataSource, has_task};
use crate::random::RandomScheduler;
use crate::serialization::{deserialize_schedule, deserialize_spec};
use crate::pcg::{pcg_value, pcg_seeded};

verus! {

/// What a replay does once it can no longer follow the schedule; `C` is the type of a scheduler
/// the user hands the rest of the execution to.
pub enum OnScheduleEnd<C> {
    /// Fail: the schedule is expected to cover the whole execution.
    Panic,
    /// End the execution where the schedule ends.
    Stop,
    /// Hand the rest of the execution over to a scheduler the user gave.
    Continue(C),
    /// Hand the rest of the execution over to a random scheduler seeded with the schedule's own
    /// seed, so that the continuation is reproducible from the schedule alone.
    ContinueRandom(RandomScheduler),
}

/// The kind of an `OnScheduleEnd`.
#[derive(Clone, Copy, Debug, PartialEq, Eq, Structural)]
pub enum EndMode {
    Panic,
    Stop,
    Continue,
}

/// What following the schedule from a position leads to.
pub enum ReplayOutcome {
    /// The schedule cannot be followed and the replay fails.
    Fails,
    /// The task to run, the position after it, and the random values skipped on the way.
    Chose { task: TaskId, pos: nat, draws: nat },
    /// The execution ends at this position.
    Stopped { pos: nat, draws: nat },
    /// The continuation scheduler chooses, the schedule being left at this position.
    Delegates { pos: nat, draws: nat },
}

/// The index of the first task with id `id`.
pub open spec fn find_task(tasks: Seq<Task>, id: TaskId, from: int) -> Option<int>
    decreases tasks.len() - from,
{
    if from < 0 || from >= tasks.len() {
        None
    } else if tasks[from].id.0 == id.0 {
        Some(from)
    } else {
        find_task(tasks, id, from + 1)
    }
}

/// The first position from `pos` on that is not a random step, or the end.
pub open spec fn skip_random(steps: Seq<ScheduleStep>, pos: nat) -> nat
    decreases steps.len() - pos,
{
    if pos < steps.len() && steps[pos as int] == ScheduleStep::Random {
        skip_random(steps, pos + 1)
    } else {
        pos
    }
}

/// Following the schedule from position `pos`, with `draws` random values skipped so far.
pub open spec fn replay_walk(
    steps: Seq<ScheduleStep>,
    pos: nat,
    runnable: Seq<Task>,
    target: Option<Seq<u32>>,
    mode: EndMode,
    draws: nat,
) -> ReplayOutcome
    decreases steps.len() - pos,
{
    if pos >= steps.len() {
        match mode {
            EndMode::Panic => ReplayOutcome::Fails,
            EndMode::Stop => ReplayOutcome::Stopped { pos, draws },
            EndMode::Continue => ReplayOutcome::Delegates { pos, draws },
        }
    } else {
        match steps[pos as int] {
            ScheduleStep::Random => ReplayOutcome::Fails,
            ScheduleStep::Task(next) => match find_task(runnable, next, 0) {
                Some(i) => match target {
                    Some(tc) => if clock_le(runnable[i].clock@, tc) {
                        ReplayOutcome::Chose { task: next, pos: pos + 1, draws }
                    } else {
                        let after = skip_random(steps, pos + 1);
                        proof {
                            lemma_skip_random(steps, pos + 1);
                        }
                        replay_walk(steps, after, runnable, target, mode, draws + (after - (pos + 1)) as nat)
                    },
                    None => ReplayOutcome::Chose { task: next, pos: pos + 1, draws },
                },
                None => match mode {
                    EndMode::Continue => ReplayOutcome::Delegates { pos: steps.len(), draws },
                    EndMode::Stop => ReplayOutcome::Stopped { pos, draws },
                    EndMode::Panic => ReplayOutcome::Fails,
                },
            },
        }
    }
}

pub proof fn lemma_skip_random(steps: Seq<ScheduleStep>, pos: nat)
    requires
        pos <= steps.len(),
    ensures
        pos <= skip_random(steps, pos) <= steps.len(),
        forall|k: int| pos <= k < skip_random(steps, pos) ==> steps[k] == ScheduleStep::Random,
    decreases steps.len() - pos,
{
    if pos < steps.len() && steps[pos as int] == ScheduleStep::Random {
        lemma_skip_random(steps, pos + 1);
    }
}

proof fn lemma_find_task(tasks: Seq<Task>, id: TaskId, from: int)
    requires
        0 <= from,
    ensures
        find_task(tasks, id, from) matches Some(i) ==> from <= i < tasks.len() && tasks[i].id.0 == id.0,
    decreases tasks.len() - from,
{
    if from < tasks.len() && tasks[from].id.0 != id.0 {
        lemma_find_task(tasks, id, from + 1);
    }
}

proof fn lemma_replay_walk(
    steps: Seq<ScheduleStep>,
    pos: nat,
    runnable: Seq<Task>,
    target: Option<Seq<u32>>,
    mode: EndMode,
    draws: nat,
)
    requires
        pos <= steps.len(),
    ensures
        replay_walk(steps, pos, runnable, target, mode, draws) matches ReplayOutcome::Chose { task, pos: p, draws: d }
            ==> has_task(runnable, task) && p <= steps.len() && draws <= d,
        replay_walk(steps, pos, runnable, target, mode, draws) matches ReplayOutcome::Stopped { pos: p, draws: d }
            ==> p <= steps.len() && draws <= d,
        replay_walk(steps, pos, runnable, target, mode, draws) matches ReplayOutcome::Delegates { pos: p, draws: d }
            ==> p == steps.len() && draws <= d,
    decreases steps.len() - pos,
{
    if pos < steps.len() {
        match steps[pos as int] {
            ScheduleStep::Random => {},
            ScheduleStep::Task(next) => {
                lemma_find_task(runnable, next, 0);
                match find_task(runnable, next, 0) {
                    Some(i) => {
                        assert(runnable[i].id == next);
                        match target {
                            Some(tc) => {
                                if !clock_le(runnable[i].clock@, tc) {
                                    lemma_skip_random(steps, pos + 1);
                                    let after = skip_random(steps, pos + 1);
                                    lemma_replay_walk(steps, after, runnable, target, mode, draws + (after - (pos + 1)) as nat);
                                }
                            },
                            None => {},
                        }
                    },
                    None => {},
                }
            },
        }
    }
}

/// A scheduler that replays a recorded schedule.
pub struct ReplayScheduler {
    schedule: Schedule,
    steps: usize,
    steps_skipped: usize,
    started: bool,
    on_schedule_end: OnScheduleEnd<Box<dyn Scheduler>>,
    data_source: RandomDataSource,
    target_clock: Option<VectorClock>,
}

impl ReplayScheduler {
    /// The schedule being replayed.
    pub closed spec fn schedule(&self) -> ScheduleView {
        self.schedule@
    }

    /// The position in the schedule: the number of its steps followed or skipped.
    pub closed spec fn position(&self) -> nat {
        self.steps as nat
    }

    /// The number of steps skipped because they were not causally before the target.
    pub closed spec fn skipped(&self) -> nat {
        self.steps_skipped as nat
    }

    /// Whether the replay has started its one execution.
    pub closed spec fn started(&self) -> bool {
        self.started
    }

    /// What happens once the schedule can no longer be followed.
    pub closed spec fn mode(&self) -> EndMode {
        match self.on_schedule_end {
            OnScheduleEnd::Panic => EndMode::Panic,
            OnScheduleEnd::Stop => EndMode::Stop,
            OnScheduleEnd::Continue(_) => EndMode::Continue,
            OnScheduleEnd::ContinueRandom(_) => EndMode::Continue,
        }
    }

    /// The random scheduler that continues the execution after the schedule, if that is the
    /// continuation.
    pub closed spec fn random_continuation(&self) -> Option<RandomScheduler> {
        match self.on_schedule_end {
            OnScheduleEnd::ContinueRandom(s) => Some(s),
            _ => None,
        }
    }

    /// The clock of the failure to reproduce, if one was set.
    pub closed spec fn target(&self) -> Option<Seq<u32>> {
        match self.target_clock {
            Some(c) => Some(c@),
            None => None,
        }
    }

    /// The source of random values.
    pub closed spec fn data_source(&self) -> RandomDataSource {
        self.data_source
    }

    /// Whether the continuation scheduler, if there is one, can choose among these tasks.
    pub closed spec fn continuation_can_choose(&self, runnable: Seq<Task>, current: Option<TaskId>, is_yielding: bool) -> bool {
        match self.on_schedule_end {
            OnScheduleEnd::Continue(s) => s.wf() && s.can_choose(runnable, current, is_yielding),
            OnScheduleEnd::ContinueRandom(s) => s.wf() && s.can_choose(runnable, current, is_yielding),
            _ => true,
        }
    }

    /// Whether the continuation scheduler, if there is one, may choose `r` among these tasks.
    pub closed spec fn continuation_gives(&self, runnable: Seq<Task>, current: Option<TaskId>, is_yielding: bool, r: Option<TaskId>) -> bool {
        match self.on_schedule_end {
            OnScheduleEnd::Continue(s) => s.next_task_gives(runnable, current, is_yielding, r),
            OnScheduleEnd::ContinueRandom(s) => s.next_task_gives(runnable, current, is_yielding, r),
            _ => false,
        }
    }

    /// A replay of the schedule that the text holds, in any encoding and alphabet.
    pub fn new_from_encoded(encoded_schedule: &str) -> (r: ReplayScheduler)
        requires
            deserialize_spec(encoded_schedule@) is Some,
        ensures
            r.wf(),
            r.schedule() == deserialize_spec(encoded_schedule@)->0,
            r.position() == 0,
            r.skipped() == 0,
            r.mode() == EndMode::Panic,
            r.target() is None,
            !r.started(),
            r.data_source().position() == (deserialize_spec(encoded_schedule@)->0.seed, 0nat),
            r.data_source().is_fresh(),
    {
        let schedule = match deserialize_schedule(encoded_schedule) {
            Some(s) => s,
            None => {
                proof {
                    assert(false);
                }
                Schedule::new(0)
            },
        };
        Self::new_from_schedule(schedule)
    }

    /// A replay of the schedule, which fails if the schedule cannot be followed to the end of the
    /// execution.
    pub fn new_from_schedule(schedule: Schedule) -> (r: ReplayScheduler)
        ensures
            r.wf(),
            r.schedule() == schedule@,
            r.position() == 0,
            r.skipped() == 0,
            r.mode() == EndMode::Panic,
            r.target() is None,
            !r.started(),
            r.data_source().position() == (schedule.seed, 0nat),
            r.data_source().is_fresh(),
    {
        let data_source = RandomDataSource::initialize(schedule.seed);
        ReplayScheduler {
            schedule,
            steps: 0,
            steps_skipped: 0,
            started: false,
            on_schedule_end: OnScheduleEnd::Panic,
            data_source,
            target_clock: None,
        }
    }

    /// Lets the replay end the execution where the schedule ends, rather than fail.
    pub fn set_allow_incomplete(&mut self)
        requires
            old(self).wf(),
        ensures
            final(self).wf(),
            final(self).mode() == EndMode::Stop,
            final(self).schedule() == old(self).schedule(),
            final(self).position() == old(self).position(),
            final(self).target() == old(self).target(),
    {
        self.on_schedule_end = OnScheduleEnd::Stop;
    }

    /// Continues the execution after the schedule under a random scheduler seeded with the
    /// schedule's own seed, so that the continuation is reproducible: two replays of one schedule
    /// continue alike.
    pub fn set_continue_after_schedule(&mut self)
        requires
            old(self).wf(),
        ensures
            final(self).wf(),
            final(self).mode() == EndMode::Continue,
            final(self).schedule() == old(self).schedule(),
            final(self).position() == old(self).position(),
            final(self).target() == old(self).target(),
            final(self).random_continuation() matches Some(c) && {
                &&& c.wf()
                &&& c.iterations() == 0
                &&& c.max_iterations() == 1
                &&& c.current_seed() is None
                &&& c.rng_state() == pcg_seeded(old(self).schedule().seed)
                &&& c.data_source().position() == (old(self).schedule().seed, 0nat)
                &&& c.data_source().is_fresh()
                &&& forall|runnable: Seq<Task>, current: Option<TaskId>, is_yielding: bool, t: Option<TaskId>|
                    #[trigger] final(self).continuation_gives(runnable, current, is_yielding, t)
                        == c.next_task_gives(runnable, current, is_yielding, t)
            },
    {
        let seed = self.schedule.seed;
        self.on_schedule_end = OnScheduleEnd::ContinueRandom(RandomScheduler::new_from_seed(seed, 1));
    }

    /// Continues the execution after the schedule under `scheduler`, which only chooses tasks: the
    /// random values still come from the schedule's seed. The scheduler is taken boxed, so that
    /// the one that continues is the very value given.
    pub fn set_continue_after_schedule_with(&mut self, scheduler: Box<dyn Scheduler>)
        requires
            old(self).wf(),
        ensures
            final(self).wf(),
            final(self).mode() == EndMode::Continue,
            final(self).schedule() == old(self).schedule(),
            final(self).position() == old(self).position(),
            final(self).target() == old(self).target(),
            final(self).random_continuation() is None,
            forall|runnable: Seq<Task>, current: Option<TaskId>, is_yielding: bool, t: Option<TaskId>|
                #[trigger] final(self).continuation_gives(runnable, current, is_yielding, t)
                    == scheduler.next_task_gives(runnable, current, is_yielding, t),
            forall|runnable: Seq<Task>, current: Option<TaskId>, is_yielding: bool|
                #[trigger] final(self).continuation_can_choose(runnable, current, is_yielding)
                    == (scheduler.wf() && scheduler.can_choose(runnable, current, is_yielding)),
    {
        let end = OnScheduleEnd::Continue(scheduler);
        self.on_schedule_end = end;
    }

    /// Sets the clock of the failure to reproduce: steps of tasks that are not causally before it
    /// are skipped.
    pub fn set_target_clock(&mut self, clock: VectorClock)
        requires
            old(self).wf(),
        ensures
            final(self).wf(),
            final(self).target() == Some(clock@),
            final(self).mode() == old(self).mode(),
            final(self).schedule() == old(self).schedule(),
            final(self).position() == old(self).position(),
    {
        self.target_clock = Some(clock);
    }

    /// The index of the first runnable task with id `id`.
    fn find(runnable: &[Task], id: TaskId) -> (r: Option<usize>)
        ensures
            match find_task(runnable@, id, 0) {
                Some(i) => r == Some(i as usize),
                None => r is None,
            },
    {
        let mut i: usize = 0;
        while i < runnable.len()
            invariant
                i <= runnable@.len(),
                find_task(runnable@, id, 0) == find_task(runnable@, id, i as int),
            decreases runnable@.len() - i,
        {
            if runnable[i].id.0 == id.0 {
                return Some(i);
            }
            i = i + 1;
        }
        None
    }
}

impl Scheduler for ReplayScheduler {
    closed spec fn wf(&self) -> bool {
        &&& self.data_source.wf()
        &&& self.steps <= self.schedule.steps@.len()
        &&& self.steps_skipped <= self.steps
    }

    open spec fn can_choose(&self, runnable: Seq<Task>, current: Option<TaskId>, is_yielding: bool) -> bool {
        match replay_walk(self.schedule().steps, self.position(), runnable, self.target(), self.mode(), 0) {
            ReplayOutcome::Fails => false,
            ReplayOutcome::Delegates { .. } => self.continuation_can_choose(runnable, current, is_yielding),
            _ => true,
        }
    }

    open spec fn can_start(&self) -> bool {
        true
    }

    open spec fn can_draw(&self) -> bool {
        &&& (self.position() >= self.schedule().steps.len() ==> self.mode() == EndMode::Continue)
        &&& (self.position() < self.schedule().steps.len() && self.schedule().steps[self.position() as int] is Task
            ==> self.mode() == EndMode::Continue)
    }

    /// No execution once the one execution has begun; otherwise one that begins afresh from
    /// the seed the data source moves to.
    open spec fn new_execution_gives(&self, r: Option<ScheduleView>) -> bool {
        if self.started() {
            r is None
        } else {
            r matches Some(v) && v.seed == self.data_source().next_seed() && v.steps.len() == 0
        }
    }

    /// The task the schedule names next, none where the replay stops, or the continuation
    /// scheduler's choice once the schedule is over.
    open spec fn next_task_gives(&self, runnable: Seq<Task>, current: Option<TaskId>, is_yielding: bool, r: Option<TaskId>) -> bool {
        match replay_walk(self.schedule().steps, self.position(), runnable, self.target(), self.mode(), 0) {
            ReplayOutcome::Chose { task, .. } => r == Some(task),
            ReplayOutcome::Stopped { .. } => r is None,
            ReplayOutcome::Delegates { .. } => self.continuation_gives(runnable, current, is_yielding, r),
            ReplayOutcome::Fails => false,
        }
    }

    /// The next value of the data source.
    open spec fn next_u64_gives(&self, r: u64) -> bool {
        r == pcg_value(self.data_source().position().0, self.data_source().position().1)
    }

    fn new_execution(&mut self) -> (r: Option<Schedule>)
        ensures
            old(self).started() ==> r is None,
            !old(self).started() ==> (r matches Some(s) && s.steps@.len() == 0 && final(self).data_source().position()
                == (s.seed, 0nat) && s.seed == old(self).data_source().next_seed()),
            final(self).started(),
            final(self).schedule() == old(self).schedule(),
            final(self).position() == old(self).position(),
            final(self).mode() == old(self).mode(),
            final(self).target() == old(self).target(),
    {
        if self.started {
            None
        } else {
            self.started = true;
            let seed = self.data_source.reinitialize();
            Some(Schedule::new(seed))
        }
    }

    fn next_task(&mut self, runnable: &[Task], current: Option<TaskId>, is_yielding: bool) -> (r: Option<TaskId>)
        ensures
            final(self).schedule() == old(self).schedule(),
            final(self).mode() == old(self).mode(),
            final(self).target() == old(self).target(),
            match replay_walk(old(self).schedule().steps, old(self).position(), runnable@, old(self).target(), old(self).mode(), 0) {
                ReplayOutcome::Chose { task, pos, draws } => r == Some(task) && final(self).position() == pos
                    && final(self).data_source().position() == (old(self).data_source().position().0,
                    old(self).data_source().position().1 + draws),
                ReplayOutcome::Stopped { pos, draws } => r is None && final(self).position() == pos
                    && final(self).data_source().position() == (old(self).data_source().position().0,
                    old(self).data_source().position().1 + draws),
                ReplayOutcome::Delegates { pos, draws } => old(self).continuation_gives(runnable@, current, is_yielding, r)
                    && final(self).position() == pos
                    && final(self).data_source().position() == (old(self).data_source().position().0,
                    old(self).data_source().position().1 + draws),
                ReplayOutcome::Fails => false,
            },
    {
        let ghost steps = self.schedule@.steps;
        let ghost target = self.target();
        let ghost mode = self.mode();
        let ghost start = self.data_source.position();
        let ghost walk = replay_walk(steps, self.steps as nat, runnable@, target, mode, 0);
        let ghost mut draws: nat = 0;
        let len = self.schedule.steps.len();
        loop
            invariant
                self.wf(),
                self.schedule@ == old(self).schedule@,
                steps == self.schedule@.steps,
                len == steps.len(),
                target == self.target(),
                mode == self.mode(),
                target == old(self).target(),
                mode == old(self).mode(),
                self.data_source.position() == (start.0, start.1 + draws),
                start == old(self).data_source().position(),
                walk == replay_walk(old(self).schedule().steps, old(self).position(), runnable@, target, mode, 0),
                walk == replay_walk(steps, self.steps as nat, runnable@, target, mode, draws),
                walk !is Fails,
                walk is Delegates ==> self.continuation_can_choose(runnable@, current, is_yielding),
                self.on_schedule_end == old(self).on_schedule_end,
            decreases len - self.steps,
        {
            if self.steps >= len {
                match &mut self.on_schedule_end {
                    OnScheduleEnd::Panic => {
                        proof {
                            assert(false);
                        }
                        return None;
                    },
                    OnScheduleEnd::Stop => {
                        return None;
                    },
                    OnScheduleEnd::Continue(scheduler) => {
                        return scheduler.next_task(runnable, current, is_yielding);
                    },
                    OnScheduleEnd::ContinueRandom(scheduler) => {
                        return scheduler.next_task(runnable, current, is_yielding);
                    },
                }
            }
            match self.schedule.steps[self.steps] {
                ScheduleStep::Random => {
                    proof {
                        assert(false);
                    }
                    return None;
                },
                ScheduleStep::Task(next) => {
                    proof {
                        lemma_find_task(runnable@, next, 0);
                    }
                    match Self::find(runnable, next) {
                        Some(i) => {
                            proof {
                                assert(runnable@[i as int].id == next);
                                assert(has_task(runnable@, next));
                            }
                            self.steps = self.steps + 1;
                            match &self.target_clock {
                                Some(target_clock) => {
                                    let related = runnable[i].clock.happens_before_or_equal(target_clock);
                                    if related {
                                        proof {
                                            assert(clock_le(runnable@[i as int].clock@, target->0));
                                        }
                                        return Some(next);
                                    } else {
                                        let mut skipped: usize = 1;
                                        let ghost p1 = self.steps as nat;
                                        proof {
                                            lemma_skip_random(steps, p1);
                                        }
                                        while self.steps < len && self.schedule.steps[self.steps] == ScheduleStep::Random
                                            invariant
                                                self.wf(),
                                                self.schedule@ == old(self).schedule@,
                                                steps == self.schedule@.steps,
                                                len == steps.len(),
                                                target == self.target(),
                                                mode == self.mode(),
                                                target == old(self).target(),
                                                mode == old(self).mode(),
                                                p1 >= 1,
                                                self.steps_skipped <= p1 - 1,
                                                p1 <= self.steps <= skip_random(steps, p1),
                                                skip_random(steps, p1) == skip_random(steps, self.steps as nat),
                                                skipped == 1 + self.steps - p1,
                                                self.data_source.position() == (start.0, (start.1 + draws + (self.steps - p1)) as nat),
                                                walk is Delegates ==> self.continuation_can_choose(runnable@, current, is_yielding),
                                                self.on_schedule_end == old(self).on_schedule_end,
                                            decreases len - self.steps,
                                        {
                                            proof {
                                                lemma_skip_random(steps, (self.steps + 1) as nat);
                                                assert(skip_random(steps, self.steps as nat) == skip_random(steps, (self.steps + 1) as nat));
                                            }
                                            skipped = skipped + 1;
                                            self.steps = self.steps + 1;
                                            self.data_source.next_u64();
                                        }
                                        proof {
                                            draws = draws + (self.steps - p1) as nat;
                                        }
                                        self.steps_skipped = self.steps_skipped + skipped;
                                    }
                                },
                                None => {
                                    return Some(next);
                                },
                            }
                        },
                        None => {
                            match &self.on_schedule_end {
                                OnScheduleEnd::Continue(_) | OnScheduleEnd::ContinueRandom(_) => {
                                    self.steps = len;
                                },
                                OnScheduleEnd::Stop => {
                                    return None;
                                },
                                OnScheduleEnd::Panic => {
                                    proof {
                                        assert(false);
                                    }
                                    return None;
                                },
                            }
                        },
                    }
                },
            }
        }
    }

    fn next_u64(&mut self) -> (r: u64)
        ensures
            r == pcg_value(old(self).data_source().position().0, old(self).data_source().position().1),
            final(self).data_source().position() == (old(self).data_source().position().0,
                old(self).data_source().position().1 + 1),
            final(self).schedule() == old(self).schedule(),
            final(self).mode() == old(self).mode(),
            old(self).position() < old(self).schedule().steps.len() && old(self).schedule().steps[old(self).position() as int] is Random
                ==> final(self).position() == old(self).position() + 1,
            old(self).position() < old(self).schedule().steps.len() && old(self).schedule().steps[old(self).position() as int] is Task
                ==> final(self).position() == old(self).schedule().steps.len(),
    {
        let len = self.schedule.steps.len();
        if self.steps >= len {
            return self.data_source.next_u64();
        }
        match self.schedule.steps[self.steps] {
            ScheduleStep::Random => {
                self.steps = self.steps + 1;
                self.data_source.next_u64()
            },
            ScheduleStep::Task(_) => {
                // The program asked for a random value where the schedule expects a context
                // switch, so it has diverged from the schedule.
                self.steps = len;
                self.data_source.next_u64()
            },
        }
    }
}

/// The number of random steps among the steps.
pub open spec fn count_random(steps: Seq<ScheduleStep>) -> nat
    decreases steps.len(),
{
    if steps.len() == 0 {
        0
    } else {
        count_random(steps.drop_last()) + if steps.last() == ScheduleStep::Random { 1nat } else { 0nat }
    }
}

proof fn lemma_count_random_concat(a: Seq<ScheduleStep>, b: Seq<ScheduleStep>)
    ensures
        count_random(a + b) == count_random(a) + count_random(b),
    decreases b.len(),
{
    if b.len() == 0 {
        assert(a + b =~= a);
    } else {
        lemma_count_random_concat(a, b.drop_last());
        assert((a + b).drop_last() =~= a + b.drop_last());
    }
}

proof fn lemma_count_random_all(steps: Seq<ScheduleStep>)
    requires
        forall|k: int| 0 <= k < steps.len() ==> steps[k] == ScheduleStep::Random,
    ensures
        count_random(steps) == steps.len(),
    decreases steps.len(),
{
    if steps.len() > 0 {
        lemma_count_random_all(steps.drop_last());
    }
}

/// Following the schedule draws, past the random values already drawn, one value for each random
/// step it passes over: where it picks a task or stops at a position, the values drawn are those
/// of the random steps between where it started and that position. So a replay that skips the
/// steps of tasks not causally before the target still hands out, at each random step it replays,
/// the value the recorded execution drew there.
pub proof fn lemma_replay_draws_count_random_steps(
    steps: Seq<ScheduleStep>,
    pos: nat,
    runnable: Seq<Task>,
    target: Option<Seq<u32>>,
    mode: EndMode,
    draws: nat,
)
    requires
        pos <= steps.len(),
    ensures
        replay_walk(steps, pos, runnable, target, mode, draws) matches ReplayOutcome::Chose { pos: p, draws: d, .. }
            ==> pos < p <= steps.len() && d == draws + count_random(steps.subrange(pos as int, p as int)),
        replay_walk(steps, pos, runnable, target, mode, draws) matches ReplayOutcome::Stopped { pos: p, draws: d }
            ==> pos <= p <= steps.len() && d == draws + count_random(steps.subrange(pos as int, p as int)),
    decreases steps.len() - pos,
{
    if pos >= steps.len() {
        assert(steps.subrange(pos as int, pos as int) =~= Seq::<ScheduleStep>::empty());
    } else {
        assert(steps.subrange(pos as int, pos as int) =~= Seq::<ScheduleStep>::empty());
        match steps[pos as int] {
            ScheduleStep::Random => {},
            ScheduleStep::Task(next) => {
                let one = steps.subrange(pos as int, (pos + 1) as int);
                assert(one =~= seq![steps[pos as int]]);
                assert(count_random(one) == 0) by {
                    assert(one.drop_last() =~= Seq::<ScheduleStep>::empty());
                    assert(count_random(one.drop_last()) == 0);
                    assert(one.last() == ScheduleStep::Task(next));
                }
                match find_task(runnable, next, 0) {
                    Some(i) => match target {
                        Some(tc) => if !clock_le(runnable[i].clock@, tc) {
                            lemma_skip_random(steps, pos + 1);
                            let after = skip_random(steps, pos + 1);
                            let d2 = draws + (after - (pos + 1)) as nat;
                            lemma_replay_walk(steps, after, runnable, target, mode, d2);
                            lemma_replay_draws_count_random_steps(steps, after, runnable, target, mode, d2);
                            let skipped = steps.subrange((pos + 1) as int, after as int);
                            lemma_count_random_all(skipped);
                            match replay_walk(steps, after, runnable, target, mode, d2) {
                                ReplayOutcome::Chose { pos: p, .. } => {
                                    let tail = steps.subrange(after as int, p as int);
                                    assert(steps.subrange(pos as int, p as int) =~= one + skipped + tail);
                                    lemma_count_random_concat(one, skipped);
                                    lemma_count_random_concat(one + skipped, tail);
                                },
                                ReplayOutcome::Stopped { pos: p, .. } => {
                                    let tail = steps.subrange(after as int, p as int);
                                    assert(steps.subrange(pos as int, p as int) =~= one + skipped + tail);
                                    lemma_count_random_concat(one, skipped);
                                    lemma_count_random_concat(one + skipped, tail);
                                },
                                _ => {},
                            }
                        },
                        None => {},
                    },
                    None => {},
                }
            },
        }
    }
}

/// A replay hands the program the random values the recorded execution was handed: a replay
/// built from a schedule is fresh at the schedule's seed, so the execution it begins draws from
/// that seed, from the first value on, as the execution that recorded the schedule did.
pub proof fn lemma_replay_draws_from_the_recorded_seed(replay: ReplayScheduler, seed: u64)
    requires
        replay.data_source().is_fresh(),
        replay.data_source().position() == (seed, 0nat),
    ensures
        replay.data_source().next_seed() == seed,
{
}

} // verus!
