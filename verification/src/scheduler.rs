//! The interface between the runtime and scheduling strategies: what a scheduler sees of a task,
//! the `Scheduler` trait, and the source of the random values handed to the program.
use vstd::prelude::*;
use rand_pcg::Mcg128Xsl64;
use crate::task::TaskId;
use crate::clock::VectorClock;
use crate::schedule::{Schedule, ScheduleView};
use crate::pcg::{pcg_state, pcg_seeded, pcg_next, pcg_after, pcg_value, pcg_from_seed, pcg_next_u64};

verus! {

/// The kind of event a task will perform when it next runs.
#[derive(Clone, Copy, Debug, PartialEq, Eq, Structural)]
pub enum EventKind {
    AtomicRead,
    AtomicWrite,
    AtomicReadWrite,
    BatchSemaphoreAcq,
    BatchSemaphoreRel,
    BarrierWait,
    CondvarWait,
    CondvarNotify,
    Park,
    Unpark,
    ChannelSend,
    ChannelRecv,
    Spawn,
    Yield,
    Sleep,
    Exit,
    Join,
    Unknown,
}

/// What a scheduler sees of a task it may choose: its id, its vector clock, the kind of event it
/// will perform next, its lineage (a hash of where it was spawned, the same hash of its parent,
/// and its parent's id), and the resource its next event touches, if any.
#[derive(Debug)]
pub struct Task {
    pub id: TaskId,
    pub clock: VectorClock,
    pub next_event: EventKind,
    pub signature: u64,
    pub parent_signature: u64,
    pub parent: Option<TaskId>,
    pub resource: Option<u64>,
}

impl Task {
    /// A task with the given id, clock and next event, and no recorded lineage.
    pub fn new(id: TaskId, clock: VectorClock, next_event: EventKind) -> (r: Task)
        ensures
            r.id == id,
            r.clock@ == clock@,
            r.next_event == next_event,
            r.signature == 0,
            r.parent_signature == 0,
            r.parent is None,
            r.resource is None,
    {
        Task { id, clock, next_event, signature: 0, parent_signature: 0, parent: None, resource: None }
    }

    /// A task with the given id, clock, next event and lineage.
    pub fn with_lineage(
        id: TaskId,
        clock: VectorClock,
        next_event: EventKind,
        signature: u64,
        parent_signature: u64,
        parent: Option<TaskId>,
    ) -> (r: Task)
        ensures
            r.id == id,
            r.clock@ == clock@,
            r.next_event == next_event,
            r.signature == signature,
            r.parent_signature == parent_signature,
            r.parent == parent,
            r.resource is None,
    {
        Task { id, clock, next_event, signature, parent_signature, parent, resource: None }
    }

    /// The same task, its next event touching the resource identified by `resource`.
    pub fn on_resource(self, resource: u64) -> (r: Task)
        ensures
            r.id == self.id,
            r.clock@ == self.clock@,
            r.next_event == self.next_event,
            r.signature == self.signature,
            r.parent_signature == self.parent_signature,
            r.parent == self.parent,
            r.resource == Some(resource),
    {
        Task { resource: Some(resource), ..self }
    }

    /// The task's id.
    pub fn id(&self) -> (r: TaskId)
        ensures
            r == self.id,
    {
        self.id
    }
}

/// Whether `id` is the id of one of the tasks.
pub open spec fn has_task(tasks: Seq<Task>, id: TaskId) -> bool {
    exists|i: int| 0 <= i < tasks.len() && #[trigger] tasks[i].id == id
}

/// The view of the schedule a new execution begins from, if one begins.
pub open spec fn schedule_view(r: Option<Schedule>) -> Option<ScheduleView> {
    match r {
        Some(s) => Some(s@),
        None => None,
    }
}

/// A scheduling strategy: it starts executions and, at each scheduling point, chooses which of the
/// runnable tasks runs next, and it supplies the random values the program asks for.
pub trait Scheduler: Send {
    /// The scheduler's internal invariant.
    spec fn wf(&self) -> bool;

    /// Whether the scheduler can make a choice among these runnable tasks.
    spec fn can_choose(&self, runnable: Seq<Task>, current: Option<TaskId>, is_yielding: bool) -> bool;

    /// Whether the scheduler can supply a random value now.
    spec fn can_draw(&self) -> bool;

    /// Whether the scheduler can begin another execution; it cannot only where a count it keeps
    /// would overflow.
    spec fn can_start(&self) -> bool;

    /// Whether beginning a new execution in this state may give `r`: the schedule it begins
    /// from, or `None` when there are no more executions.
    spec fn new_execution_gives(&self, r: Option<ScheduleView>) -> bool;

    /// Whether choosing among `runnable` in this state may give `r`.
    spec fn next_task_gives(&self, runnable: Seq<Task>, current: Option<TaskId>, is_yielding: bool, r: Option<TaskId>) -> bool;

    /// Whether drawing a random value in this state may give `r`.
    spec fn next_u64_gives(&self, r: u64) -> bool;

    /// Begins a new execution, returning the schedule it starts from, or `None` when the
    /// scheduler has no more executions to run.
    fn new_execution(&mut self) -> (r: Option<Schedule>)
        requires
            old(self).wf(),
            old(self).can_start(),
        ensures
            final(self).wf(),
            old(self).new_execution_gives(schedule_view(r)),
    ;

    /// Chooses the task to run next among the runnable ones, or `None` to end the execution.
    /// A chosen task is always one of the runnable tasks.
    fn next_task(&mut self, runnable: &[Task], current: Option<TaskId>, is_yielding: bool) -> (r: Option<TaskId>)
        requires
            old(self).wf(),
            old(self).can_choose(runnable@, current, is_yielding),
        ensures
            final(self).wf(),
            r matches Some(id) ==> has_task(runnable@, id),
            old(self).next_task_gives(runnable@, current, is_yielding, r),
    ;

    /// The next random value for the program.
    fn next_u64(&mut self) -> (r: u64)
        requires
            old(self).wf(),
            old(self).can_draw(),
        ensures
            final(self).wf(),
            old(self).next_u64_gives(r),
    ;
}

/// A boxed scheduler schedules as the scheduler inside it does.
impl Scheduler for Box<dyn Scheduler> {
    open spec fn wf(&self) -> bool {
        (**self).wf()
    }

    open spec fn can_choose(&self, runnable: Seq<Task>, current: Option<TaskId>, is_yielding: bool) -> bool {
        (**self).can_choose(runnable, current, is_yielding)
    }

    open spec fn can_draw(&self) -> bool {
        (**self).can_draw()
    }

    open spec fn can_start(&self) -> bool {
        (**self).can_start()
    }

    open spec fn new_execution_gives(&self, r: Option<ScheduleView>) -> bool {
        (**self).new_execution_gives(r)
    }

    open spec fn next_task_gives(&self, runnable: Seq<Task>, current: Option<TaskId>, is_yielding: bool, r: Option<TaskId>) -> bool {
        (**self).next_task_gives(runnable, current, is_yielding, r)
    }

    open spec fn next_u64_gives(&self, r: u64) -> bool {
        (**self).next_u64_gives(r)
    }

    fn new_execution(&mut self) -> (r: Option<Schedule>) {
        (**self).new_execution()
    }

    fn next_task(&mut self, runnable: &[Task], current: Option<TaskId>, is_yielding: bool) -> (r: Option<TaskId>) {
        (**self).next_task(runnable, current, is_yielding)
    }

    fn next_u64(&mut self) -> (r: u64) {
        (**self).next_u64()
    }
}

/// An oracle for the random values handed to tasks that ask for them.
pub trait DataSource: Sized {
    /// What determines the sequence of values.
    type Seed;

    /// A source determined by `seed`.
    fn initialize(seed: Self::Seed) -> Self;

    /// Moves to a fresh sequence, returning the seed that reproduces it.
    fn reinitialize(&mut self) -> Self::Seed;

    /// The next value.
    fn next_u64(&mut self) -> u64;
}

/// A source of random values drawn from a `Pcg64Mcg` generator: the values are determined by
/// the seed and the number of values drawn since. A source just set to a seed is fresh: the first
/// move to a fresh sequence keeps that seed, so that a source set to the seed a schedule recorded
/// hands out the values the recorded execution was handed.
pub struct RandomDataSource {
    rng: Mcg128Xsl64,
    fresh: bool,
    seed: u64,
    draws: Ghost<nat>,
}

impl RandomDataSource {
    /// The seed of the current sequence, and the number of values drawn from it.
    pub closed spec fn position(&self) -> (u64, nat) {
        (self.seed, self.draws@)
    }

    /// Whether the source was set to its seed and has not moved since.
    pub closed spec fn is_fresh(&self) -> bool {
        self.fresh
    }

    /// The seed of the sequence the next move to a fresh sequence goes to: the current seed for a
    /// fresh source, else the next value of the current sequence.
    pub open spec fn next_seed(&self) -> u64 {
        if self.is_fresh() {
            self.position().0
        } else {
            pcg_value(self.position().0, self.position().1)
        }
    }

    /// The generator is at the position, and a fresh source has handed out no value.
    pub closed spec fn wf(&self) -> bool {
        &&& pcg_state(self.rng) == pcg_after(pcg_seeded(self.seed), self.draws@)
        &&& self.fresh ==> self.draws@ == 0
    }
}

impl DataSource for RandomDataSource {
    type Seed = u64;

    fn initialize(seed: u64) -> (r: RandomDataSource)
        ensures
            r.wf(),
            r.position() == (seed, 0nat),
            r.is_fresh(),
    {
        RandomDataSource { rng: pcg_from_seed(seed), fresh: true, seed, draws: Ghost(0) }
    }

    fn reinitialize(&mut self) -> (r: u64)
        ensures
            old(self).wf() ==> r == old(self).next_seed(),
            old(self).is_fresh() ==> r == old(self).position().0,
            final(self).wf(),
            final(self).position() == (r, 0nat),
            !final(self).is_fresh(),
    {
        if self.fresh {
            self.fresh = false;
            self.rng = pcg_from_seed(self.seed);
            self.draws = Ghost(0);
            self.seed
        } else {
            let seed = pcg_next_u64(&mut self.rng);
            self.rng = pcg_from_seed(seed);
            self.seed = seed;
            self.draws = Ghost(0);
            seed
        }
    }

    fn next_u64(&mut self) -> (r: u64)
        ensures
            old(self).wf() ==> r == pcg_value(old(self).position().0, old(self).position().1),
            old(self).wf() ==> final(self).wf(),
            final(self).position() == (old(self).position().0, old(self).position().1 + 1),
            !final(self).is_fresh(),
    {
        let r = pcg_next_u64(&mut self.rng);
        self.draws = Ghost(self.draws@ + 1);
        self.fresh = false;
        r
    }
}

} // verus!
