//! Partial order sampling: a scheduler that gives each task a random priority and always runs
//! the task of highest priority. The priority of the task that runs is drawn anew, and so is
//! that of every task whose next event races with it; the others' priorities grow by a decay, so
//! that no task waits with a low priority for long.
use vstd::prelude::*;
use rand_pcg::Mcg128Xsl64;
use crate::task::TaskId;
use crate::schedule::{Schedule, ScheduleView};
use crate::scheduler::{Scheduler, Task, EventKind, DataSource, RandomDataSource, has_task};
use crate::pcg::{pcg_value, pcg_state, pcg_seeded, pcg_next, pcg_from_seed, pcg_next_u32};

verus! {

/// Whether an event of this kind writes the resource it touches.
pub open spec fn is_write(e: EventKind) -> bool {
    match e {
        EventKind::AtomicWrite | EventKind::AtomicReadWrite | EventKind::BatchSemaphoreAcq
        | EventKind::BatchSemaphoreRel | EventKind::BarrierWait | EventKind::ChannelSend
        | EventKind::ChannelRecv | EventKind::CondvarWait | EventKind::Unpark
        | EventKind::CondvarNotify => true,
        _ => false,
    }
}

/// Whether the next events of two tasks race: they touch the same resource, or both none, and
/// one of them writes.
pub open spec fn racing(a: Task, b: Task) -> bool {
    a.resource == b.resource && (is_write(a.next_event) || is_write(b.next_event))
}

/// Whether an event of this kind writes the resource it touches.
pub fn event_writes(e: EventKind) -> (r: bool)
    ensures
        r == is_write(e),
{
    match e {
        EventKind::AtomicWrite | EventKind::AtomicReadWrite | EventKind::BatchSemaphoreAcq
        | EventKind::BatchSemaphoreRel | EventKind::BarrierWait | EventKind::ChannelSend
        | EventKind::ChannelRecv | EventKind::CondvarWait | EventKind::Unpark
        | EventKind::CondvarNotify => true,
        _ => false,
    }
}

/// Whether the next events of two tasks race.
pub fn is_racing(a: &Task, b: &Task) -> (r: bool)
    ensures
        r == racing(*a, *b),
{
    a.resource == b.resource && (event_writes(a.next_event) || event_writes(b.next_event))
}

/// The priorities once there is one for task `tid`: new priorities are drawn for the tasks not
/// yet seen.
pub open spec fn grow(prios: Seq<u32>, state: u128, tid: nat) -> (Seq<u32>, u128)
    decreases tid + 1 - prios.len(),
{
    if prios.len() > tid {
        (prios, state)
    } else {
        let (v, next) = pcg_next(state);
        grow(prios.push(v as u32), next, tid)
    }
}

/// The priorities once every runnable task has one, seen in order.
pub open spec fn grow_all(prios: Seq<u32>, state: u128, runnable: Seq<Task>) -> (Seq<u32>, u128)
    decreases runnable.len(),
{
    if runnable.len() == 0 {
        (prios, state)
    } else {
        let (p, s) = grow_all(prios, state, runnable.drop_last());
        grow(p, s, runnable.last().id.0 as nat)
    }
}

/// The index of the first runnable task of highest priority.
pub open spec fn best(runnable: Seq<Task>, prios: Seq<u32>) -> int
    decreases runnable.len(),
{
    if runnable.len() <= 1 {
        0
    } else {
        let b = best(runnable.drop_last(), prios);
        if prios[runnable.last().id.0 as int] > prios[runnable[b].id.0 as int] { runnable.len() - 1 } else { b }
    }
}

/// The priorities after `next` runs: those of `next` and of the tasks racing with it are drawn
/// anew, the others grow by `decay`, the runnable tasks taken in order.
pub open spec fn reprioritize(prios: Seq<u32>, state: u128, runnable: Seq<Task>, next: Task, decay: u32) -> (Seq<u32>, u128)
    decreases runnable.len(),
{
    if runnable.len() == 0 {
        (prios, state)
    } else {
        let (p, s) = reprioritize(prios, state, runnable.drop_last(), next, decay);
        let t = runnable.last();
        let i = t.id.0 as int;
        if t.id == next.id || racing(t, next) {
            let (v, s2) = pcg_next(s);
            (p.update(i, v as u32), s2)
        } else {
            let sum = p[i] + decay;
            (p.update(i, if sum > u32::MAX { u32::MAX } else { sum as u32 }), s)
        }
    }
}

proof fn lemma_grow(prios: Seq<u32>, state: u128, tid: nat)
    ensures
        grow(prios, state, tid).0.len() > tid,
        grow(prios, state, tid).0.len() >= prios.len(),
        forall|i: int| 0 <= i < prios.len() ==> #[trigger] grow(prios, state, tid).0[i] == prios[i],
    decreases tid + 1 - prios.len(),
{
    if prios.len() <= tid {
        let (v, next) = pcg_next(state);
        lemma_grow(prios.push(v as u32), next, tid);
        assert forall|i: int| 0 <= i < prios.len() implies #[trigger] grow(prios, state, tid).0[i] == prios[i] by {
            assert(prios.push(v as u32)[i] == prios[i]);
        }
    }
}

proof fn lemma_grow_all(prios: Seq<u32>, state: u128, runnable: Seq<Task>)
    ensures
        forall|k: int| 0 <= k < runnable.len() ==> (#[trigger] runnable[k]).id.0 < grow_all(prios, state, runnable).0.len(),
        grow_all(prios, state, runnable).0.len() >= prios.len(),
    decreases runnable.len(),
{
    if runnable.len() > 0 {
        let prefix = runnable.drop_last();
        lemma_grow_all(prios, state, prefix);
        let (p, s) = grow_all(prios, state, prefix);
        lemma_grow(p, s, runnable.last().id.0 as nat);
        assert forall|k: int| 0 <= k < runnable.len() implies (#[trigger] runnable[k]).id.0 < grow_all(prios, state, runnable).0.len() by {
            if k < runnable.len() - 1 {
                assert(runnable[k] == prefix[k]);
            }
        }
    }
}

proof fn lemma_best(runnable: Seq<Task>, prios: Seq<u32>)
    requires
        runnable.len() > 0,
    ensures
        0 <= best(runnable, prios) < runnable.len(),
    decreases runnable.len(),
{
    if runnable.len() > 1 {
        lemma_best(runnable.drop_last(), prios);
    }
}

/// The state of a partial order sampling scheduler.
pub struct PosView {
    pub decay: u32,
    pub priorities: Seq<u32>,
    pub iterations: nat,
    pub max_iterations: nat,
    pub rng: u128,
    pub current_seed: Option<u64>,
}

/// A scheduler that samples partial orders through random priorities.
pub struct PosScheduler {
    decay: u32,
    priorities: Vec<u32>,
    max_iterations: usize,
    rng: Mcg128Xsl64,
    iterations: usize,
    data_source: RandomDataSource,
    current_seed: Option<u64>,
}

impl PosScheduler {
    pub closed spec fn view(&self) -> PosView {
        PosView {
            decay: self.decay,
            priorities: self.priorities@,
            iterations: self.iterations as nat,
            max_iterations: self.max_iterations as nat,
            rng: pcg_state(self.rng),
            current_seed: self.current_seed,
        }
    }

    /// The source of random values.
    pub closed spec fn data_source(&self) -> RandomDataSource {
        self.data_source
    }

    /// A scheduler seeded with `seed` whose priorities decay by `decay` at each step. Two
    /// schedulers with the same seed make the same choices on the same workload.
    pub fn new_from_seed(seed: u64, max_iterations: usize, decay: u32) -> (r: PosScheduler)
        ensures
            r.wf(),
            r.view() == (PosView {
                decay,
                priorities: Seq::empty(),
                iterations: 0,
                max_iterations: max_iterations as nat,
                rng: pcg_seeded(seed),
                current_seed: None,
            }),
            r.data_source().position() == (seed, 0nat),
    {
        PosScheduler {
            decay,
            priorities: Vec::new(),
            max_iterations,
            rng: pcg_from_seed(seed),
            iterations: 0,
            data_source: RandomDataSource::initialize(seed),
            current_seed: None,
        }
    }

    /// The seed of the execution under way, which replays it; `None` once the executions are
    /// over.
    pub fn seed(&self) -> (r: Option<u64>)
        ensures
            r == self.view().current_seed,
    {
        self.current_seed
    }
}

impl Scheduler for PosScheduler {
    closed spec fn wf(&self) -> bool {
        self.data_source.wf() && self.iterations <= self.max_iterations
    }

    open spec fn can_choose(&self, runnable: Seq<Task>, current: Option<TaskId>, is_yielding: bool) -> bool {
        forall|k: int| 0 <= k < runnable.len() ==> (#[trigger] runnable[k]).id.0 < usize::MAX
    }

    open spec fn can_draw(&self) -> bool {
        true
    }

    open spec fn can_start(&self) -> bool {
        true
    }

    /// No execution once all executions are run; otherwise one that begins afresh from the seed the data
    /// source moves to.
    open spec fn new_execution_gives(&self, r: Option<ScheduleView>) -> bool {
        if self.view().iterations >= self.view().max_iterations {
            r is None
        } else {
            r matches Some(v) && v.seed == self.data_source().next_seed() && v.steps.len() == 0
        }
    }

    /// The runnable task of highest priority once new tasks have theirs; none if no task is
    /// runnable.
    open spec fn next_task_gives(&self, runnable: Seq<Task>, current: Option<TaskId>, is_yielding: bool, r: Option<TaskId>) -> bool {
        if runnable.len() == 0 {
            r is None
        } else {
            let (p1, s1) = grow_all(self.view().priorities, self.view().rng, runnable);
            r == Some(runnable[best(runnable, p1)].id)
        }
    }

    /// The next value of the data source.
    open spec fn next_u64_gives(&self, r: u64) -> bool {
        r == pcg_value(self.data_source().position().0, self.data_source().position().1)
    }

    fn new_execution(&mut self) -> (r: Option<Schedule>)
        ensures
            r matches Some(s) ==> s.seed == old(self).data_source().next_seed()
                && final(self).data_source().position() == (s.seed, 0nat),
            r is None ==> final(self).data_source() == old(self).data_source(),
            old(self).view().iterations >= old(self).view().max_iterations ==> r is None && final(self).view() == (PosView {
                priorities: Seq::empty(),
                current_seed: None,
                ..old(self).view()
            }),
            old(self).view().iterations < old(self).view().max_iterations ==> (r matches Some(s)
                && s.steps@.len() == 0
                && final(self).view() == (PosView {
                    priorities: Seq::empty(),
                    iterations: old(self).view().iterations + 1,
                    rng: pcg_seeded(s.seed),
                    current_seed: Some(s.seed),
                    ..old(self).view()
                })
                && final(self).data_source().position() == (s.seed, 0nat)),
    {
        if self.iterations >= self.max_iterations {
            self.current_seed = None;
            self.priorities = Vec::new();
            proof {
                assert(self.view().priorities =~= Seq::<u32>::empty());
            }
            None
        } else {
            self.iterations = self.iterations + 1;
            let seed = self.data_source.reinitialize();
            self.priorities = Vec::new();
            self.rng = pcg_from_seed(seed);
            self.current_seed = Some(seed);
            proof {
                assert(self.view().priorities =~= Seq::<u32>::empty());
            }
            Some(Schedule::new(seed))
        }
    }

    fn next_task(&mut self, runnable: &[Task], current: Option<TaskId>, is_yielding: bool) -> (r: Option<TaskId>)
        ensures
            runnable@.len() == 0 ==> r is None && final(self).view() == old(self).view(),
            runnable@.len() > 0 ==> ({
                let (p1, s1) = grow_all(old(self).view().priorities, old(self).view().rng, runnable@);
                let b = best(runnable@, p1);
                let (p2, s2) = reprioritize(p1, s1, runnable@, runnable@[b], old(self).view().decay);
                &&& r == Some(runnable@[b].id)
                &&& final(self).view() == (PosView { priorities: p2, rng: s2, ..old(self).view() })
            }),
    {
        if runnable.len() == 0 {
            return None;
        }
        let ghost p0 = self.priorities@;
        let ghost s0 = pcg_state(self.rng);
        let mut best_index: usize = 0;
        let mut i: usize = 0;
        while i < runnable.len()
            invariant
                i <= runnable@.len(),
                runnable@.len() > 0,
                forall|k: int| 0 <= k < runnable@.len() ==> (#[trigger] runnable@[k]).id.0 < usize::MAX,
                (self.priorities@, pcg_state(self.rng)) == grow_all(p0, s0, runnable@.take(i as int)),
                i > 0 ==> best_index == best(runnable@.take(i as int), self.priorities@),
                i > 0 ==> best_index < i,
                forall|k: int| 0 <= k < i ==> (#[trigger] runnable@[k]).id.0 < self.priorities@.len(),
                self.decay == old(self).decay,
                self.iterations == old(self).iterations,
                self.max_iterations == old(self).max_iterations,
                self.current_seed == old(self).current_seed,
                self.data_source == old(self).data_source,
                p0 == old(self).view().priorities,
                s0 == old(self).view().rng,
            decreases runnable@.len() - i,
        {
            let tid = runnable[i].id.0;
            let ghost before = self.priorities@;
            let ghost before_state = pcg_state(self.rng);
            proof {
                assert(runnable@.take(i + 1).drop_last() =~= runnable@.take(i as int));
                assert(runnable@.take(i + 1).last() == runnable@[i as int]);
            }
            while tid >= self.priorities.len()
                invariant
                    tid < usize::MAX,
                    grow(self.priorities@, pcg_state(self.rng), tid as nat) == grow(before, before_state, tid as nat),
                    self.priorities@.len() >= before.len(),
                    forall|k: int| 0 <= k < before.len() ==> #[trigger] self.priorities@[k] == before[k],
                    self.decay == old(self).decay,
                    self.iterations == old(self).iterations,
                    self.max_iterations == old(self).max_iterations,
                    self.current_seed == old(self).current_seed,
                    self.data_source == old(self).data_source,
                decreases tid + 1 - self.priorities@.len(),
            {
                let v = pcg_next_u32(&mut self.rng);
                self.priorities.push(v);
            }
            proof {
                lemma_grow(before, before_state, tid as nat);
                assert forall|k: int| 0 <= k < i + 1 implies (#[trigger] runnable@[k]).id.0 < self.priorities@.len() by {}
            }
            if i == 0 {
                best_index = 0;
                proof {
                    assert(runnable@.take(1).len() == 1);
                }
            } else {
                let p_new = self.priorities[tid];
                let p_best = self.priorities[runnable[best_index].id.0];
                proof {
                    let pre = runnable@.take(i as int);
                    assert(pre[best_index as int] == runnable@[best_index as int]);
                    assert(runnable@.take(i + 1)[best_index as int] == runnable@[best_index as int]);
                    lemma_best_stable(pre, before, self.priorities@);
                }
                if p_new > p_best {
                    best_index = i;
                }
            }
            i = i + 1;
        }
        proof {
            assert(runnable@.take(i as int) =~= runnable@);
            lemma_best(runnable@, self.priorities@);
        }
        let ghost p1 = self.priorities@;
        let ghost s1 = pcg_state(self.rng);
        let next = &runnable[best_index];
        let mut j: usize = 0;
        while j < runnable.len()
            invariant
                j <= runnable@.len(),
                best_index < runnable@.len(),
                *next == runnable@[best_index as int],
                forall|k: int| 0 <= k < runnable@.len() ==> (#[trigger] runnable@[k]).id.0 < p1.len(),
                (self.priorities@, pcg_state(self.rng)) == reprioritize(p1, s1, runnable@.take(j as int), runnable@[best_index as int], self.decay),
                self.priorities@.len() == p1.len(),
                self.decay == old(self).decay,
                self.iterations == old(self).iterations,
                self.max_iterations == old(self).max_iterations,
                self.current_seed == old(self).current_seed,
                self.data_source == old(self).data_source,
            decreases runnable@.len() - j,
        {
            let t = &runnable[j];
            let tid = t.id.0;
            proof {
                assert(runnable@.take(j + 1).drop_last() =~= runnable@.take(j as int));
                assert(runnable@.take(j + 1).last() == runnable@[j as int]);
                assert(runnable@[j as int].id.0 < p1.len());
            }
            if t.id == next.id || is_racing(t, next) {
                let v = pcg_next_u32(&mut self.rng);
                self.priorities.set(tid, v);
            } else {
                let p = self.priorities[tid];
                let q = p.saturating_add(self.decay);
                self.priorities.set(tid, q);
            }
            j = j + 1;
        }
        proof {
            assert(runnable@.take(j as int) =~= runnable@);
        }
        Some(next.id)
    }

    fn next_u64(&mut self) -> (r: u64)
        ensures
            r == pcg_value(old(self).data_source().position().0, old(self).data_source().position().1),
            final(self).data_source().position() == (old(self).data_source().position().0,
                old(self).data_source().position().1 + 1),
            final(self).view() == old(self).view(),
    {
        self.data_source.next_u64()
    }
}

/// The best of a prefix depends only on the priorities of its tasks, which growing keeps.
proof fn lemma_best_stable(runnable: Seq<Task>, p: Seq<u32>, q: Seq<u32>)
    requires
        forall|k: int| 0 <= k < runnable.len() ==> (#[trigger] runnable[k]).id.0 < p.len(),
        q.len() >= p.len(),
        forall|k: int| 0 <= k < p.len() ==> #[trigger] q[k] == p[k],
    ensures
        best(runnable, p) == best(runnable, q),
    decreases runnable.len(),
{
    if runnable.len() > 1 {
        let pre = runnable.drop_last();
        assert forall|k: int| 0 <= k < pre.len() implies (#[trigger] pre[k]).id.0 < p.len() by {
            assert(pre[k] == runnable[k]);
        }
        lemma_best_stable(pre, p, q);
        lemma_best(pre, p);
        let b = best(pre, p);
        assert(pre[b] == runnable[b]);
        assert(runnable[runnable.len() - 1] == runnable.last());
    }
}

} // verus!
