//! Probabilistic concurrency testing: a scheduler that gives every task a distinct priority and
//! always runs the runnable task of highest priority (lowest priority value), lowering the
//! priority of the running task at a few randomly chosen steps. The first execution runs the
//! oldest task first, to learn how many steps an execution takes; later executions shuffle the
//! priorities and sample the steps at which priorities change.
use vstd::prelude::*;
use rand_pcg::Mcg128Xsl64;
use crate::task::TaskId;
use crate::schedule::{Schedule, ScheduleView};
use crate::scheduler::{Scheduler, Task, DataSource, RandomDataSource, has_task};
use crate::pcg::{
    pcg_value, pcg_state, pcg_seeded, pcg_from_seed, pcg_gen_range, pcg_shuffle, pcg_sample, distinct_below, pcg_below,
    pcg_shuffled_indices, pcg_sample_indices,
};

verus! {

/// The number of tasks that have priorities before any task is seen.
pub const DEFAULT_INLINE_TASKS: usize = 16;

/// The priorities once every task up to `upto` has one: each new task swaps in the priority of a
/// random known task other than task zero, which gets a fresh priority, or keeps the fresh
/// priority itself.
pub open spec fn add_new_tasks(prios: Seq<usize>, next: nat, state: u128, upto: nat) -> (Seq<usize>, nat, u128)
    decreases upto - prios.len(),
{
    if prios.len() >= upto || prios.len() == 0 {
        (prios, next, state)
    } else {
        let (g, s1) = pcg_gen_range(state, prios.len());
        let target = g + 1;
        if target >= prios.len() {
            add_new_tasks(prios.push(next as usize), next + 1, s1, upto)
        } else {
            add_new_tasks(prios.update(target as int, next as usize).push(prios[target as int]), next + 1, s1, upto)
        }
    }
}

/// The largest id among the tasks.
pub open spec fn max_id(runnable: Seq<Task>) -> nat
    decreases runnable.len(),
{
    if runnable.len() == 0 {
        0
    } else {
        let m = max_id(runnable.drop_last());
        if runnable.last().id.0 > m { runnable.last().id.0 as nat } else { m }
    }
}

/// The index of the first runnable task of lowest priority value.
pub open spec fn lowest(runnable: Seq<Task>, prios: Seq<usize>) -> int
    decreases runnable.len(),
{
    if runnable.len() <= 1 {
        0
    } else {
        let b = lowest(runnable.drop_last(), prios);
        if prios[runnable.last().id.0 as int] < prios[runnable[b].id.0 as int] { runnable.len() - 1 } else { b }
    }
}

/// Whether the priorities are distinct and all below `next`.
pub open spec fn priorities_wf(prios: Seq<usize>, next: nat) -> bool {
    &&& forall|i: int| 0 <= i < prios.len() ==> #[trigger] prios[i] < next
    &&& forall|i: int, j: int| 0 <= i < j < prios.len() ==> prios[i] != prios[j]
}

proof fn lemma_add_new_tasks(prios: Seq<usize>, next: nat, state: u128, upto: nat)
    requires
        priorities_wf(prios, next),
        prios.len() > 0,
        next + upto <= usize::MAX + prios.len(),
    ensures
        ({
            let (p, n, s) = add_new_tasks(prios, next, state, upto);
            &&& priorities_wf(p, n)
            &&& p.len() >= upto && p.len() >= prios.len()
            &&& (prios.len() >= upto ==> p == prios && n == next)
            &&& (prios.len() < upto ==> n == next + upto - prios.len())
        }),
    decreases upto - prios.len(),
{
    if prios.len() < upto {
        let (g, s1) = pcg_gen_range(state, prios.len());
        let target = g + 1;
        if target >= prios.len() {
            let q = prios.push(next as usize);
            assert forall|i: int, j: int| 0 <= i < j < q.len() implies q[i] != q[j] by {
                if j == q.len() - 1 {
                    assert(q[i] == prios[i]);
                }
            }
            assert forall|i: int| 0 <= i < q.len() implies #[trigger] q[i] < next + 1 by {
                if i < prios.len() {
                    assert(q[i] == prios[i]);
                }
            }
            lemma_add_new_tasks(q, next + 1, s1, upto);
        } else {
            let q = prios.update(target as int, next as usize).push(prios[target as int]);
            assert forall|i: int, j: int| 0 <= i < j < q.len() implies q[i] != q[j] by {
                if j == q.len() - 1 {
                    if i == target {
                        assert(q[i] == next);
                    } else {
                        assert(q[i] == prios[i]);
                    }
                } else {
                    if i == target {
                        assert(q[j] == prios[j]);
                    } else if j == target {
                        assert(q[i] == prios[i]);
                    } else {
                        assert(q[i] == prios[i] && q[j] == prios[j]);
                    }
                }
            }
            assert forall|i: int| 0 <= i < q.len() implies #[trigger] q[i] < next + 1 by {
                if i < prios.len() && i != target {
                    assert(q[i] == prios[i]);
                }
            }
            lemma_add_new_tasks(q, next + 1, s1, upto);
        }
    }
}

/// The lowest-valued runnable task has a priority value no larger than any runnable task's.
pub proof fn lemma_lowest(runnable: Seq<Task>, prios: Seq<usize>)
    requires
        runnable.len() > 0,
    ensures
        0 <= lowest(runnable, prios) < runnable.len(),
        forall|k: int| 0 <= k < runnable.len()
            ==> prios[runnable[lowest(runnable, prios)].id.0 as int] <= prios[(#[trigger] runnable[k]).id.0 as int],
    decreases runnable.len(),
{
    if runnable.len() > 1 {
        let pre = runnable.drop_last();
        lemma_lowest(pre, prios);
        let b = lowest(pre, prios);
        assert(pre[b] == runnable[b]);
        assert(runnable[runnable.len() - 1] == runnable.last());
        assert forall|k: int| 0 <= k < runnable.len()
            implies prios[runnable[lowest(runnable, prios)].id.0 as int] <= prios[(#[trigger] runnable[k]).id.0 as int] by {
            if k < runnable.len() - 1 {
                assert(runnable[k] == pre[k]);
            }
        }
    }
}

proof fn lemma_max_id(runnable: Seq<Task>)
    ensures
        forall|k: int| 0 <= k < runnable.len() ==> (#[trigger] runnable[k]).id.0 <= max_id(runnable),
        runnable.len() > 0 ==> exists|k: int| 0 <= k < runnable.len() && runnable[k].id.0 == max_id(runnable),
    decreases runnable.len(),
{
    if runnable.len() > 0 {
        let pre = runnable.drop_last();
        lemma_max_id(pre);
        assert forall|k: int| 0 <= k < runnable.len() implies (#[trigger] runnable[k]).id.0 <= max_id(runnable) by {
            if k < runnable.len() - 1 {
                assert(runnable[k] == pre[k]);
            }
        }
        if runnable.len() > 1 && runnable.last().id.0 <= max_id(pre) {
            let k = choose|k: int| 0 <= k < pre.len() && pre[k].id.0 == max_id(pre);
            assert(runnable[k] == pre[k]);
        } else {
            assert(runnable[runnable.len() - 1] == runnable.last());
        }
    }
}

/// The index of the task, if there is one.
pub open spec fn index_of(t: Option<TaskId>) -> int {
    match t {
        Some(c) => c.0 as int,
        None => 0,
    }
}

/// The number of tasks with priorities once the runnable tasks are seen.
pub open spec fn known_after(prios_len: nat, runnable: Seq<Task>) -> nat {
    if max_id(runnable) + 1 > prios_len { max_id(runnable) + 1 } else { prios_len }
}

/// The state of a PCT scheduler.
pub struct PctView {
    pub max_iterations: nat,
    pub max_depth: nat,
    pub iterations: nat,
    pub priorities: Seq<usize>,
    pub next_priority: nat,
    pub change_points: Seq<usize>,
    pub max_steps: nat,
    pub steps: nat,
    pub rng: u128,
}

/// A scheduler for probabilistic concurrency testing with a bound on the number of priority
/// changes.
pub struct PctScheduler {
    max_iterations: usize,
    max_depth: usize,
    iterations: usize,
    priorities: Vec<usize>,
    next_priority: usize,
    change_points: Vec<usize>,
    max_steps: usize,
    steps: usize,
    rng: Mcg128Xsl64,
    data_source: RandomDataSource,
}

impl PctScheduler {
    pub closed spec fn view(&self) -> PctView {
        PctView {
            max_iterations: self.max_iterations as nat,
            max_depth: self.max_depth as nat,
            iterations: self.iterations as nat,
            priorities: self.priorities@,
            next_priority: self.next_priority as nat,
            change_points: self.change_points@,
            max_steps: self.max_steps as nat,
            steps: self.steps as nat,
            rng: pcg_state(self.rng),
        }
    }

    /// The source of random values.
    pub closed spec fn data_source(&self) -> RandomDataSource {
        self.data_source
    }

    /// A scheduler seeded with `seed` that changes priorities at most `max_depth - 1` times per
    /// execution. The first tasks get priorities in the order of their ids.
    pub fn new_from_seed(seed: u64, max_depth: usize, max_iterations: usize) -> (r: PctScheduler)
        requires
            max_depth > 0,
        ensures
            r.wf(),
            r.view() == (PctView {
                max_iterations: max_iterations as nat,
                max_depth: max_depth as nat,
                iterations: 0,
                priorities: Seq::new(DEFAULT_INLINE_TASKS as nat, |i: int| i as usize),
                next_priority: DEFAULT_INLINE_TASKS as nat,
                change_points: Seq::empty(),
                max_steps: 0,
                steps: 0,
                rng: pcg_seeded(seed),
            }),
            r.data_source().position() == (seed, 0nat),
    {
        let mut priorities: Vec<usize> = Vec::new();
        let mut i: usize = 0;
        while i < DEFAULT_INLINE_TASKS
            invariant
                i <= DEFAULT_INLINE_TASKS,
                priorities@ == Seq::new(i as nat, |k: int| k as usize),
            decreases DEFAULT_INLINE_TASKS - i,
        {
            priorities.push(i);
            i = i + 1;
            proof {
                assert(priorities@ =~= Seq::new(i as nat, |k: int| k as usize));
            }
        }
        PctScheduler {
            max_iterations,
            max_depth,
            iterations: 0,
            priorities,
            next_priority: DEFAULT_INLINE_TASKS,
            change_points: Vec::new(),
            max_steps: 0,
            steps: 0,
            rng: pcg_from_seed(seed),
            data_source: RandomDataSource::initialize(seed),
        }
    }

    /// The largest id among the runnable tasks, which are not none.
    fn max_task_id(runnable: &[Task]) -> (r: usize)
        requires
            runnable@.len() > 0,
        ensures
            r == max_id(runnable@),
    {
        let mut m: usize = 0;
        let mut i: usize = 0;
        while i < runnable.len()
            invariant
                i <= runnable@.len(),
                m == max_id(runnable@.take(i as int)),
            decreases runnable@.len() - i,
        {
            proof {
                assert(runnable@.take(i + 1).drop_last() =~= runnable@.take(i as int));
                assert(runnable@.take(i + 1).last() == runnable@[i as int]);
            }
            if runnable[i].id.0 > m {
                m = runnable[i].id.0;
            }
            i = i + 1;
        }
        proof {
            assert(runnable@.take(i as int) =~= runnable@);
        }
        m
    }

    /// Whether step `step` is one at which the priority of the running task is lowered.
    fn is_change_point(&self, step: usize) -> (r: bool)
        ensures
            r == self.view().change_points.contains(step),
    {
        let mut i: usize = 0;
        while i < self.change_points.len()
            invariant
                i <= self.change_points@.len(),
                forall|k: int| 0 <= k < i ==> self.change_points@[k] != step,
            decreases self.change_points@.len() - i,
        {
            if self.change_points[i] == step {
                return true;
            }
            i = i + 1;
        }
        false
    }
}

impl Scheduler for PctScheduler {
    closed spec fn wf(&self) -> bool {
        &&& self.data_source.wf()
        &&& self.iterations <= self.max_iterations
        &&& self.max_depth > 0
        &&& self.priorities@.len() > 0
        &&& priorities_wf(self.priorities@, self.next_priority as nat)
        &&& self.steps <= self.max_steps
    }

    open spec fn can_choose(&self, runnable: Seq<Task>, current: Option<TaskId>, is_yielding: bool) -> bool {
        let v = self.view();
        let upto = known_after(v.priorities.len(), runnable);
        &&& runnable.len() > 0
        &&& v.next_priority + upto + 1 <= usize::MAX
        &&& v.steps < usize::MAX
        &&& (runnable.len() > 1 && (v.change_points.contains(v.steps as usize) || is_yielding)
            ==> (current matches Some(c) && c.0 < upto))
    }

    open spec fn can_draw(&self) -> bool {
        true
    }

    open spec fn can_start(&self) -> bool {
        self.view().iterations > 0 && self.view().iterations < self.view().max_iterations ==> self.view().max_steps > 0
    }

    /// No execution once all executions are run; otherwise one that begins afresh from the seed the data
    /// source moves to.
    open spec fn new_execution_gives(&self, r: Option<ScheduleView>) -> bool {
        if self.view().iterations >= self.view().max_iterations {
            r is None
        } else {
            r matches Some(v) && v.seed == self.data_source().next_seed() && v.steps.len() == 0
        }
    }

    /// The runnable task of lowest priority, once new tasks have their priorities and the
    /// current task is lowered at a change point or a yield.
    open spec fn next_task_gives(&self, runnable: Seq<Task>, current: Option<TaskId>, is_yielding: bool, r: Option<TaskId>) -> bool {
        let v = self.view();
        let upto = known_after(v.priorities.len(), runnable);
        let (p1, n1, s1) = add_new_tasks(v.priorities, v.next_priority, v.rng, upto);
        let lower = runnable.len() > 1 && (v.change_points.contains(v.steps as usize) || is_yielding);
        let p2 = if lower { p1.update(index_of(current), n1 as usize) } else { p1 };
        r == Some(runnable[lowest(runnable, p2)].id)
    }

    /// The next value of the data source.
    open spec fn next_u64_gives(&self, r: u64) -> bool {
        r == pcg_value(self.data_source().position().0, self.data_source().position().1)
    }

    fn new_execution(&mut self) -> (r: Option<Schedule>)
        ensures
            r matches Some(s) ==> s.seed == old(self).data_source().next_seed()
                && final(self).data_source().position() == (s.seed, 0nat),
            r is None ==> final(self).data_source() == old(self).data_source(),
            old(self).view().iterations >= old(self).view().max_iterations ==> r is None && final(self).view() == old(self).view(),
            old(self).view().iterations == 0 && old(self).view().max_iterations > 0 ==> r is Some
                && final(self).view() == (PctView { iterations: 1, steps: 0, ..old(self).view() }),
            old(self).view().iterations > 0 && old(self).view().iterations < old(self).view().max_iterations ==> ({
                let v = old(self).view();
                let n = v.priorities.len();
                let (perm, s1) = pcg_shuffle(v.rng, n);
                let points = if v.max_depth - 1 < v.max_steps - 1 { v.max_depth - 1 } else { v.max_steps - 1 };
                let (sample, s2) = pcg_sample(s1, (v.max_steps - 1) as nat, points as nat);
                &&& r is Some
                &&& final(self).view() == (PctView {
                    iterations: v.iterations + 1,
                    steps: 0,
                    priorities: perm,
                    next_priority: n,
                    change_points: Seq::new(sample.len(), |i: int| (sample[i] + 1) as usize),
                    rng: s2,
                    ..v
                })
            }),
            r matches Some(s) ==> s.steps@.len() == 0 && final(self).data_source().position() == (s.seed, 0nat),
    {
        if self.iterations >= self.max_iterations {
            return None;
        }
        self.steps = 0;
        if self.iterations > 0 {
            let n = self.priorities.len();
            let perm = pcg_shuffled_indices(&mut self.rng, n);
            self.priorities = perm;
            self.next_priority = n;
            let points = if self.max_depth - 1 < self.max_steps - 1 {
                self.max_depth - 1
            } else {
                self.max_steps - 1
            };
            let sample = pcg_sample_indices(&mut self.rng, self.max_steps - 1, points);
            let mut change_points: Vec<usize> = Vec::new();
            let mut i: usize = 0;
            while i < sample.len()
                invariant
                    i <= sample@.len(),
                    forall|k: int| 0 <= k < sample@.len() ==> #[trigger] sample@[k] < self.max_steps - 1,
                    change_points@ == Seq::new(i as nat, |k: int| (sample@[k] + 1) as usize),
                decreases sample@.len() - i,
            {
                change_points.push(sample[i] + 1);
                i = i + 1;
                proof {
                    assert(change_points@ =~= Seq::new(i as nat, |k: int| (sample@[k] + 1) as usize));
                }
            }
            self.change_points = change_points;
        }
        self.iterations = self.iterations + 1;
        let seed = self.data_source.reinitialize();
        Some(Schedule::new(seed))
    }

    fn next_task(&mut self, runnable: &[Task], current: Option<TaskId>, is_yielding: bool) -> (r: Option<TaskId>)
        ensures
            ({
                let v = old(self).view();
                let upto = known_after(v.priorities.len(), runnable@);
                let (p1, n1, s1) = add_new_tasks(v.priorities, v.next_priority, v.rng, upto);
                let lower = runnable@.len() > 1 && (v.change_points.contains(v.steps as usize) || is_yielding);
                let p2 = if lower { p1.update(index_of(current), n1 as usize) } else { p1 };
                let n2 = if lower { n1 + 1 } else { n1 };
                let steps = if runnable@.len() > 1 { v.steps + 1 } else { v.steps };
                let chosen = runnable@[lowest(runnable@, p2)].id;
                &&& r == Some(chosen)
                &&& final(self).view() == (PctView {
                    priorities: p2,
                    next_priority: n2,
                    steps,
                    max_steps: if steps > v.max_steps { steps } else { v.max_steps },
                    rng: s1,
                    ..v
                })
                &&& forall|k: int| 0 <= k < runnable@.len()
                    ==> p2[chosen.0 as int] <= p2[(#[trigger] runnable@[k]).id.0 as int]
            }),
    {
        let ghost v = self.view();
        let max_new = Self::max_task_id(runnable);
        let ghost upto = known_after(v.priorities.len(), runnable@);
        proof {
            lemma_max_id(runnable@);
            lemma_add_new_tasks(v.priorities, v.next_priority as nat, v.rng, upto);
        }
        while self.priorities.len() < max_new + 1
            invariant
                max_new == max_id(runnable@),
                upto == known_after(v.priorities.len(), runnable@),
                v == old(self).view(),
                self.priorities@.len() > 0,
                self.priorities@.len() >= v.priorities.len(),
                self.priorities@.len() <= upto,
                priorities_wf(self.priorities@, self.next_priority as nat),
                self.next_priority + upto - self.priorities@.len() <= usize::MAX,
                add_new_tasks(self.priorities@, self.next_priority as nat, pcg_state(self.rng), upto)
                    == add_new_tasks(v.priorities, v.next_priority, v.rng, upto),
                self.max_iterations == old(self).max_iterations,
                self.max_depth == old(self).max_depth,
                self.iterations == old(self).iterations,
                self.change_points == old(self).change_points,
                self.max_steps == old(self).max_steps,
                self.steps == old(self).steps,
                self.data_source == old(self).data_source,
                max_new + 1 <= usize::MAX,
            decreases max_new + 1 - self.priorities@.len(),
        {
            let ghost p = self.priorities@;
            let ghost np = self.next_priority as nat;
            let ghost st = pcg_state(self.rng);
            proof {
                lemma_add_new_tasks(p, np, st, upto);
            }
            let n = self.priorities.len();
            let g = pcg_below(&mut self.rng, n);
            let target = g + 1;
            if target == n {
                self.priorities.push(self.next_priority);
                proof {
                    assert(self.priorities@ == p.push(np as usize));
                }
            } else {
                let old_priority = self.priorities[target];
                self.priorities.set(target, self.next_priority);
                self.priorities.push(old_priority);
                proof {
                    assert(self.priorities@ == p.update(target as int, np as usize).push(p[target as int]));
                }
            }
            self.next_priority = self.next_priority + 1;
            proof {
                lemma_add_new_tasks(self.priorities@, self.next_priority as nat, pcg_state(self.rng), upto);
            }
        }
        proof {
            assert(self.priorities@.len() >= upto);
            assert((self.priorities@, self.next_priority as nat, pcg_state(self.rng)) == add_new_tasks(v.priorities, v.next_priority, v.rng, upto));
        }
        if runnable.len() > 1 {
            let at_change = self.is_change_point(self.steps);
            if at_change || is_yielding {
                let c = match current {
                    Some(c) => c,
                    None => {
                        proof {
                            assert(false);
                        }
                        TaskId(0)
                    },
                };
                let ghost p1 = self.priorities@;
                let np = self.next_priority;
                self.priorities.set(c.0, np);
                self.next_priority = np + 1;
                proof {
                    assert forall|i: int, j: int| 0 <= i < j < self.priorities@.len()
                        implies self.priorities@[i] != self.priorities@[j] by {
                        if i != c.0 && j != c.0 {
                            assert(self.priorities@[i] == p1[i] && self.priorities@[j] == p1[j]);
                        } else if i == c.0 {
                            assert(self.priorities@[j] == p1[j]);
                        } else {
                            assert(self.priorities@[i] == p1[i]);
                        }
                    }
                    assert forall|i: int| 0 <= i < self.priorities@.len() implies #[trigger] self.priorities@[i] < self.next_priority by {
                        if i != c.0 {
                            assert(self.priorities@[i] == p1[i]);
                        }
                    }
                }
            }
            self.steps = self.steps + 1;
            if self.steps > self.max_steps {
                self.max_steps = self.steps;
            }
        }
        let ghost p2 = self.priorities@;
        let mut best: usize = 0;
        let mut i: usize = 1;
        proof {
            assert(runnable@[0].id.0 <= max_id(runnable@));
        }
        while i < runnable.len()
            invariant
                1 <= i <= runnable@.len(),
                best < i,
                p2 == self.priorities@,
                forall|k: int| 0 <= k < runnable@.len() ==> (#[trigger] runnable@[k]).id.0 < p2.len(),
                best == lowest(runnable@.take(i as int), p2),
            decreases runnable@.len() - i,
        {
            proof {
                assert(runnable@.take(i + 1).drop_last() =~= runnable@.take(i as int));
                assert(runnable@.take(i + 1).last() == runnable@[i as int]);
                assert(runnable@.take(i as int)[best as int] == runnable@[best as int]);
            }
            if self.priorities[runnable[i].id.0] < self.priorities[runnable[best].id.0] {
                best = i;
            }
            i = i + 1;
        }
        proof {
            assert(runnable@.take(i as int) =~= runnable@);
            lemma_lowest(runnable@, p2);
        }
        Some(runnable[best].id)
    }

    fn next_u64(&mut self) -> (r: u64)
        ensures
            r == pcg_value(old(self).data_source().position().0, old(self).data_source().position().1),
            final(self).data_source().position() == (old(self).data_source().position().0,
                old(self).data_source().position().1 + 1),
            final(self).view() == old(self).view(),
    {
        self.data_source.next_u64()
    }
}

} // verus!
