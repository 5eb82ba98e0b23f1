//! Uniform random walk: a scheduler that samples interleavings uniformly, given an estimate of
//! how many events each task will still perform. The first execution is a plain random walk that
//! counts, by spawn site, the scheduling points of the tasks; the counts of children are then
//! added to their parents'. Later executions keep a count of remaining events for each task and
//! pick the next task with probability proportional to it.
use vstd::prelude::*;
use rand_pcg::Mcg128Xsl64;
use std::collections::HashMap;
use crate::task::TaskId;
use crate::schedule::{Schedule, ScheduleView};
use crate::scheduler::{Scheduler, Task, DataSource, RandomDataSource, has_task};
use crate::pcg::{
    pcg_value, pcg_state, pcg_seeded, pcg_choose, pcg_choose_weighted, pcg_from_seed, pcg_choose_index,
    pcg_choose_weighted_task, pair_weights, weight_sum,
};

verus! {

broadcast use vstd::std_specs::hash::group_hash_axioms;

/// The event count estimated for spawn site `sig`, if it has one.
pub open spec fn sig_count(sigs: Map<u64, usize>, sig: u64) -> Option<usize> {
    if sigs.contains_key(sig) {
        Some(sigs[sig])
    } else {
        None
    }
}

/// `a` less `b`, but never below one.
pub open spec fn less_at_least_one(a: usize, b: usize) -> usize {
    if a > b { (a - b) as usize } else { 1 }
}

/// The counts of remaining events once task `t` is seen: a task seen for the first time was just
/// spawned, and its estimated events are moved from its parent to it. `None` where tasks do not
/// appear in spawn order.
pub open spec fn note_task(counts: Seq<usize>, t: Task, sigs: Map<u64, usize>) -> Option<Seq<usize>> {
    let tid = t.id.0 as int;
    if tid == counts.len() {
        let child = match sig_count(sigs, t.signature) {
            Some(c) => c,
            None => 1usize,
        };
        let c1 = counts.push(child);
        match t.parent {
            Some(p) => if (p.0 as int) < c1.len() {
                Some(c1.update(p.0 as int, less_at_least_one(c1[p.0 as int], child)))
            } else {
                None
            },
            None => Some(c1),
        }
    } else if tid > counts.len() {
        None
    } else {
        Some(counts)
    }
}

/// The counts once every runnable task is seen, in order.
pub open spec fn note_tasks(counts: Seq<usize>, runnable: Seq<Task>, sigs: Map<u64, usize>) -> Option<Seq<usize>>
    decreases runnable.len(),
{
    if runnable.len() == 0 {
        Some(counts)
    } else {
        match note_tasks(counts, runnable.drop_last(), sigs) {
            Some(c) => note_task(c, runnable.last(), sigs),
            None => None,
        }
    }
}

/// Each runnable task with its count of remaining events.
pub open spec fn weighted_tasks(runnable: Seq<Task>, counts: Seq<usize>) -> Seq<(TaskId, usize)> {
    Seq::new(runnable.len(), |i: int| (runnable[i].id, counts[runnable[i].id.0 as int]))
}

/// One more scheduling point seen at spawn site `sig`.
pub open spec fn bump(sigs: Map<u64, usize>, sig: u64) -> Map<u64, usize> {
    if sigs.contains_key(sig) {
        sigs.insert(sig, (sigs[sig] + 1) as usize)
    } else {
        sigs.insert(sig, 1usize)
    }
}

/// The estimates once each child's count is added to its parent's, the latest spawn first.
/// `None` where a child has no estimate or a sum overflows.
pub open spec fn subsume(sigs: Map<u64, usize>, parents: Seq<(u64, u64)>) -> Option<Map<u64, usize>>
    decreases parents.len(),
{
    if parents.len() == 0 {
        Some(sigs)
    } else {
        let (p, c) = parents.last();
        match sig_count(sigs, c) {
            None => None,
            Some(cc) => if sigs.contains_key(p) {
                if sigs[p] + cc <= usize::MAX {
                    subsume(sigs.insert(p, (sigs[p] + cc) as usize), parents.drop_last())
                } else {
                    None
                }
            } else {
                subsume(sigs, parents.drop_last())
            },
        }
    }
}

/// Whether the estimate for spawn site `sig`, if any, can grow by one.
pub open spec fn sig_room(sigs: Map<u64, usize>, sig: u64) -> bool {
    match sig_count(sigs, sig) {
        Some(n) => n < usize::MAX,
        None => true,
    }
}

/// Every count is at least one.
pub open spec fn all_positive(counts: Seq<usize>) -> bool {
    forall|i: int| 0 <= i < counts.len() ==> #[trigger] counts[i] >= 1
}

/// Every estimate is at least one.
pub open spec fn sigs_positive(sigs: Map<u64, usize>) -> bool {
    forall|k: u64| #[trigger] sigs.contains_key(k) ==> sigs[k] >= 1
}

/// Seeing tasks keeps every count positive, and afterwards every runnable task has a count.
proof fn lemma_note_tasks(counts: Seq<usize>, runnable: Seq<Task>, sigs: Map<u64, usize>)
    requires
        all_positive(counts),
        sigs_positive(sigs),
        note_tasks(counts, runnable, sigs) is Some,
    ensures
        all_positive(note_tasks(counts, runnable, sigs)->0),
        forall|i: int| 0 <= i < runnable.len() ==> (#[trigger] runnable[i]).id.0 < note_tasks(counts, runnable, sigs)->0.len(),
        counts.len() <= note_tasks(counts, runnable, sigs)->0.len(),
    decreases runnable.len(),
{
    if runnable.len() > 0 {
        let prefix = runnable.drop_last();
        lemma_note_tasks(counts, prefix, sigs);
        let c = note_tasks(counts, prefix, sigs)->0;
        let t = runnable.last();
        let r = note_task(c, t, sigs)->0;
        assert forall|i: int| 0 <= i < runnable.len() implies (#[trigger] runnable[i]).id.0 < r.len() by {
            if i < runnable.len() - 1 {
                assert(runnable[i] == prefix[i]);
            }
        }
    }
}

/// The state of a uniform random walk scheduler.
pub struct UrwView {
    pub iterations: nat,
    pub max_iterations: nat,
    pub rng: u128,
    pub counts: Option<Seq<usize>>,
    pub sigs: Map<u64, usize>,
    pub parents: Seq<(u64, u64)>,
}

/// A scheduler that samples interleavings uniformly, once it has estimated the events of each
/// task in a first, plain random execution.
pub struct UniformRandomScheduler {
    max_iterations: usize,
    rng: Mcg128Xsl64,
    iterations: usize,
    data_source: RandomDataSource,
    task_event_counts: Option<Vec<usize>>,
    signature_event_counts: HashMap<u64, usize>,
    signature_parents: Vec<(u64, u64)>,
}

impl UniformRandomScheduler {
    pub closed spec fn view(&self) -> UrwView {
        UrwView {
            iterations: self.iterations as nat,
            max_iterations: self.max_iterations as nat,
            rng: pcg_state(self.rng),
            counts: match self.task_event_counts {
                Some(v) => Some(v@),
                None => None,
            },
            sigs: self.signature_event_counts@,
            parents: self.signature_parents@,
        }
    }

    /// The source of random values.
    pub closed spec fn data_source(&self) -> RandomDataSource {
        self.data_source
    }

    /// A scheduler seeded with `seed`, which estimates in its first execution. Two schedulers
    /// with the same seed make the same choices on the same workload.
    pub fn new_from_seed(seed: u64, max_iterations: usize) -> (r: UniformRandomScheduler)
        ensures
            r.wf(),
            r.view() == (UrwView {
                iterations: 0,
                max_iterations: max_iterations as nat,
                rng: pcg_seeded(seed),
                counts: None,
                sigs: Map::empty(),
                parents: Seq::empty(),
            }),
            r.data_source().position() == (seed, 0nat),
    {
        UniformRandomScheduler {
            max_iterations,
            rng: pcg_from_seed(seed),
            iterations: 0,
            data_source: RandomDataSource::initialize(seed),
            task_event_counts: None,
            signature_event_counts: HashMap::new(),
            signature_parents: Vec::new(),
        }
    }

    /// Whether the estimates exist but the per-task counts were not yet set up from them.
    fn events_counted_but_not_initialized(&self) -> (r: bool)
        ensures
            r == (self.view().counts is None && self.view().sigs.len() > 0),
    {
        self.task_event_counts.is_none() && self.signature_event_counts.len() > 0
    }

    /// Adds each child's estimate to its parent's, the latest spawn first.
    fn subsume_parents(&mut self)
        requires
            subsume(old(self).view().sigs, old(self).view().parents) is Some,
            sigs_positive(old(self).view().sigs),
        ensures
            final(self).view() == (UrwView { sigs: subsume(old(self).view().sigs, old(self).view().parents)->0, ..old(self).view() }),
            sigs_positive(final(self).view().sigs),
            final(self).data_source == old(self).data_source,
            final(self).task_event_counts == old(self).task_event_counts,
    {
        let mut k = self.signature_parents.len();
        let ghost parents = self.signature_parents@;
        proof {
            assert(parents.take(k as int) =~= parents);
        }
        while k > 0
            invariant
                k <= parents.len(),
                parents == self.signature_parents@,
                parents == old(self).view().parents,
                subsume(self.signature_event_counts@, parents.take(k as int)) == subsume(old(self).view().sigs, parents),
                subsume(self.signature_event_counts@, parents.take(k as int)) is Some,
                sigs_positive(self.signature_event_counts@),
                self.rng == old(self).rng,
                self.iterations == old(self).iterations,
                self.max_iterations == old(self).max_iterations,
                self.data_source == old(self).data_source,
                self.task_event_counts == old(self).task_event_counts,
            decreases k,
        {
            let (parent, child) = self.signature_parents[k - 1];
            let ghost sigs = self.signature_event_counts@;
            proof {
                assert(parents.take(k as int).last() == (parent, child));
                assert(parents.take(k as int).drop_last() =~= parents.take(k - 1));
            }
            let child_ct: usize = match self.signature_event_counts.get(&child) {
                Some(c) => *c,
                None => {
                    proof {
                        assert(false);
                    }
                    0
                },
            };
            let parent_ct: Option<usize> = match self.signature_event_counts.get(&parent) {
                Some(c) => Some(*c),
                None => None,
            };
            match parent_ct {
                Some(ct) => {
                    proof {
                        if sigs[parent] + child_ct > usize::MAX {
                            assert(subsume(sigs, parents.take(k as int)) is None);
                        }
                    }
                    self.signature_event_counts.insert(parent, ct + child_ct);
                    proof {
                        assert(sigs_positive(self.signature_event_counts@)) by {
                            assert forall|x: u64| #[trigger] self.signature_event_counts@.contains_key(x) implies self.signature_event_counts@[x] >= 1 by {
                                if x != parent {
                                    assert(sigs.contains_key(x));
                                }
                            }
                        }
                    }
                },
                None => {},
            }
            k = k - 1;
        }
        proof {
            assert(parents.take(0) =~= Seq::<(u64, u64)>::empty());
        }
    }
}

impl Scheduler for UniformRandomScheduler {
    closed spec fn wf(&self) -> bool {
        &&& self.data_source.wf()
        &&& self.iterations <= self.max_iterations
        &&& sigs_positive(self.signature_event_counts@)
        &&& (self.task_event_counts matches Some(c) ==> all_positive(c@))
    }

    open spec fn can_choose(&self, runnable: Seq<Task>, current: Option<TaskId>, is_yielding: bool) -> bool {
        &&& runnable.len() > 0
        &&& match self.view().counts {
            Some(counts) => note_tasks(counts, runnable, self.view().sigs) matches Some(c)
                && weight_sum(pair_weights(weighted_tasks(runnable, c))) <= usize::MAX,
            None => forall|i: int| 0 <= i < runnable.len() ==> sig_room(self.view().sigs, (#[trigger] runnable[i]).signature),
        }
    }

    open spec fn can_draw(&self) -> bool {
        true
    }

    open spec fn can_start(&self) -> bool {
        self.view().iterations < self.view().max_iterations && self.view().counts is None && self.view().sigs.len() > 0
            ==> subsume(self.view().sigs, self.view().parents) is Some
    }

    /// No execution once all executions are run; otherwise one that begins afresh from the seed the data
    /// source moves to.
    open spec fn new_execution_gives(&self, r: Option<ScheduleView>) -> bool {
        if self.view().iterations >= self.view().max_iterations {
            r is None
        } else {
            r matches Some(v) && v.seed == self.data_source().next_seed() && v.steps.len() == 0
        }
    }

    /// A task drawn with weights from the estimated event counts, or uniformly while the
    /// counts are being estimated.
    open spec fn next_task_gives(&self, runnable: Seq<Task>, current: Option<TaskId>, is_yielding: bool, r: Option<TaskId>) -> bool {
        match self.view().counts {
            Some(counts) => {
                let c = note_tasks(counts, runnable, self.view().sigs)->0;
                let pairs = weighted_tasks(runnable, c);
                let (k, next_state) = pcg_choose_weighted(self.view().rng, pair_weights(pairs));
                r == Some(pairs[k as int].0)
            },
            None => {
                let (k, next_state) = pcg_choose(self.view().rng, runnable.len());
                r == Some(runnable[k as int].id)
            },
        }
    }

    /// The next value of the data source.
    open spec fn next_u64_gives(&self, r: u64) -> bool {
        r == pcg_value(self.data_source().position().0, self.data_source().position().1)
    }

    fn new_execution(&mut self) -> (r: Option<Schedule>)
        ensures
            r matches Some(s) ==> s.seed == old(self).data_source().next_seed()
                && final(self).data_source().position() == (s.seed, 0nat),
            r is None ==> final(self).data_source() == old(self).data_source(),
            old(self).view().iterations >= old(self).view().max_iterations ==> r is None && final(self).view() == (UrwView {
                counts: None,
                sigs: Map::empty(),
                parents: Seq::empty(),
                ..old(self).view()
            }),
            old(self).view().iterations < old(self).view().max_iterations ==> ({
                let v = old(self).view();
                &&& r matches Some(s) && s.steps@.len() == 0 && final(self).view().rng == pcg_seeded(s.seed)
                    && final(self).data_source().position() == (s.seed, 0nat)
                &&& final(self).view().iterations == v.iterations + 1
                &&& final(self).view().max_iterations == v.max_iterations
                &&& final(self).view().parents == v.parents
                &&& if v.counts is None && v.sigs.len() > 0 {
                    final(self).view().sigs == subsume(v.sigs, v.parents)->0 && final(self).view().counts == Some(Seq::<usize>::empty())
                } else if v.counts is Some {
                    final(self).view().sigs == v.sigs && final(self).view().counts == Some(Seq::<usize>::empty())
                } else {
                    final(self).view().sigs == v.sigs && final(self).view().counts is None
                }
            }),
    {
        if self.iterations >= self.max_iterations {
            self.signature_event_counts = HashMap::new();
            self.signature_parents = Vec::new();
            self.task_event_counts = None;
            proof {
                assert(self.view().sigs =~= Map::<u64, usize>::empty());
                assert(self.view().parents =~= Seq::<(u64, u64)>::empty());
            }
            return None;
        }
        if self.events_counted_but_not_initialized() {
            self.subsume_parents();
            self.task_event_counts = Some(Vec::new());
        } else if self.task_event_counts.is_some() {
            self.task_event_counts = Some(Vec::new());
        }
        self.iterations = self.iterations + 1;
        let seed = self.data_source.reinitialize();
        self.rng = pcg_from_seed(seed);
        proof {
            if self.task_event_counts is Some {
                assert(self.view().counts->0 =~= Seq::<usize>::empty());
            }
        }
        Some(Schedule::new(seed))
    }

    fn next_task(&mut self, runnable: &[Task], current: Option<TaskId>, is_yielding: bool) -> (r: Option<TaskId>)
        ensures
            final(self).view().iterations == old(self).view().iterations,
            final(self).view().max_iterations == old(self).view().max_iterations,
            match old(self).view().counts {
                Some(counts) => {
                    let c = note_tasks(counts, runnable@, old(self).view().sigs)->0;
                    let pairs = weighted_tasks(runnable@, c);
                    let (k, next_state) = pcg_choose_weighted(old(self).view().rng, pair_weights(pairs));
                    let next = pairs[k as int].0;
                    &&& r == Some(next)
                    &&& final(self).view() == (UrwView {
                        rng: next_state,
                        counts: Some(c.update(next.0 as int, less_at_least_one(c[next.0 as int], 1))),
                        ..old(self).view()
                    })
                },
                None => {
                    let (k, next_state) = pcg_choose(old(self).view().rng, runnable@.len());
                    let t = runnable@[k as int];
                    &&& r == Some(t.id)
                    &&& final(self).view() == (UrwView {
                        rng: next_state,
                        sigs: bump(old(self).view().sigs, t.signature),
                        parents: if !old(self).view().sigs.contains_key(t.signature) {
                            old(self).view().parents.push((t.parent_signature, t.signature))
                        } else {
                            old(self).view().parents
                        },
                        ..old(self).view()
                    })
                },
            },
    {
        let ghost sigs = self.signature_event_counts@;
        match self.task_event_counts.take() {
            Some(mut counts) => {
                let ghost c0 = counts@;
                proof {
                    lemma_note_tasks(c0, runnable@, sigs);
                }
                let mut i: usize = 0;
                while i < runnable.len()
                    invariant
                        i <= runnable@.len(),
                        sigs == self.signature_event_counts@,
                        sigs_positive(sigs),
                        all_positive(c0),
                        note_tasks(c0, runnable@, sigs) is Some,
                        note_tasks(c0, runnable@.take(i as int), sigs) == Some(counts@),
                    decreases runnable@.len() - i,
                {
                    let t = &runnable[i];
                    proof {
                        assert(runnable@.take(i + 1).drop_last() =~= runnable@.take(i as int));
                        assert(runnable@.take(i + 1).last() == runnable@[i as int]);
                        lemma_note_prefix(c0, runnable@, sigs, i + 1);
                    }
                    let tid = t.id.0;
                    let ghost before = counts@;
                    proof {
                        assert(note_tasks(c0, runnable@.take(i + 1), sigs) == note_task(before, runnable@[i as int], sigs));
                    }
                    if tid == counts.len() {
                        let child_events: usize = match self.signature_event_counts.get(&t.signature) {
                            Some(c) => *c,
                            None => 1,
                        };
                        counts.push(child_events);
                        match t.parent {
                            Some(p) => {
                                let pc = counts[p.0];
                                let reduced = if pc > child_events {
                                    pc - child_events
                                } else {
                                    1
                                };
                                counts.set(p.0, reduced);
                            },
                            None => {},
                        }
                    }
                    i = i + 1;
                }
                proof {
                    assert(runnable@.take(i as int) =~= runnable@);
                    lemma_note_tasks(c0, runnable@, sigs);
                }
                let mut pairs: Vec<(TaskId, usize)> = Vec::new();
                let mut j: usize = 0;
                while j < runnable.len()
                    invariant
                        j <= runnable@.len(),
                        forall|k: int| 0 <= k < runnable@.len() ==> (#[trigger] runnable@[k]).id.0 < counts@.len(),
                        pairs@ == weighted_tasks(runnable@.take(j as int), counts@),
                    decreases runnable@.len() - j,
                {
                    let tid = runnable[j].id;
                    assert(runnable@[j as int].id.0 < counts@.len());
                    pairs.push((tid, counts[tid.0]));
                    proof {
                        assert(pairs@ =~= weighted_tasks(runnable@.take(j + 1), counts@));
                    }
                    j = j + 1;
                }
                proof {
                    assert(runnable@.take(j as int) =~= runnable@);
                    lemma_weights_positive(runnable@, counts@);
                }
                let next = pcg_choose_weighted_task(&mut self.rng, pairs.as_slice());
                let ghost k = pcg_choose_weighted(pcg_state(old(self).rng), pair_weights(pairs@)).0;
                proof {
                    assert(next == runnable@[k as int].id);
                    assert(next.0 < counts@.len());
                }
                let nc = counts[next.0];
                let reduced = if nc > 1 {
                    nc - 1
                } else {
                    1
                };
                counts.set(next.0, reduced);
                self.task_event_counts = Some(counts);
                Some(next)
            },
            None => {
                let k = pcg_choose_index(&mut self.rng, runnable);
                let t = &runnable[k];
                let next = t.id;
                proof {
                    assert(sig_room(sigs, runnable@[k as int].signature));
                }
                let seen: Option<usize> = match self.signature_event_counts.get(&t.signature) {
                    Some(c) => Some(*c),
                    None => None,
                };
                match seen {
                    Some(c) => {
                        self.signature_event_counts.insert(t.signature, c + 1);
                    },
                    None => {
                        self.signature_parents.push((t.parent_signature, t.signature));
                        self.signature_event_counts.insert(t.signature, 1);
                    },
                }
                Some(next)
            },
        }
    }

    fn next_u64(&mut self) -> (r: u64)
        ensures
            r == pcg_value(old(self).data_source().position().0, old(self).data_source().position().1),
            final(self).data_source().position() == (old(self).data_source().position().0,
                old(self).data_source().position().1 + 1),
            final(self).view() == old(self).view(),
    {
        self.data_source.next_u64()
    }
}

/// Seeing a prefix of the runnable tasks succeeds where seeing them all does.
proof fn lemma_note_prefix(counts: Seq<usize>, runnable: Seq<Task>, sigs: Map<u64, usize>, n: int)
    requires
        0 <= n <= runnable.len(),
        note_tasks(counts, runnable, sigs) is Some,
    ensures
        note_tasks(counts, runnable.take(n), sigs) is Some,
    decreases runnable.len() - n,
{
    if n < runnable.len() {
        lemma_note_prefix(counts, runnable, sigs, n + 1);
        assert(runnable.take(n + 1).drop_last() =~= runnable.take(n));
    } else {
        assert(runnable.take(n) =~= runnable);
    }
}

/// With every count positive, the weights of the runnable tasks sum to more than zero.
proof fn lemma_weights_positive(runnable: Seq<Task>, counts: Seq<usize>)
    requires
        runnable.len() > 0,
        all_positive(counts),
        forall|k: int| 0 <= k < runnable.len() ==> (#[trigger] runnable[k]).id.0 < counts.len(),
    ensures
        weight_sum(pair_weights(weighted_tasks(runnable, counts))) > 0,
    decreases runnable.len(),
{
    let w = pair_weights(weighted_tasks(runnable, counts));
    assert(w.last() == counts[runnable.last().id.0 as int]);
    assert(runnable[runnable.len() - 1] == runnable.last());
}

} // verus!
