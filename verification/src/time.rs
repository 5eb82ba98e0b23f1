//! Simulated time. Each scheduling step of an execution advances a global clock by a constant
//! step; tasks that sleep wait in a queue until the clock reaches their deadline. A frozen model
//! never advances time by itself, but lets chosen tasks' timeouts expire at once.
//!
//! The models decide, and keep track of which sleeps still have a live waker; the caller holds
//! the wakers themselves and wakes the sleeps whose ids the models return.
use vstd::prelude::*;
use std::time::Duration;
use crate::task::TaskId;

verus! {

/// The longest `Duration`, in nanoseconds: `u64::MAX` seconds and 999,999,999 nanoseconds.
pub open spec fn max_duration_nanos() -> nat {
    u64::MAX as nat * 1_000_000_000 + 999_999_999
}

/// `Duration::as_nanos`: the length of the duration in nanoseconds.
pub uninterp spec fn duration_nanos(d: Duration) -> u128;

/// `Duration::as_nanos`: the whole duration in nanoseconds, which is at most the longest
/// duration.
#[verifier::external_body]
pub(crate) fn nanos_of(d: &Duration) -> (r: u128)
    ensures
        r == duration_nanos(*d),
        r <= max_duration_nanos(),
{
    d.as_nanos()
}

/// `Duration::from_secs(0)`: the empty duration.
#[verifier::external_body]
fn zero_duration() -> (r: Duration)
    ensures
        duration_nanos(r) == 0,
{
    Duration::from_secs(0)
}

/// `Duration::checked_add`: the sum, or `None` where it would exceed the longest duration.
#[verifier::external_body]
fn add_durations(a: Duration, b: Duration) -> (r: Option<Duration>)
    ensures
        duration_nanos(a) + duration_nanos(b) <= max_duration_nanos() <==> r is Some,
        r matches Some(s) ==> duration_nanos(s) == duration_nanos(a) + duration_nanos(b),
{
    a.checked_add(b)
}

/// A distribution of times that can be sampled.
pub trait TimeDistribution<D> {
    /// A time drawn from the distribution.
    fn sample(&self) -> D;
}

/// A constant distribution: each sample is the same time.
#[derive(Clone, Copy, Debug, PartialEq, Eq, Hash)]
pub struct ConstantTimeDistribution {
    /// The time every sample gives.
    pub time: Duration,
}

impl ConstantTimeDistribution {
    /// The distribution whose samples are all `time`.
    pub fn new(time: Duration) -> (r: ConstantTimeDistribution)
        ensures
            r.time == time,
    {
        ConstantTimeDistribution { time }
    }
}

impl TimeDistribution<Duration> for ConstantTimeDistribution {
    fn sample(&self) -> (r: Duration)
        ensures
            r == self.time,
    {
        self.time
    }
}

/// How time is modelled in an execution.
#[derive(Clone, Copy, Debug, PartialEq, Eq, Hash)]
pub enum TimeModelConfig {
    /// Each scheduling step advances the time by a constant, sampled at the start of each
    /// execution from the distribution.
    ConstantStepped(ConstantTimeDistribution),
    /// Time does not advance: a sleep is one scheduling point, which may run at once or be
    /// delayed arbitrarily.
    NoTime,
}

/// A simulated instant: the time elapsed since the start of the execution.
#[derive(Clone, Copy, Debug, PartialEq, Eq, Hash)]
pub struct Instant {
    simulated_time_since_start: Duration,
}

impl Instant {
    /// The instant `since_start` after the start of the execution.
    pub fn simulated(since_start: Duration) -> (r: Instant)
        ensures
            r.since_start() == since_start,
    {
        Instant { simulated_time_since_start: since_start }
    }

    /// The time from the start of the execution to the instant.
    pub closed spec fn since_start(self) -> Duration {
        self.simulated_time_since_start
    }

    /// The time elapsed from the start of the execution to the instant.
    pub fn elapsed(&self) -> (r: Duration)
        ensures
            r == self.since_start(),
    {
        self.simulated_time_since_start
    }
}

/// A sleeping task: its deadline in nanoseconds, its task, and the id of the sleep.
pub type SleepView = (nat, TaskId, u64);

/// The sleeps whose deadline has passed at time `now`, in queue order.
pub open spec fn expired_sleeps(waiters: Seq<SleepView>, now: nat) -> Seq<SleepView>
    decreases waiters.len(),
{
    if waiters.len() == 0 {
        Seq::empty()
    } else {
        let rest = expired_sleeps(waiters.drop_last(), now);
        if waiters.last().0 <= now { rest.push(waiters.last()) } else { rest }
    }
}

/// The sleeps whose deadline is still to come at time `now`, in queue order.
pub open spec fn pending_sleeps(waiters: Seq<SleepView>, now: nat) -> Seq<SleepView>
    decreases waiters.len(),
{
    if waiters.len() == 0 {
        Seq::empty()
    } else {
        let rest = pending_sleeps(waiters.drop_last(), now);
        if waiters.last().0 > now { rest.push(waiters.last()) } else { rest }
    }
}

/// The ids of the sleeps.
pub open spec fn sleep_ids(sleeps: Seq<SleepView>) -> Seq<u64> {
    Seq::new(sleeps.len(), |i: int| sleeps[i].2)
}

/// The earliest deadline among the sleeps, of which there is at least one.
pub open spec fn earliest_deadline(waiters: Seq<SleepView>) -> nat
    decreases waiters.len(),
{
    if waiters.len() <= 1 {
        waiters[0].0
    } else {
        let rest = earliest_deadline(waiters.drop_last());
        if waiters.last().0 < rest { waiters.last().0 } else { rest }
    }
}

/// The ids of the sleeps of the tasks in `tasks`, in queue order.
pub open spec fn sleeps_of_tasks(waiters: Seq<SleepView>, tasks: Set<TaskId>) -> Seq<u64>
    decreases waiters.len(),
{
    if waiters.len() == 0 {
        Seq::empty()
    } else {
        let rest = sleeps_of_tasks(waiters.drop_last(), tasks);
        if tasks.contains(waiters.last().1) { rest.push(waiters.last().2) } else { rest }
    }
}

/// The ids of the sleeps in `ids` whose waker is live in `live`, each once, in the order of its
/// first occurrence: waking a sleep consumes its waker.
pub open spec fn woken_once(ids: Seq<u64>, live: Set<u64>) -> Seq<u64>
    decreases ids.len(),
{
    if ids.len() == 0 {
        Seq::empty()
    } else {
        let rest = woken_once(ids.drop_last(), live);
        if live.contains(ids.last()) && !rest.contains(ids.last()) { rest.push(ids.last()) } else { rest }
    }
}

/// A sleep is woken at most once, and exactly when its id occurs and its waker is live.
pub proof fn lemma_woken_once(ids: Seq<u64>, live: Set<u64>, id: u64)
    ensures
        woken_once(ids, live).contains(id) <==> (live.contains(id) && ids.contains(id)),
    decreases ids.len(),
{
    if ids.len() > 0 {
        lemma_woken_once(ids.drop_last(), live, id);
        let rest = woken_once(ids.drop_last(), live);
        if ids.contains(id) && !ids.drop_last().contains(id) {
            let k = choose|k: int| 0 <= k < ids.len() && ids[k] == id;
            if k < ids.len() - 1 {
                assert(ids.drop_last()[k] == id);
            }
        }
        if ids.drop_last().contains(id) {
            let k = choose|k: int| 0 <= k < ids.drop_last().len() && ids.drop_last()[k] == id;
            assert(ids[k] == id);
        }
        if ids.last() == id {
            assert(ids[ids.len() - 1] == id);
        }
        if rest.push(ids.last()).contains(id) && !rest.contains(id) {
            let k = choose|k: int| 0 <= k < rest.push(ids.last()).len() && rest.push(ids.last())[k] == id;
            assert(k == rest.len());
        }
        if rest.contains(id) {
            let k = choose|k: int| 0 <= k < rest.len() && rest[k] == id;
            assert(rest.push(ids.last())[k] == id);
        }
        assert(rest.push(ids.last())[rest.len() as int] == ids.last());
    }
}

/// The state of a stepped time model: the step, the time elapsed, the queue of sleeps, the
/// distribution the step is drawn from, and the ids of the sleeps whose waker is still live.
pub struct SteppedView {
    pub step: nat,
    pub elapsed: nat,
    pub waiters: Seq<SleepView>,
    pub distribution: ConstantTimeDistribution,
    pub wakers: Set<u64>,
}

/// The ids of the sleeps woken when the time is `now`: those whose deadline has passed and whose
/// waker is live, each once.
pub open spec fn woken_at(v: SteppedView, now: nat) -> Seq<u64> {
    woken_once(sleep_ids(expired_sleeps(v.waiters, now)), v.wakers)
}

/// The state once the time is `now` and the sleeps whose deadline has passed have left the queue,
/// their wakers consumed.
pub open spec fn expired_at(v: SteppedView, now: nat) -> SteppedView {
    SteppedView {
        elapsed: now,
        waiters: pending_sleeps(v.waiters, now),
        wakers: v.wakers.difference(sleep_ids(expired_sleeps(v.waiters, now)).to_set()),
        ..v
    }
}

/// A time model where time advances by a constant amount at each scheduling step.
#[derive(Debug)]
pub struct ConstantSteppedTimeModel {
    distribution: ConstantTimeDistribution,
    current_step_size: Duration,
    current_time_elapsed: Duration,
    waiters: Vec<(Duration, TaskId, u64)>,
    wakers: Vec<u64>,
}

/// The older name of the stepped time model.
pub type ConstantSteppedModel = ConstantSteppedTimeModel;

/// The sleeps in the queue, their deadlines in nanoseconds.
pub open spec fn sleeps_view(waiters: Seq<(Duration, TaskId, u64)>) -> Seq<SleepView> {
    Seq::new(waiters.len(), |i: int| (duration_nanos(waiters[i].0) as nat, waiters[i].1, waiters[i].2))
}

impl ConstantSteppedTimeModel {
    pub closed spec fn view(&self) -> SteppedView {
        SteppedView {
            step: duration_nanos(self.current_step_size) as nat,
            elapsed: duration_nanos(self.current_time_elapsed) as nat,
            waiters: sleeps_view(self.waiters@),
            distribution: self.distribution,
            wakers: self.wakers@.to_set(),
        }
    }

    /// A model whose time advances by `step_size` at each step, starting at zero with nobody
    /// asleep.
    pub fn new(step_size: Duration) -> (r: ConstantSteppedTimeModel)
        ensures
            r.view().step == duration_nanos(step_size),
            r.view().elapsed == 0,
            r.view().waiters.len() == 0,
            r.view().distribution == (ConstantTimeDistribution { time: step_size }),
            r.view().wakers == Set::<u64>::empty(),
    {
        let distribution = ConstantTimeDistribution::new(step_size);
        let r = ConstantSteppedTimeModel {
            distribution,
            current_step_size: distribution.sample(),
            current_time_elapsed: zero_duration(),
            waiters: Vec::new(),
            wakers: Vec::new(),
        };
        proof {
            assert(r.wakers@.to_set() =~= Set::<u64>::empty());
        }
        r
    }

    /// The sleeping tasks, with their deadlines and the ids of their sleeps. A task may appear
    /// more than once.
    pub fn get_waiters(&self) -> (r: &[(Duration, TaskId, u64)])
        ensures
            sleeps_view(r@) == self.view().waiters,
    {
        self.waiters.as_slice()
    }

    /// Removes the sleeps whose deadline has passed from the queue, returning their ids in queue
    /// order.
    fn take_expired(&mut self) -> (r: Vec<u64>)
        ensures
            r@ == sleep_ids(expired_sleeps(old(self).view().waiters, old(self).view().elapsed)),
            final(self).view() == (SteppedView {
                waiters: pending_sleeps(old(self).view().waiters, old(self).view().elapsed),
                ..old(self).view()
            }),
    {
        let now = nanos_of(&self.current_time_elapsed);
        let ghost w = self.view().waiters;
        let mut kept: Vec<(Duration, TaskId, u64)> = Vec::new();
        let mut woken: Vec<u64> = Vec::new();
        let mut i: usize = 0;
        while i < self.waiters.len()
            invariant
                i <= self.waiters@.len(),
                w == sleeps_view(self.waiters@),
                now == old(self).view().elapsed,
                *self == *old(self),
                sleeps_view(kept@) == pending_sleeps(w.take(i as int), now as nat),
                woken@ == sleep_ids(expired_sleeps(w.take(i as int), now as nat)),
            decreases self.waiters@.len() - i,
        {
            let entry = self.waiters[i];
            let deadline = nanos_of(&entry.0);
            proof {
                assert(w.take(i + 1).drop_last() =~= w.take(i as int));
                assert(w.take(i + 1).last() == w[i as int]);
            }
            let ghost kept_before = sleeps_view(kept@);
            let ghost woken_before = woken@;
            if deadline <= now {
                woken.push(entry.2);
                proof {
                    let e = expired_sleeps(w.take(i as int), now as nat);
                    assert(sleep_ids(e.push(w[i as int])) =~= woken_before.push(entry.2));
                }
            } else {
                kept.push(entry);
                proof {
                    assert(sleeps_view(kept@) =~= kept_before.push(w[i as int]));
                }
            }
            i = i + 1;
        }
        proof {
            assert(w.take(i as int) =~= w);
        }
        self.waiters = kept;
        woken
    }

    /// Wakes the sleeps in `ids` in turn: each whose waker is live is woken once, consuming its
    /// waker. Returns the ids of the sleeps woken.
    fn wake_ids(&mut self, ids: &Vec<u64>) -> (r: Vec<u64>)
        ensures
            r@ == woken_once(ids@, old(self).view().wakers),
            final(self).view() == (SteppedView {
                wakers: old(self).view().wakers.difference(ids@.to_set()),
                ..old(self).view()
            }),
    {
        let ghost live = self.view().wakers;
        let mut woken: Vec<u64> = Vec::new();
        let mut i: usize = 0;
        proof {
            assert(ids@.take(0).to_set() =~= Set::<u64>::empty());
            assert(live.difference(Set::<u64>::empty()) =~= live);
        }
        while i < ids.len()
            invariant
                i <= ids@.len(),
                self.waiters == old(self).waiters,
                self.current_time_elapsed == old(self).current_time_elapsed,
                self.current_step_size == old(self).current_step_size,
                self.distribution == old(self).distribution,
                live == old(self).view().wakers,
                self.wakers@.to_set() == live.difference(ids@.take(i as int).to_set()),
                woken@ == woken_once(ids@.take(i as int), live),
            decreases ids@.len() - i,
        {
            let id = ids[i];
            let ghost prefix = ids@.take(i as int);
            proof {
                assert(ids@.take(i + 1) =~= prefix.push(id));
                assert(ids@.take(i + 1).drop_last() =~= prefix);
                prefix.lemma_push_to_set_commute(id);
                lemma_woken_once(prefix, live, id);
                assert(prefix.contains(id) <==> prefix.to_set().contains(id));
            }
            let found = take_waker(&mut self.wakers, id);
            if found {
                woken.push(id);
            }
            proof {
                assert(self.wakers@.to_set() =~= live.difference(prefix.push(id).to_set()));
            }
            i = i + 1;
        }
        proof {
            assert(ids@.take(i as int) =~= ids@);
        }
        woken
    }

    /// Removes the sleeps whose deadline has passed from the queue and wakes those whose waker is
    /// live, each once; returns their ids.
    fn unblock_expired(&mut self) -> (r: Vec<u64>)
        ensures
            r@ == woken_at(old(self).view(), old(self).view().elapsed),
            final(self).view() == expired_at(old(self).view(), old(self).view().elapsed),
    {
        let expired = self.take_expired();
        self.wake_ids(&expired)
    }

    /// Wakes the sleep `sleep_id` without moving the clock, if its waker is live; the sleep stays
    /// in the queue. Returns whether it was woken.
    pub fn wake_frozen(&mut self, sleep_id: u64) -> (r: bool)
        ensures
            r == old(self).view().wakers.contains(sleep_id),
            final(self).view() == (SteppedView { wakers: old(self).view().wakers.remove(sleep_id), ..old(self).view() }),
    {
        take_waker(&mut self.wakers, sleep_id)
    }

    /// Advances the time by one step, waking the sleeps whose deadline has passed.
    pub fn step(&mut self) -> (r: Vec<u64>)
        requires
            old(self).view().elapsed + old(self).view().step <= max_duration_nanos(),
        ensures
            ({
                let now = old(self).view().elapsed + old(self).view().step;
                &&& r@ == woken_at(old(self).view(), now)
                &&& final(self).view() == expired_at(old(self).view(), now)
            }),
    {
        match add_durations(self.current_time_elapsed, self.current_step_size) {
            Some(t) => {
                self.current_time_elapsed = t;
            },
            None => {
                proof {
                    assert(false);
                }
            },
        }
        self.unblock_expired()
    }

    /// Starts a new execution: the step is sampled again, the time starts at zero, and nobody
    /// sleeps.
    pub fn new_execution(&mut self)
        ensures
            final(self).view() == (SteppedView {
                step: duration_nanos(old(self).view().distribution.time) as nat,
                elapsed: 0,
                waiters: Seq::empty(),
                distribution: old(self).view().distribution,
                wakers: Set::empty(),
            }),
    {
        self.current_step_size = self.distribution.sample();
        self.current_time_elapsed = zero_duration();
        self.waiters = Vec::new();
        self.wakers = Vec::new();
        proof {
            assert(sleeps_view(self.waiters@) =~= Seq::<SleepView>::empty());
            assert(self.wakers@.to_set() =~= Set::<u64>::empty());
        }
    }

    /// The current instant.
    pub fn instant(&self) -> (r: Instant)
        ensures
            duration_nanos(r.since_start()) == self.view().elapsed,
    {
        Instant::simulated(self.current_time_elapsed)
    }

    /// When every task is blocked: moves the time forward to the earliest deadline, if it is
    /// later, and wakes the sleeps whose deadline has then passed. Returns whether anybody was
    /// asleep, and the ids of the sleeps woken.
    pub fn wake_next(&mut self) -> (r: (bool, Vec<u64>))
        ensures
            old(self).view().waiters.len() == 0 ==> !r.0 && r.1@.len() == 0 && final(self).view() == old(self).view(),
            old(self).view().waiters.len() > 0 ==> ({
                let first = earliest_deadline(old(self).view().waiters);
                let now = if old(self).view().elapsed >= first { old(self).view().elapsed } else { first };
                &&& r.0
                &&& r.1@ == woken_at(old(self).view(), now)
                &&& final(self).view() == expired_at(old(self).view(), now)
            }),
    {
        if self.waiters.len() == 0 {
            return (false, Vec::new());
        }
        let ghost w = self.view().waiters;
        let mut best: usize = 0;
        let mut best_nanos = nanos_of(&self.waiters[0].0);
        let mut i: usize = 1;
        proof {
            assert(w.take(1).drop_last().len() == 0);
        }
        while i < self.waiters.len()
            invariant
                1 <= i <= self.waiters@.len(),
                best < self.waiters@.len(),
                w == sleeps_view(self.waiters@),
                best_nanos == w[best as int].0,
                best_nanos == earliest_deadline(w.take(i as int)),
            decreases self.waiters@.len() - i,
        {
            let d = nanos_of(&self.waiters[i].0);
            proof {
                assert(w.take(i + 1).drop_last() =~= w.take(i as int));
                assert(w.take(i + 1).last() == w[i as int]);
            }
            if d < best_nanos {
                best = i;
                best_nanos = d;
            }
            i = i + 1;
        }
        proof {
            assert(w.take(i as int) =~= w);
        }
        let elapsed = nanos_of(&self.current_time_elapsed);
        if best_nanos > elapsed {
            self.current_time_elapsed = self.waiters[best].0;
        }
        let woken = self.unblock_expired();
        (true, woken)
    }

    /// Advances the time by `dur` without waking anybody.
    pub fn advance(&mut self, dur: Duration)
        requires
            old(self).view().elapsed + duration_nanos(dur) <= max_duration_nanos(),
        ensures
            final(self).view() == (SteppedView { elapsed: (old(self).view().elapsed + duration_nanos(dur)) as nat, ..old(self).view() }),
    {
        match add_durations(self.current_time_elapsed, dur) {
            Some(t) => {
                self.current_time_elapsed = t;
            },
            None => {
                proof {
                    assert(false);
                }
            },
        }
    }

    /// A sleep of `task_id` until `deadline`, with id `sleep_id`. Returns whether the deadline
    /// has already passed; otherwise, if the sleeper can be woken, it joins the queue.
    pub fn register_sleep(&mut self, deadline: Instant, sleep_id: u64, task_id: TaskId, has_waker: bool) -> (r: bool)
        ensures
            r == (duration_nanos(deadline.since_start()) <= old(self).view().elapsed),
            r || !has_waker ==> final(self).view() == old(self).view(),
            !r && has_waker ==> final(self).view() == (SteppedView {
                waiters: old(self).view().waiters.push((duration_nanos(deadline.since_start()) as nat, task_id, sleep_id)),
                wakers: old(self).view().wakers.insert(sleep_id),
                ..old(self).view()
            }),
    {
        let d = deadline.elapsed();
        if nanos_of(&d) <= nanos_of(&self.current_time_elapsed) {
            return true;
        }
        if has_waker {
            let ghost before = self.view().waiters;
            let ghost live = self.wakers@;
            self.waiters.push((d, task_id, sleep_id));
            self.wakers.push(sleep_id);
            proof {
                live.lemma_push_to_set_commute(sleep_id);
                assert(self.view().waiters =~= before.push((duration_nanos(d) as nat, task_id, sleep_id)));
            }
        }
        false
    }

    /// The ids of the sleeps of the tasks in `tasks`, in queue order.
    fn sleeps_of(&self, tasks: &Vec<TaskId>) -> (r: Vec<u64>)
        ensures
            r@ == sleeps_of_tasks(self.view().waiters, tasks@.to_set()),
    {
        let ghost w = self.view().waiters;
        let mut ids: Vec<u64> = Vec::new();
        let mut i: usize = 0;
        while i < self.waiters.len()
            invariant
                i <= self.waiters@.len(),
                w == sleeps_view(self.waiters@),
                ids@ == sleeps_of_tasks(w.take(i as int), tasks@.to_set()),
            decreases self.waiters@.len() - i,
        {
            proof {
                assert(w.take(i + 1).drop_last() =~= w.take(i as int));
                assert(w.take(i + 1).last() == w[i as int]);
            }
            let task = self.waiters[i].1;
            if contains_task(tasks, task) {
                ids.push(self.waiters[i].2);
            }
            i = i + 1;
        }
        proof {
            assert(w.take(i as int) =~= w);
        }
        ids
    }
}

/// The time model a configuration asks for. Without time, the model's clock never moves by
/// itself: its step is zero, so a sleep ends only when every task is blocked and the clock is
/// moved to the earliest deadline.
pub fn from_config(config: TimeModelConfig) -> (r: ConstantSteppedTimeModel)
    ensures
        r.view().elapsed == 0,
        r.view().waiters.len() == 0,
        r.view().wakers == Set::<u64>::empty(),
        config matches TimeModelConfig::ConstantStepped(d) ==> r.view().step == duration_nanos(d.time)
            && r.view().distribution == d,
        config is NoTime ==> r.view().step == 0 && duration_nanos(r.view().distribution.time) == 0,
{
    match config {
        TimeModelConfig::ConstantStepped(distribution) => ConstantSteppedTimeModel::new(distribution.time),
        TimeModelConfig::NoTime => ConstantSteppedTimeModel::new(zero_duration()),
    }
}

/// Consumes the waker of the sleep `id`, if it is live: returns whether it was.
fn take_waker(wakers: &mut Vec<u64>, id: u64) -> (r: bool)
    ensures
        r == old(wakers)@.to_set().contains(id),
        final(wakers)@.to_set() == old(wakers)@.to_set().remove(id),
{
    let ghost w = wakers@;
    let mut kept: Vec<u64> = Vec::new();
    let mut found = false;
    let mut i: usize = 0;
    proof {
        assert(w.take(0).to_set() =~= Set::<u64>::empty());
        assert(kept@.to_set() =~= Set::<u64>::empty());
    }
    while i < wakers.len()
        invariant
            i <= wakers@.len(),
            wakers@ == w,
            w == old(wakers)@,
            kept@.to_set() == w.take(i as int).to_set().remove(id),
            found == w.take(i as int).to_set().contains(id),
        decreases wakers@.len() - i,
    {
        let x = wakers[i];
        let ghost prefix = w.take(i as int);
        let ghost kept_before = kept@;
        proof {
            assert(w.take(i + 1) =~= prefix.push(x));
            prefix.lemma_push_to_set_commute(x);
        }
        if x == id {
            found = true;
        } else {
            kept.push(x);
            proof {
                kept_before.lemma_push_to_set_commute(x);
            }
        }
        proof {
            assert(kept@.to_set() =~= prefix.push(x).to_set().remove(id));
        }
        i = i + 1;
    }
    proof {
        assert(w.take(i as int) =~= w);
    }
    *wakers = kept;
    found
}

/// Whether `task` is among `tasks`.
fn contains_task(tasks: &Vec<TaskId>, task: TaskId) -> (r: bool)
    ensures
        r == tasks@.to_set().contains(task),
{
    let mut i: usize = 0;
    while i < tasks.len()
        invariant
            i <= tasks@.len(),
            forall|k: int| 0 <= k < i ==> tasks@[k] != task,
        decreases tasks@.len() - i,
    {
        if tasks[i] == task {
            proof {
                assert(tasks@.to_set().contains(tasks@[i as int]));
            }
            return true;
        }
        i = i + 1;
    }
    proof {
        if tasks@.to_set().contains(task) {
            let k = choose|k: int| 0 <= k < tasks@.len() && tasks@[k] == task;
            assert(tasks@[k] != task);
        }
    }
    false
}

/// The state of a frozen time model.
pub struct FrozenView {
    pub inner: SteppedView,
    pub expired: Set<TaskId>,
}

/// A time model where time does not advance unless forced, and the timeouts of chosen tasks
/// expire at once.
#[derive(Debug)]
pub struct FrozenTimeModel {
    inner: ConstantSteppedTimeModel,
    expired: Vec<TaskId>,
}

impl FrozenTimeModel {
    pub closed spec fn view(&self) -> FrozenView {
        FrozenView { inner: self.inner.view(), expired: self.expired@.to_set() }
    }

    /// A frozen model at time zero, with nobody asleep and no timeout expired.
    pub fn new() -> (r: FrozenTimeModel)
        ensures
            r.view().inner.step == 0,
            r.view().inner.elapsed == 0,
            r.view().inner.waiters.len() == 0,
            r.view().expired == Set::<TaskId>::empty(),
    {
        let r = FrozenTimeModel { inner: ConstantSteppedTimeModel::new(zero_duration()), expired: Vec::new() };
        proof {
            assert(r.expired@.to_set() =~= Set::<TaskId>::empty());
        }
        r
    }

    /// Expires the timeouts of the tasks in `tasks`, those a trigger picked, from now on, and
    /// wakes the sleeps of every task whose timeouts have expired, in queue order, without moving
    /// the clock: those whose waker is live, each once. Returns the ids of the sleeps woken.
    pub fn trigger_timeouts(&mut self, tasks: &[TaskId]) -> (r: Vec<u64>)
        ensures
            ({
                let expired = old(self).view().expired + tasks@.to_set();
                let inner = old(self).view().inner;
                let ids = sleeps_of_tasks(inner.waiters, expired);
                &&& final(self).view() == (FrozenView {
                    expired,
                    inner: SteppedView { wakers: inner.wakers.difference(ids.to_set()), ..inner },
                })
                &&& r@ == woken_once(ids, inner.wakers)
            }),
    {
        let ghost e0 = self.expired@;
        let mut i: usize = 0;
        while i < tasks.len()
            invariant
                i <= tasks@.len(),
                self.inner == old(self).inner,
                self.expired@ == e0 + tasks@.take(i as int),
                e0 == old(self).expired@,
            decreases tasks@.len() - i,
        {
            self.expired.push(tasks[i]);
            proof {
                assert(tasks@.take(i + 1) =~= tasks@.take(i as int).push(tasks@[i as int]));
                assert(self.expired@ =~= e0 + tasks@.take(i + 1));
            }
            i = i + 1;
        }
        proof {
            assert(tasks@.take(i as int) =~= tasks@);
            assert((e0 + tasks@).to_set() =~= e0.to_set() + tasks@.to_set()) by {
                assert forall|t: TaskId| (e0 + tasks@).to_set().contains(t) <==> (e0.to_set() + tasks@.to_set()).contains(t) by {
                    if (e0 + tasks@).to_set().contains(t) {
                        let k = choose|k: int| 0 <= k < (e0 + tasks@).len() && (e0 + tasks@)[k] == t;
                        if k < e0.len() {
                            assert(e0[k] == t);
                        } else {
                            assert(tasks@[k - e0.len()] == t);
                        }
                    }
                    if e0.to_set().contains(t) {
                        let k = choose|k: int| 0 <= k < e0.len() && e0[k] == t;
                        assert((e0 + tasks@)[k] == t);
                    }
                    if tasks@.to_set().contains(t) {
                        let k = choose|k: int| 0 <= k < tasks@.len() && tasks@[k] == t;
                        assert((e0 + tasks@)[e0.len() + k] == t);
                    }
                }
            }
        }
        let ids = self.inner.sleeps_of(&self.expired);
        self.inner.wake_ids(&ids)
    }

    /// Expires the timeouts of `task` from now on, as when a trigger already registered picks a
    /// task that goes to sleep after the trigger was set: its sleeps are then over at once.
    pub fn expire(&mut self, task: TaskId)
        ensures
            final(self).view() == (FrozenView { expired: old(self).view().expired.insert(task), ..old(self).view() }),
    {
        let ghost e0 = self.expired@;
        self.expired.push(task);
        proof {
            e0.lemma_push_to_set_commute(task);
        }
    }

    /// Lets no timeout expire early any more.
    pub fn clear_triggers(&mut self)
        ensures
            final(self).view() == (FrozenView { expired: Set::empty(), ..old(self).view() }),
    {
        self.expired = Vec::new();
        proof {
            assert(self.expired@.to_set() =~= Set::<TaskId>::empty());
        }
    }

    /// Starts a new execution: the inner model starts anew, and no timeout is expired.
    pub fn new_execution(&mut self)
        ensures
            final(self).view().expired == Set::<TaskId>::empty(),
            final(self).view().inner == (SteppedView {
                step: duration_nanos(old(self).view().inner.distribution.time) as nat,
                elapsed: 0,
                waiters: Seq::empty(),
                distribution: old(self).view().inner.distribution,
                wakers: Set::empty(),
            }),
    {
        self.inner.new_execution();
        self.clear_triggers();
    }

    /// A sleep of `task_id` until `deadline`, with id `sleep_id`: over at once for a task whose
    /// timeouts have expired, else as in the inner model.
    pub fn register_sleep(&mut self, deadline: Instant, sleep_id: u64, task_id: TaskId, has_waker: bool) -> (r: bool)
        ensures
            old(self).view().expired.contains(task_id) ==> r && final(self).view() == old(self).view(),
            !old(self).view().expired.contains(task_id) ==> ({
                let inner = old(self).view().inner;
                &&& final(self).view().expired == old(self).view().expired
                &&& r == (duration_nanos(deadline.since_start()) <= inner.elapsed)
                &&& (r || !has_waker ==> final(self).view().inner == inner)
                &&& (!r && has_waker ==> final(self).view().inner == (SteppedView {
                    waiters: inner.waiters.push((duration_nanos(deadline.since_start()) as nat, task_id, sleep_id)),
                    wakers: inner.wakers.insert(sleep_id),
                    ..inner
                }))
            }),
    {
        if contains_task(&self.expired, task_id) {
            true
        } else {
            self.inner.register_sleep(deadline, sleep_id, task_id, has_waker)
        }
    }

    /// The current instant, which only moves when forced.
    pub fn instant(&self) -> (r: Instant)
        ensures
            duration_nanos(r.since_start()) == self.view().inner.elapsed,
    {
        self.inner.instant()
    }

    /// When every task is blocked: wakes the earliest sleepers, as the inner model does.
    pub fn wake_next(&mut self) -> (r: (bool, Vec<u64>))
        ensures
            final(self).view().expired == old(self).view().expired,
            old(self).view().inner.waiters.len() == 0 ==> !r.0 && r.1@.len() == 0 && final(self).view() == old(self).view(),
            old(self).view().inner.waiters.len() > 0 ==> ({
                let inner = old(self).view().inner;
                let first = earliest_deadline(inner.waiters);
                let now = if inner.elapsed >= first { inner.elapsed } else { first };
                &&& r.0
                &&& r.1@ == woken_at(inner, now)
                &&& final(self).view().inner == expired_at(inner, now)
            }),
    {
        self.inner.wake_next()
    }

    /// Advances the time by `dur` without waking anybody.
    pub fn advance(&mut self, dur: Duration)
        requires
            old(self).view().inner.elapsed + duration_nanos(dur) <= max_duration_nanos(),
        ensures
            final(self).view() == (FrozenView {
                inner: SteppedView { elapsed: (old(self).view().inner.elapsed + duration_nanos(dur)) as nat, ..old(self).view().inner },
                ..old(self).view()
            }),
    {
        self.inner.advance(dur);
    }
}

/// `Duration::from_micros`: a duration of `micros` microseconds.
#[verifier::external_body]
fn micros_duration(micros: u64) -> (r: Duration)
    ensures
        duration_nanos(r) == micros * 1000,
{
    Duration::from_micros(micros)
}

/// The step of the default time model: ten microseconds.
pub fn default_step() -> (r: Duration)
    ensures
        duration_nanos(r) == 10_000,
{
    micros_duration(10)
}

/// How a time model moves time and wakes sleepers.
pub trait TimeModel {
    /// Whether one more step keeps the time within the longest duration.
    spec fn can_step(&self) -> bool;

    /// Advances the time by one scheduling step; returns the ids of the sleeps to wake.
    fn step(&mut self) -> Vec<u64>
        requires
            old(self).can_step(),
    ;

    /// Starts a new execution.
    fn new_execution(&mut self);

    /// The current instant.
    fn instant(&self) -> Instant;

    /// When every task is blocked, wakes the earliest sleepers: whether anybody was asleep, and
    /// the ids of the sleeps woken.
    fn wake_next(&mut self) -> (bool, Vec<u64>);

    /// A sleep of `task_id` until `deadline`: whether it is already over; otherwise, if it can
    /// be woken, it waits.
    fn register_sleep(&mut self, deadline: Instant, sleep_id: u64, task_id: TaskId, has_waker: bool) -> bool;
}

impl TimeModel for ConstantSteppedTimeModel {
    open spec fn can_step(&self) -> bool {
        self.view().elapsed + self.view().step <= max_duration_nanos()
    }

    fn step(&mut self) -> (r: Vec<u64>)
        ensures
            ({
                let now = old(self).view().elapsed + old(self).view().step;
                &&& r@ == woken_at(old(self).view(), now)
                &&& final(self).view() == expired_at(old(self).view(), now)
            }),
    {
        ConstantSteppedTimeModel::step(self)
    }

    fn new_execution(&mut self)
        ensures
            final(self).view() == (SteppedView {
                step: duration_nanos(old(self).view().distribution.time) as nat,
                elapsed: 0,
                waiters: Seq::empty(),
                distribution: old(self).view().distribution,
                wakers: Set::empty(),
            }),
    {
        ConstantSteppedTimeModel::new_execution(self)
    }

    fn instant(&self) -> (r: Instant)
        ensures
            duration_nanos(r.since_start()) == self.view().elapsed,
    {
        ConstantSteppedTimeModel::instant(self)
    }

    fn wake_next(&mut self) -> (r: (bool, Vec<u64>))
        ensures
            old(self).view().waiters.len() == 0 ==> !r.0 && r.1@.len() == 0 && final(self).view() == old(self).view(),
            old(self).view().waiters.len() > 0 ==> r.0,
    {
        ConstantSteppedTimeModel::wake_next(self)
    }

    fn register_sleep(&mut self, deadline: Instant, sleep_id: u64, task_id: TaskId, has_waker: bool) -> (r: bool)
        ensures
            r == (duration_nanos(deadline.since_start()) <= old(self).view().elapsed),
    {
        ConstantSteppedTimeModel::register_sleep(self, deadline, sleep_id, task_id, has_waker)
    }
}

impl TimeModel for FrozenTimeModel {
    open spec fn can_step(&self) -> bool {
        true
    }

    /// Time does not move by itself.
    fn step(&mut self) -> (r: Vec<u64>)
        ensures
            r@.len() == 0,
            final(self).view() == old(self).view(),
    {
        Vec::new()
    }

    fn new_execution(&mut self)
        ensures
            final(self).view().expired == Set::<TaskId>::empty(),
    {
        FrozenTimeModel::new_execution(self)
    }

    fn instant(&self) -> (r: Instant)
        ensures
            duration_nanos(r.since_start()) == self.view().inner.elapsed,
    {
        FrozenTimeModel::instant(self)
    }

    fn wake_next(&mut self) -> (r: (bool, Vec<u64>))
        ensures
            final(self).view().expired == old(self).view().expired,
            old(self).view().inner.waiters.len() == 0 ==> !r.0 && r.1@.len() == 0 && final(self).view() == old(self).view(),
            old(self).view().inner.waiters.len() > 0 ==> ({
                let inner = old(self).view().inner;
                let first = earliest_deadline(inner.waiters);
                let now = if inner.elapsed >= first { inner.elapsed } else { first };
                &&& r.0
                &&& r.1@ == woken_at(inner, now)
                &&& final(self).view().inner == expired_at(inner, now)
            }),
    {
        FrozenTimeModel::wake_next(self)
    }

    fn register_sleep(&mut self, deadline: Instant, sleep_id: u64, task_id: TaskId, has_waker: bool) -> (r: bool)
        ensures
            old(self).view().expired.contains(task_id) ==> r && final(self).view() == old(self).view(),
            !old(self).view().expired.contains(task_id) ==> ({
                let inner = old(self).view().inner;
                &&& final(self).view().expired == old(self).view().expired
                &&& r == (duration_nanos(deadline.since_start()) <= inner.elapsed)
                &&& (r || !has_waker ==> final(self).view().inner == inner)
                &&& (!r && has_waker ==> final(self).view().inner == (SteppedView {
                    waiters: inner.waiters.push((duration_nanos(deadline.since_start()) as nat, task_id, sleep_id)),
                    wakers: inner.wakers.insert(sleep_id),
                    ..inner
                }))
            }),
    {
        FrozenTimeModel::register_sleep(self, deadline, sleep_id, task_id, has_waker)
    }
}

/// A copy of the elements.
fn copy_all<T: Copy>(v: &Vec<T>) -> (r: Vec<T>)
    ensures
        r@ == v@,
{
    let mut r: Vec<T> = Vec::new();
    let mut i: usize = 0;
    while i < v.len()
        invariant
            i <= v@.len(),
            r@ == v@.take(i as int),
        decreases v@.len() - i,
    {
        r.push(v[i]);
        proof {
            assert(v@.take(i + 1) =~= v@.take(i as int).push(v@[i as int]));
        }
        i = i + 1;
    }
    proof {
        assert(v@.take(i as int) =~= v@);
    }
    r
}

impl Clone for ConstantSteppedTimeModel {
    /// A model in the same state.
    fn clone(&self) -> (r: Self)
        ensures
            r.view() == self.view(),
    {
        ConstantSteppedTimeModel {
            distribution: self.distribution,
            current_step_size: self.current_step_size,
            current_time_elapsed: self.current_time_elapsed,
            waiters: copy_all(&self.waiters),
            wakers: copy_all(&self.wakers),
        }
    }
}

impl Clone for FrozenTimeModel {
    /// A model in the same state.
    fn clone(&self) -> (r: Self)
        ensures
            r.view() == self.view(),
    {
        FrozenTimeModel { inner: self.inner.clone(), expired: copy_all(&self.expired) }
    }
}

} // verus!
