//! The bookkeeping of a counting semaphore whose waiters may ask for several permits at once.
//!
//! Released permits are kept in batches, each with the clock of the release that produced it, so
//! that an acquire causally depends exactly on the releases whose permits it takes. Waiters queue
//! in arrival order; a strictly fair semaphore grants permits from the front of the queue only,
//! while an unfair one lets every waiter that could succeed race for them.
//!
//! The semaphore here only decides: which permits an acquire takes and which clock it inherits,
//! which waiters are granted permits or are to be woken, blocked or released. Switching tasks,
//! blocking and waking them is left to the caller, which applies the returned effects.
use vstd::prelude::*;
use crate::task::TaskId;
use crate::clock::{VectorClock, clock_join, max_clock_len};

verus! {

/// Which waiters are woken when permits are released.
#[derive(Clone, Copy, Debug, PartialEq, Eq, Structural)]
pub enum Fairness {
    /// Earlier requesters always get permits before later ones.
    StrictlyFair,
    /// No guarantee: a waiter can be starved by other tasks.
    Unfair,
}

/// Why `try_acquire` failed.
#[derive(Clone, Copy, Debug, PartialEq, Eq, Structural)]
pub enum TryAcquireError {
    /// The semaphore has been closed and issues no more permits.
    Closed,
    /// There are not enough permits available.
    NoPermits,
}

/// The error of an `acquire`, which only fails once the semaphore is closed.
#[derive(Clone, Copy, Debug, PartialEq, Eq, Structural)]
pub struct AcquireError {
    closed: bool,
}

impl AcquireError {
    /// The error for a closed semaphore.
    pub fn closed() -> (r: AcquireError)
        ensures
            r.is_closed(),
    {
        AcquireError { closed: true }
    }

    /// Whether the error reports a closed semaphore, the one way an acquire fails.
    pub closed spec fn is_closed(self) -> bool {
        self.closed
    }

    /// The message that describes the error.
    pub fn message(&self) -> (r: String)
        ensures
            r@ == "semaphore closed"@,
    {
        String::from_str("semaphore closed")
    }
}

/// The sum of the sizes of the batches.
pub open spec fn batches_total(batches: Seq<(nat, Seq<u32>)>) -> nat
    decreases batches.len(),
{
    if batches.len() == 0 {
        0
    } else {
        batches[0].0 + batches_total(batches.drop_first())
    }
}

/// Taking `n` permits from the front of the batches, the clock so far being `clock`: the batches
/// that remain, and the join of `clock` with the clocks of every batch that was used, fully or in
/// part.
pub open spec fn take_permits(batches: Seq<(nat, Seq<u32>)>, n: nat, clock: Seq<u32>) -> (Seq<(nat, Seq<u32>)>, Seq<u32>)
    decreases batches.len(),
{
    if batches.len() == 0 {
        (batches, clock)
    } else {
        let joined = clock_join(clock, batches[0].1);
        if n < batches[0].0 {
            (batches.update(0, ((batches[0].0 - n) as nat, batches[0].1)), joined)
        } else if n == batches[0].0 {
            (batches.drop_first(), joined)
        } else {
            take_permits(batches.drop_first(), (n - batches[0].0) as nat, joined)
        }
    }
}

/// The batches of available permits, with the clock of the last successful acquire.
pub struct PermitsView {
    pub available: nat,
    pub batches: Seq<(nat, Seq<u32>)>,
    pub last_acquire: Seq<u32>,
}

/// Whether every clock in the batches has a length a clock can have.
pub open spec fn batch_clocks_bounded(batches: Seq<(nat, Seq<u32>)>) -> bool {
    forall|i: int| 0 <= i < batches.len() ==> #[trigger] batches[i].1.len() <= max_clock_len()
}

/// Acquiring `n` permits for a task whose clock is `acquire_clock`: the permits afterwards and
/// the clock the acquire inherits, or why it fails. Acquiring nothing always succeeds and depends
/// on no event.
pub open spec fn acquire_spec(p: PermitsView, n: nat, acquire_clock: Seq<u32>) -> Result<(PermitsView, Seq<u32>), TryAcquireError> {
    if n == 0 {
        Ok((p, Seq::<u32>::empty()))
    } else if n <= p.available {
        let taken = take_permits(p.batches, n, Seq::<u32>::empty());
        Ok((
            PermitsView {
                available: (p.available - n) as nat,
                batches: taken.0,
                last_acquire: clock_join(p.last_acquire, acquire_clock),
            },
            taken.1,
        ))
    } else {
        Err(TryAcquireError::NoPermits)
    }
}

/// Releasing `n` permits with the clock of the release: a new batch at the back.
pub open spec fn release_spec(p: PermitsView, n: nat, clock: Seq<u32>) -> PermitsView {
    PermitsView { available: p.available + n, batches: p.batches.push((n, clock)), last_acquire: p.last_acquire }
}

/// The number of permits in the batches grows by the size of a batch pushed at the back.
pub proof fn lemma_total_push(batches: Seq<(nat, Seq<u32>)>, b: (nat, Seq<u32>))
    ensures
        batches_total(batches.push(b)) == batches_total(batches) + b.0,
    decreases batches.len(),
{
    if batches.len() > 0 {
        assert(batches.push(b).drop_first() =~= batches.drop_first().push(b));
        lemma_total_push(batches.drop_first(), b);
    } else {
        assert(batches.push(b).drop_first() =~= Seq::<(nat, Seq<u32>)>::empty());
        reveal_with_fuel(batches_total, 2);
    }
}

/// Taking `n` permits, no more than there are, leaves `n` fewer, and the clocks of what remains
/// are among those of the batches before.
pub proof fn lemma_take_permits(batches: Seq<(nat, Seq<u32>)>, n: nat, clock: Seq<u32>)
    requires
        0 < n <= batches_total(batches),
    ensures
        batches_total(take_permits(batches, n, clock).0) + n == batches_total(batches),
        batch_clocks_bounded(batches) ==> batch_clocks_bounded(take_permits(batches, n, clock).0),
        batch_clocks_bounded(batches) && clock.len() <= max_clock_len()
            ==> take_permits(batches, n, clock).1.len() <= max_clock_len(),
    decreases batches.len(),
{
    let joined = clock_join(clock, batches[0].1);
    if batches.len() > 0 {
        if n < batches[0].0 {
            let rest = batches.update(0, ((batches[0].0 - n) as nat, batches[0].1));
            assert(rest.drop_first() =~= batches.drop_first());
            if batch_clocks_bounded(batches) {
                assert forall|i: int| 0 <= i < rest.len() implies #[trigger] rest[i].1.len() <= max_clock_len() by {
                    assert(rest[i].1 == batches[i].1);
                }
            }
        } else if n == batches[0].0 {
        } else {
            if batch_clocks_bounded(batches) {
                assert(batches[0].1.len() <= max_clock_len());
                assert forall|i: int| 0 <= i < batches.drop_first().len() implies #[trigger] batches.drop_first()[i].1.len() <= max_clock_len() by {
                    assert(batches.drop_first()[i] == batches[i + 1]);
                }
            }
            lemma_take_permits(batches.drop_first(), (n - batches[0].0) as nat, joined);
        }
    }
}

/// The permits available to be acquired, in batches by the release that produced them.
pub struct PermitsAvailable {
    num_available: usize,
    sizes: Vec<usize>,
    clocks: Vec<VectorClock>,
    last_acquire: VectorClock,
}

impl PermitsAvailable {
    /// The batches, front first, and the clock of the last successful acquire.
    pub closed spec fn view(&self) -> PermitsView {
        PermitsView {
            available: self.num_available as nat,
            batches: Seq::new(self.sizes@.len(), |i: int| (self.sizes@[i] as nat, self.clocks@[i]@)),
            last_acquire: self.last_acquire@,
        }
    }

    /// The count of available permits is the sum of the batches, and every clock is one a clock
    /// can be.
    pub closed spec fn wf(&self) -> bool {
        &&& self.sizes@.len() == self.clocks@.len()
        &&& self.num_available as nat == batches_total(self.view().batches)
        &&& batch_clocks_bounded(self.view().batches)
        &&& self.last_acquire@.len() <= max_clock_len()
    }

    /// `num_permits` permits in one batch, released at `clock`.
    pub fn new(num_permits: usize, clock: VectorClock) -> (r: PermitsAvailable)
        requires
            clock@.len() <= max_clock_len(),
        ensures
            r.wf(),
            r.view().available == num_permits,
            r.view().batches == (if num_permits > 0 { seq![(num_permits as nat, clock@)] } else { Seq::empty() }),
            r.view().last_acquire == Seq::<u32>::empty(),
    {
        let mut sizes: Vec<usize> = Vec::new();
        let mut clocks: Vec<VectorClock> = Vec::new();
        if num_permits > 0 {
            sizes.push(num_permits);
            clocks.push(clock);
        }
        let r = PermitsAvailable { num_available: num_permits, sizes, clocks, last_acquire: VectorClock::new() };
        proof {
            let b = r.view().batches;
            if num_permits > 0 {
                assert(b =~= seq![(num_permits as nat, clock@)]);
                assert(b.drop_first() =~= Seq::<(nat, Seq<u32>)>::empty());
                reveal_with_fuel(batches_total, 2);
                assert(batches_total(b) == num_permits);
                assert(batch_clocks_bounded(b));
            } else {
                assert(b =~= Seq::<(nat, Seq<u32>)>::empty());
            }
        }
        r
    }

    /// The number of available permits.
    pub fn available(&self) -> (r: usize)
        ensures
            r == self.view().available,
    {
        self.num_available
    }

    /// Acquires `num_permits` permits for a task whose clock is `acquire_clock`, returning the
    /// join of the clocks of the batches they were taken from.
    pub fn acquire(&mut self, num_permits: usize, acquire_clock: &VectorClock) -> (r: Result<VectorClock, TryAcquireError>)
        requires
            old(self).wf(),
            acquire_clock@.len() <= max_clock_len(),
        ensures
            final(self).wf(),
            match acquire_spec(old(self).view(), num_permits as nat, acquire_clock@) {
                Ok((p, c)) => r matches Ok(clock) && clock@ == c && final(self).view() == p,
                Err(e) => r == Err::<VectorClock, TryAcquireError>(e) && final(self).view() == old(self).view(),
            },
    {
        if num_permits == 0 {
            return Ok(VectorClock::new());
        }
        if num_permits > self.num_available {
            return Err(TryAcquireError::NoPermits);
        }
        let ghost start = self.view();
        self.last_acquire.update(acquire_clock);
        self.num_available = self.num_available - num_permits;
        let mut clock = VectorClock::new();
        let mut n = num_permits;
        proof {
            lemma_take_permits(start.batches, num_permits as nat, Seq::empty());
        }
        while self.sizes.len() > 0
            invariant_except_break
                0 < n <= batches_total(self.view().batches),
                take_permits(start.batches, num_permits as nat, Seq::empty())
                    == take_permits(self.view().batches, n as nat, clock@),
            invariant
                self.sizes@.len() == self.clocks@.len(),
                batch_clocks_bounded(self.view().batches),
                clock@.len() <= max_clock_len(),
                self.num_available as nat + num_permits == start.available,
                self.last_acquire@ == clock_join(start.last_acquire, acquire_clock@),
                self.last_acquire@.len() <= max_clock_len(),
            ensures
                n == 0,
                self.sizes@.len() == self.clocks@.len(),
                batch_clocks_bounded(self.view().batches),
                self.num_available as nat + num_permits == start.available,
                self.last_acquire@ == clock_join(start.last_acquire, acquire_clock@),
                self.last_acquire@.len() <= max_clock_len(),
                take_permits(start.batches, num_permits as nat, Seq::empty()) == (self.view().batches, clock@),
            decreases self.sizes@.len(),
        {
            let ghost b = self.view().batches;
            let size = self.sizes[0];
            assert(b[0] == (size as nat, self.clocks@[0]@));
            assert(b[0].1.len() <= max_clock_len());
            clock.update(&self.clocks[0]);
            if n < size {
                let ghost before = n;
                self.sizes.set(0, size - n);
                n = 0;
                proof {
                    assert(self.view().batches =~= b.update(0, ((b[0].0 - before) as nat, b[0].1)));
                }
            } else {
                n = n - size;
                self.sizes.remove(0);
                self.clocks.remove(0);
                proof {
                    assert(self.view().batches =~= b.drop_first());
                }
            }
            if n == 0 {
                break;
            }
        }
        Ok(clock)
    }

    /// Releases `num_permits` permits produced at `clock`, as a new batch at the back.
    pub fn release(&mut self, num_permits: usize, clock: VectorClock)
        requires
            old(self).wf(),
            clock@.len() <= max_clock_len(),
            old(self).view().available + num_permits <= usize::MAX,
        ensures
            final(self).wf(),
            final(self).view() == release_spec(old(self).view(), num_permits as nat, clock@),
    {
        let ghost b = self.view().batches;
        let ghost c = clock@;
        self.num_available = self.num_available + num_permits;
        self.sizes.push(num_permits);
        self.clocks.push(clock);
        proof {
            assert(self.view().batches =~= b.push((num_permits as nat, c)));
            lemma_total_push(b, (num_permits as nat, c));
            assert(batch_clocks_bounded(self.view().batches)) by {
                assert forall|i: int| 0 <= i < self.view().batches.len() implies #[trigger] self.view().batches[i].1.len() <= max_clock_len() by {
                    if i < b.len() {
                        assert(self.view().batches[i] == b[i]);
                    }
                }
            }
        }
    }
}

/// A task waiting for permits.
pub struct WaiterView {
    pub id: u64,
    pub task: TaskId,
    pub permits: nat,
    pub clock: Seq<u32>,
}

/// Permits granted to a waiter: its id, its task, and the clock the task inherits from the
/// releases whose permits it takes.
pub type GrantView = (u64, TaskId, Seq<u32>);

/// Granting permits to the waiters at the front of the queue, as long as there are enough for the
/// first: the waiters left, the permits left, and the grants in queue order.
pub open spec fn unblock_front(waiters: Seq<WaiterView>, permits: PermitsView) -> (Seq<WaiterView>, PermitsView, Seq<GrantView>)
    decreases waiters.len(),
{
    if waiters.len() > 0 && waiters[0].permits <= permits.available {
        match acquire_spec(permits, waiters[0].permits, waiters[0].clock) {
            Ok((p, c)) => {
                let rest = unblock_front(waiters.drop_first(), p);
                (rest.0, rest.1, seq![(waiters[0].id, waiters[0].task, c)] + rest.2)
            },
            Err(_) => (waiters, permits, Seq::empty()),
        }
    } else {
        (waiters, permits, Seq::empty())
    }
}

/// The waiters, in queue order, that ask for no more than `available` permits.
pub open spec fn can_proceed(waiters: Seq<WaiterView>, available: nat) -> Seq<(u64, TaskId)>
    decreases waiters.len(),
{
    if waiters.len() == 0 {
        Seq::empty()
    } else {
        let rest = can_proceed(waiters.drop_last(), available);
        if waiters.last().permits <= available {
            rest.push((waiters.last().id, waiters.last().task))
        } else {
            rest
        }
    }
}

/// The tasks of the waiters, in queue order, that ask for more than `available` permits.
pub open spec fn cannot_proceed(waiters: Seq<WaiterView>, available: nat) -> Seq<TaskId>
    decreases waiters.len(),
{
    if waiters.len() == 0 {
        Seq::empty()
    } else {
        let rest = cannot_proceed(waiters.drop_last(), available);
        if waiters.last().permits > available {
            rest.push(waiters.last().task)
        } else {
            rest
        }
    }
}

/// The index of the first waiter from `from` on with id `id`.
pub open spec fn waiter_index(waiters: Seq<WaiterView>, id: u64, from: int) -> Option<int>
    decreases waiters.len() - from,
{
    if from < 0 || from >= waiters.len() {
        None
    } else if waiters[from].id == id {
        Some(from)
    } else {
        waiter_index(waiters, id, from + 1)
    }
}

/// The index of the first occurrence of `x` from `from` on.
pub open spec fn id_index(ids: Seq<u64>, x: u64, from: int) -> Option<int>
    decreases ids.len() - from,
{
    if from < 0 || from >= ids.len() {
        None
    } else if ids[from] == x {
        Some(from)
    } else {
        id_index(ids, x, from + 1)
    }
}

proof fn lemma_waiter_index(waiters: Seq<WaiterView>, id: u64, from: int)
    requires
        0 <= from,
    ensures
        waiter_index(waiters, id, from) matches Some(i) ==> from <= i < waiters.len() && waiters[i].id == id,
    decreases waiters.len() - from,
{
    if from < waiters.len() && waiters[from].id != id {
        lemma_waiter_index(waiters, id, from + 1);
    }
}

proof fn lemma_id_index(ids: Seq<u64>, x: u64, from: int)
    requires
        0 <= from,
    ensures
        id_index(ids, x, from) matches Some(i) ==> from <= i < ids.len() && ids[i] == x,
    decreases ids.len() - from,
{
    if from < ids.len() && ids[from] != x {
        lemma_id_index(ids, x, from + 1);
    }
}

/// Every waiter asks for some permits, with a clock a clock can be.
pub open spec fn waiters_wf(waiters: Seq<WaiterView>) -> bool {
    forall|i: int| 0 <= i < waiters.len() ==> #[trigger] waiters[i].permits > 0 && waiters[i].clock.len() <= max_clock_len()
}

/// What granting from the front keeps: the waiters left are the queue without the granted
/// prefix, the permits keep their invariant, and the first waiter left asks for more than there
/// are.
pub proof fn lemma_unblock_front(waiters: Seq<WaiterView>, permits: PermitsView)
    requires
        waiters_wf(waiters),
        permits.available == batches_total(permits.batches),
        batch_clocks_bounded(permits.batches),
        permits.last_acquire.len() <= max_clock_len(),
    ensures
        ({
            let (w, p, g) = unblock_front(waiters, permits);
            &&& g.len() <= waiters.len()
            &&& w == waiters.subrange(g.len() as int, waiters.len() as int)
            &&& forall|i: int| 0 <= i < g.len() ==> #[trigger] g[i].0 == waiters[i].id && g[i].1 == waiters[i].task
                && g[i].2.len() <= max_clock_len()
            &&& p.available == batches_total(p.batches)
            &&& p.available <= permits.available
            &&& batch_clocks_bounded(p.batches)
            &&& p.last_acquire.len() <= max_clock_len()
            &&& (w.len() > 0 ==> w[0].permits > p.available)
        }),
    decreases waiters.len(),
{
    if waiters.len() > 0 && waiters[0].permits <= permits.available {
        let n = waiters[0].permits;
        assert(n > 0);
        lemma_take_permits(permits.batches, n, Seq::empty());
        let p = acquire_spec(permits, n, waiters[0].clock)->Ok_0.0;
        let c = acquire_spec(permits, n, waiters[0].clock)->Ok_0.1;
        assert(clock_join(permits.last_acquire, waiters[0].clock).len() <= max_clock_len());
        assert(waiters_wf(waiters.drop_first())) by {
            assert forall|i: int| 0 <= i < waiters.drop_first().len() implies #[trigger] waiters.drop_first()[i].permits > 0
                && waiters.drop_first()[i].clock.len() <= max_clock_len() by {
                assert(waiters.drop_first()[i] == waiters[i + 1]);
            }
        }
        lemma_unblock_front(waiters.drop_first(), p);
        let rest = unblock_front(waiters.drop_first(), p);
        let g = seq![(waiters[0].id, waiters[0].task, c)] + rest.2;
        assert(rest.0 =~= waiters.subrange(g.len() as int, waiters.len() as int));
        assert forall|i: int| 0 <= i < g.len() implies #[trigger] g[i].0 == waiters[i].id && g[i].1 == waiters[i].task
            && g[i].2.len() <= max_clock_len() by {
            if i > 0 {
                assert(g[i] == rest.2[i - 1]);
                assert(waiters.drop_first()[i - 1] == waiters[i]);
            }
        }
    }
}

/// A waiter's id, task, number of permits, and clock at the time it queued.
pub struct Waiter {
    id: u64,
    task_id: TaskId,
    num_permits: usize,
    clock: VectorClock,
}

impl Waiter {
    pub closed spec fn view(&self) -> WaiterView {
        WaiterView { id: self.id, task: self.task_id, permits: self.num_permits as nat, clock: self.clock@ }
    }
}

/// Permits granted to a waiter by a release: the task is to be unblocked and woken, with its
/// clock joined with `clock`.
pub struct Grant {
    pub waiter_id: u64,
    pub task_id: TaskId,
    pub clock: VectorClock,
}

impl Grant {
    pub open spec fn view(&self) -> GrantView {
        (self.waiter_id, self.task_id, self.clock@)
    }
}

/// A waiter whose task is to be unblocked and woken.
#[derive(Clone, Copy, Debug, PartialEq, Eq, Structural)]
pub struct Wakeup {
    pub waiter_id: u64,
    pub task_id: TaskId,
}

/// What a release leads to: waiters granted permits (strictly fair), or waiters woken to race for
/// them (unfair).
pub struct ReleaseEffects {
    pub granted: Vec<Grant>,
    pub woken: Vec<Wakeup>,
}

/// The grants, as their views.
pub open spec fn grants_view(g: Seq<Grant>) -> Seq<GrantView> {
    Seq::new(g.len(), |i: int| g[i].view())
}

/// The wakeups, as pairs of waiter and task.
pub open spec fn wakeups_view(w: Seq<Wakeup>) -> Seq<(u64, TaskId)> {
    Seq::new(w.len(), |i: int| (w[i].waiter_id, w[i].task_id))
}

/// The state of a semaphore.
pub struct SemaphoreView {
    pub waiters: Seq<WaiterView>,
    pub granted: Seq<u64>,
    pub permits: PermitsView,
    pub closed: bool,
    pub fairness: Fairness,
    pub next_id: u64,
}

/// A counting semaphore from which tasks can ask for several permits at once.
pub struct BatchSemaphore {
    waiters: Vec<Waiter>,
    granted: Vec<u64>,
    permits: PermitsAvailable,
    closed: bool,
    fairness: Fairness,
    next_id: u64,
}

impl BatchSemaphore {
    /// The waiters in queue order, the waiters holding granted permits not yet taken, the
    /// permits, whether it is closed, its fairness, and the id the next waiter gets.
    pub closed spec fn view(&self) -> SemaphoreView {
        SemaphoreView {
            waiters: Seq::new(self.waiters@.len(), |i: int| self.waiters@[i].view()),
            granted: self.granted@,
            permits: self.permits.view(),
            closed: self.closed,
            fairness: self.fairness,
            next_id: self.next_id,
        }
    }

    /// The invariant: the permits are consistent, every waiter asks for some, a closed semaphore
    /// has no waiters, and under strict fairness the first waiter always asks for more permits
    /// than are available.
    pub closed spec fn wf(&self) -> bool {
        &&& self.permits.wf()
        &&& waiters_wf(self.view().waiters)
        &&& (self.closed ==> self.waiters@.len() == 0)
        &&& (self.fairness == Fairness::StrictlyFair && self.waiters@.len() > 0
            ==> self.view().waiters[0].permits > self.view().permits.available)
    }

    /// A semaphore with `num_permits` permits, released at `clock`.
    pub fn new(num_permits: usize, fairness: Fairness, clock: VectorClock) -> (r: BatchSemaphore)
        requires
            clock@.len() <= max_clock_len(),
        ensures
            r.wf(),
            r.view().waiters.len() == 0,
            r.view().granted.len() == 0,
            r.view().permits.available == num_permits,
            r.view().permits.batches == (if num_permits > 0 { seq![(num_permits as nat, clock@)] } else { Seq::empty() }),
            r.view().permits.last_acquire.len() == 0,
            !r.view().closed,
            r.view().fairness == fairness,
            r.view().next_id == 0,
    {
        BatchSemaphore {
            waiters: Vec::new(),
            granted: Vec::new(),
            permits: PermitsAvailable::new(num_permits, clock),
            closed: false,
            fairness,
            next_id: 0,
        }
    }

    /// A semaphore with `num_permits` permits that depend on no event.
    pub fn const_new(num_permits: usize, fairness: Fairness) -> (r: BatchSemaphore)
        ensures
            r.wf(),
            r.view().waiters.len() == 0,
            r.view().granted.len() == 0,
            r.view().permits.available == num_permits,
            r.view().permits.batches == (if num_permits > 0 { seq![(num_permits as nat, Seq::<u32>::empty())] } else { Seq::empty() }),
            r.view().permits.last_acquire.len() == 0,
            !r.view().closed,
            r.view().fairness == fairness,
            r.view().next_id == 0,
    {
        Self::new(num_permits, fairness, VectorClock::new())
    }

    /// The number of available permits.
    pub fn available_permits(&self) -> (r: usize)
        ensures
            r == self.view().permits.available,
    {
        self.permits.available()
    }

    /// Whether the semaphore is closed.
    pub fn is_closed(&self) -> (r: bool)
        ensures
            r == self.view().closed,
    {
        self.closed
    }

    /// The fairness of the semaphore.
    pub fn fairness(&self) -> (r: Fairness)
        ensures
            r == self.view().fairness,
    {
        self.fairness
    }
}

/// The waiter ids of the grants.
pub open spec fn grant_ids(g: Seq<GrantView>) -> Seq<u64> {
    Seq::new(g.len(), |i: int| g[i].0)
}

/// Acquiring `n` permits from the semaphore for a task whose clock is `clock`: a closed semaphore
/// refuses, and while tasks wait a strictly fair one leaves nothing to newcomers.
pub open spec fn acquire_permits_spec(s: SemaphoreView, n: nat, clock: Seq<u32>) -> Result<(PermitsView, Seq<u32>), TryAcquireError> {
    if s.closed {
        Err(TryAcquireError::Closed)
    } else if s.waiters.len() == 0 || s.fairness == Fairness::Unfair {
        acquire_spec(s.permits, n, clock)
    } else {
        Err(TryAcquireError::NoPermits)
    }
}

/// The tasks to block again once a task of an unfair semaphore took permits: those waiting for
/// more than are left.
pub open spec fn reblock_spec(s: SemaphoreView) -> Seq<TaskId> {
    if s.fairness == Fairness::Unfair {
        cannot_proceed(s.waiters, s.permits.available)
    } else {
        Seq::empty()
    }
}

impl BatchSemaphore {
    /// Grants permits to the waiters at the front of the queue as long as there are enough for
    /// the first of them.
    fn unblock_waiters_from_front(&mut self) -> (r: Vec<Grant>)
        requires
            old(self).permits.wf(),
            waiters_wf(old(self).view().waiters),
        ensures
            ({
                let (w, p, g) = unblock_front(old(self).view().waiters, old(self).view().permits);
                &&& final(self).view().waiters == w
                &&& final(self).view().permits == p
                &&& grants_view(r@) == g
                &&& final(self).view().granted == old(self).view().granted + grant_ids(g)
            }),
            final(self).permits.wf(),
            waiters_wf(final(self).view().waiters),
            final(self).view().closed == old(self).view().closed,
            final(self).view().fairness == old(self).view().fairness,
            final(self).view().next_id == old(self).view().next_id,
            final(self).view().waiters.len() > 0 ==> final(self).view().waiters[0].permits > final(self).view().permits.available,
            final(self).view().waiters.len() <= old(self).view().waiters.len(),
    {
        let ghost w0 = self.view().waiters;
        let ghost p0 = self.view().permits;
        let ghost g0 = self.view().granted;
        let ghost total = unblock_front(w0, p0);
        proof {
            lemma_unblock_front(w0, p0);
        }
        let mut grants: Vec<Grant> = Vec::new();
        loop
            invariant
                self.permits.wf(),
                waiters_wf(self.view().waiters),
                self.view().closed == old(self).view().closed,
                self.view().fairness == old(self).view().fairness,
                self.view().next_id == old(self).view().next_id,
                w0 == old(self).view().waiters,
                p0 == old(self).view().permits,
                g0 == old(self).view().granted,
                total == unblock_front(w0, p0),
                unblock_front(self.view().waiters, self.view().permits).0 == total.0,
                unblock_front(self.view().waiters, self.view().permits).1 == total.1,
                grants_view(grants@) + unblock_front(self.view().waiters, self.view().permits).2 == total.2,
                self.view().granted == g0 + grant_ids(grants_view(grants@)),
                self.view().waiters.len() <= w0.len(),
            ensures
                grants_view(grants@) == total.2,
            decreases self.waiters@.len(),
        {
            let ghost w = self.view().waiters;
            let ghost p = self.view().permits;
            if self.waiters.len() == 0 {
                proof {
                    assert(grants_view(grants@) + Seq::<GrantView>::empty() =~= grants_view(grants@));
                }
                break;
            }
            let need = self.waiters[0].num_permits;
            if need > self.permits.available() {
                proof {
                    assert(w[0] == self.waiters@[0].view());
                    assert(grants_view(grants@) + Seq::<GrantView>::empty() =~= grants_view(grants@));
                }
                break;
            }
            proof {
                assert(w[0] == self.waiters@[0].view());
                assert(w[0].permits > 0);
                lemma_take_permits(p.batches, w[0].permits, Seq::empty());
            }
            let waiter = self.waiters.remove(0);
            let clock = match self.permits.acquire(need, &waiter.clock) {
                Ok(c) => c,
                Err(_) => {
                    proof {
                        assert(false);
                    }
                    VectorClock::new()
                },
            };
            let ghost gv = (waiter.id, waiter.task_id, clock@);
            let ghost before = grants_view(grants@);
            grants.push(Grant { waiter_id: waiter.id, task_id: waiter.task_id, clock });
            self.granted.push(waiter.id);
            proof {
                assert(self.view().waiters =~= w.drop_first());
                assert(waiters_wf(self.view().waiters)) by {
                    assert forall|i: int| 0 <= i < self.view().waiters.len() implies #[trigger] self.view().waiters[i].permits > 0
                        && self.view().waiters[i].clock.len() <= max_clock_len() by {
                        assert(self.view().waiters[i] == w[i + 1]);
                    }
                }
                let rest = unblock_front(w.drop_first(), self.view().permits);
                assert(unblock_front(w, p).2 == seq![gv] + rest.2);
                assert(grants_view(grants@) =~= before.push(gv));
                assert(grants_view(grants@) + rest.2 =~= before + (seq![gv] + rest.2));
                assert(grant_ids(grants_view(grants@)) =~= grant_ids(before).push(waiter.id));
                assert(self.view().granted =~= g0 + grant_ids(grants_view(grants@)));
            }
        }
        grants
    }

    /// Closes the semaphore: no more permits are issued, and every waiter leaves the queue, its
    /// task to be unblocked and woken. Closing twice does nothing.
    pub fn close(&mut self) -> (r: Vec<Wakeup>)
        requires
            old(self).wf(),
        ensures
            final(self).wf(),
            final(self).view().closed,
            old(self).view().closed ==> r@.len() == 0 && final(self).view() == old(self).view(),
            !old(self).view().closed ==> wakeups_view(r@) == Seq::new(old(self).view().waiters.len(),
                |i: int| (old(self).view().waiters[i].id, old(self).view().waiters[i].task)),
            final(self).view().waiters.len() == 0,
            final(self).view().granted == old(self).view().granted,
            final(self).view().permits == old(self).view().permits,
            final(self).view().fairness == old(self).view().fairness,
            final(self).view().next_id == old(self).view().next_id,
    {
        if self.closed {
            return Vec::new();
        }
        self.closed = true;
        let ghost w0 = self.view().waiters;
        let mut woken: Vec<Wakeup> = Vec::new();
        let mut i: usize = 0;
        while i < self.waiters.len()
            invariant
                i <= self.waiters@.len(),
                self.view().waiters == w0,
                wakeups_view(woken@) == Seq::new(i as nat, |k: int| (w0[k].id, w0[k].task)),
            decreases self.waiters@.len() - i,
        {
            let ghost before = wakeups_view(woken@);
            woken.push(Wakeup { waiter_id: self.waiters[i].id, task_id: self.waiters[i].task_id });
            proof {
                assert(self.view().waiters[i as int] == self.waiters@[i as int].view());
                assert(wakeups_view(woken@) =~= before.push((w0[i as int].id, w0[i as int].task)));
                assert(wakeups_view(woken@) =~= Seq::new((i + 1) as nat, |k: int| (w0[k].id, w0[k].task)));
            }
            i = i + 1;
        }
        self.waiters = Vec::new();
        proof {
            assert(self.view().waiters =~= Seq::<WaiterView>::empty());
        }
        woken
    }

    /// Acquires `num_permits` permits for a task whose clock is `clock`, returning the clock the
    /// task inherits from the releases whose permits it took.
    fn acquire_permits(&mut self, num_permits: usize, clock: &VectorClock) -> (r: Result<VectorClock, TryAcquireError>)
        requires
            old(self).wf(),
            clock@.len() <= max_clock_len(),
        ensures
            final(self).wf(),
            match acquire_permits_spec(old(self).view(), num_permits as nat, clock@) {
                Ok((p, c)) => r matches Ok(rc) && rc@ == c && final(self).view() == (SemaphoreView { permits: p, ..old(self).view() }),
                Err(e) => r == Err::<VectorClock, TryAcquireError>(e) && final(self).view() == old(self).view(),
            },
    {
        if self.closed {
            Err(TryAcquireError::Closed)
        } else if self.waiters.len() == 0 || self.fairness == Fairness::Unfair {
            let r = self.permits.acquire(num_permits, clock);
            proof {
                assert(self.view().waiters =~= old(self).view().waiters);
            }
            r
        } else {
            Err(TryAcquireError::NoPermits)
        }
    }

    /// The tasks to block again after a task of an unfair semaphore took permits: those waiting
    /// for more permits than are left.
    pub fn reblock_if_unfair(&self) -> (r: Vec<TaskId>)
        ensures
            r@ == reblock_spec(self.view()),
    {
        let mut tasks: Vec<TaskId> = Vec::new();
        if self.fairness == Fairness::Unfair {
            let available = self.permits.available();
            let ghost w = self.view().waiters;
            let mut i: usize = 0;
            while i < self.waiters.len()
                invariant
                    i <= self.waiters@.len(),
                    w == self.view().waiters,
                    available == self.view().permits.available,
                    tasks@ == cannot_proceed(w.take(i as int), available as nat),
                decreases self.waiters@.len() - i,
            {
                proof {
                    assert(w.take(i + 1).drop_last() =~= w.take(i as int));
                    assert(w.take(i + 1).last() == w[i as int]);
                    assert(w[i as int] == self.waiters@[i as int].view());
                }
                if self.waiters[i].num_permits > available {
                    tasks.push(self.waiters[i].task_id);
                }
                i = i + 1;
            }
            proof {
                assert(w.take(i as int) =~= w);
            }
        }
        tasks
    }
}

/// What `try_acquire` returns: the result, the clock the calling task's clock is to be joined
/// with, and the tasks to block again.
pub struct TryAcquireOutcome {
    pub result: Result<(), TryAcquireError>,
    pub clock: VectorClock,
    pub reblock: Vec<TaskId>,
}

impl BatchSemaphore {
    /// Tries to acquire `num_permits` permits at once, for a task whose clock is `clock`. On
    /// success the task inherits the clocks of the releases whose permits it took, and under
    /// unfairness the waiters that can no longer succeed are to be blocked again; on failure it
    /// inherits, conservatively, the clock of the last successful acquire.
    pub fn try_acquire(&mut self, num_permits: usize, clock: &VectorClock) -> (r: TryAcquireOutcome)
        requires
            old(self).wf(),
            clock@.len() <= max_clock_len(),
        ensures
            final(self).wf(),
            match acquire_permits_spec(old(self).view(), num_permits as nat, clock@) {
                Ok((p, c)) => r.result is Ok && r.clock@ == c
                    && final(self).view() == (SemaphoreView { permits: p, ..old(self).view() })
                    && r.reblock@ == reblock_spec(final(self).view()),
                Err(e) => r.result == Err::<(), TryAcquireError>(e) && r.clock@ == old(self).view().permits.last_acquire
                    && final(self).view() == old(self).view() && r.reblock@.len() == 0,
            },
    {
        match self.acquire_permits(num_permits, clock) {
            Ok(c) => {
                let reblock = self.reblock_if_unfair();
                TryAcquireOutcome { result: Ok(()), clock: c, reblock }
            },
            Err(e) => {
                let last = self.permits.last_acquire.clone();
                TryAcquireOutcome { result: Err(e), clock: last, reblock: Vec::new() }
            },
        }
    }

    /// The waiters that ask for no more permits than are available, in queue order.
    fn waiters_that_can_proceed(&self) -> (r: Vec<Wakeup>)
        ensures
            wakeups_view(r@) == can_proceed(self.view().waiters, self.view().permits.available),
    {
        let mut woken: Vec<Wakeup> = Vec::new();
        let available = self.permits.available();
        let ghost w = self.view().waiters;
        let mut i: usize = 0;
        while i < self.waiters.len()
            invariant
                i <= self.waiters@.len(),
                w == self.view().waiters,
                available == self.view().permits.available,
                wakeups_view(woken@) == can_proceed(w.take(i as int), available as nat),
            decreases self.waiters@.len() - i,
        {
            proof {
                assert(w.take(i + 1).drop_last() =~= w.take(i as int));
                assert(w.take(i + 1).last() == w[i as int]);
                assert(w[i as int] == self.waiters@[i as int].view());
            }
            let ghost before = wakeups_view(woken@);
            if self.waiters[i].num_permits <= available {
                woken.push(Wakeup { waiter_id: self.waiters[i].id, task_id: self.waiters[i].task_id });
                proof {
                    assert(wakeups_view(woken@) =~= before.push((w[i as int].id, w[i as int].task)));
                }
            }
            i = i + 1;
        }
        proof {
            assert(w.take(i as int) =~= w);
        }
        woken
    }

    /// Releases `num_permits` permits, produced at `clock`. A strictly fair semaphore grants them
    /// to the waiters at the front of the queue as long as there are enough for the first; an
    /// unfair one wakes every waiter that asks for no more than are now available, to race for
    /// them. Releasing nothing does nothing.
    pub fn release(&mut self, num_permits: usize, clock: VectorClock) -> (r: ReleaseEffects)
        requires
            old(self).wf(),
            clock@.len() <= max_clock_len(),
            old(self).view().permits.available + num_permits <= usize::MAX,
        ensures
            final(self).wf(),
            num_permits == 0 ==> final(self).view() == old(self).view() && r.granted@.len() == 0 && r.woken@.len() == 0,
            num_permits > 0 ==> ({
                let p1 = release_spec(old(self).view().permits, num_permits as nat, clock@);
                match old(self).view().fairness {
                    Fairness::StrictlyFair => {
                        let (w, p, g) = unblock_front(old(self).view().waiters, p1);
                        &&& final(self).view() == (SemaphoreView {
                            waiters: w,
                            permits: p,
                            granted: old(self).view().granted + grant_ids(g),
                            ..old(self).view()
                        })
                        &&& grants_view(r.granted@) == g
                        &&& r.woken@.len() == 0
                    },
                    Fairness::Unfair => {
                        &&& final(self).view() == (SemaphoreView { permits: p1, ..old(self).view() })
                        &&& wakeups_view(r.woken@) == can_proceed(old(self).view().waiters, p1.available)
                        &&& r.granted@.len() == 0
                    },
                }
            }),
    {
        if num_permits == 0 {
            return ReleaseEffects { granted: Vec::new(), woken: Vec::new() };
        }
        self.permits.release(num_permits, clock);
        proof {
            assert(self.view().waiters =~= old(self).view().waiters);
        }
        match self.fairness {
            Fairness::StrictlyFair => {
                let granted = self.unblock_waiters_from_front();
                ReleaseEffects { granted, woken: Vec::new() }
            },
            Fairness::Unfair => {
                let woken = self.waiters_that_can_proceed();
                ReleaseEffects { granted: Vec::new(), woken }
            },
        }
    }

    /// Releases `num_permits` permits while the execution is stopping: the permits become
    /// available to later acquires, depending on no event, but the waiters are dropped without
    /// being woken and the semaphore is closed. Releasing nothing does nothing.
    pub fn release_while_stopping(&mut self, num_permits: usize)
        requires
            old(self).wf(),
            old(self).view().permits.available + num_permits <= usize::MAX,
        ensures
            final(self).wf(),
            num_permits == 0 ==> final(self).view() == old(self).view(),
            num_permits > 0 ==> final(self).view() == (SemaphoreView {
                waiters: Seq::empty(),
                permits: release_spec(old(self).view().permits, num_permits as nat, Seq::empty()),
                closed: true,
                ..old(self).view()
            }),
    {
        if num_permits == 0 {
            return;
        }
        self.permits.release(num_permits, VectorClock::new());
        self.waiters = Vec::new();
        self.closed = true;
        proof {
            assert(self.view().waiters =~= Seq::<WaiterView>::empty());
        }
    }

    /// The position of the waiter with id `id` in the queue.
    fn position(&self, id: u64) -> (r: Option<usize>)
        ensures
            match waiter_index(self.view().waiters, id, 0) {
                Some(i) => r == Some(i as usize),
                None => r is None,
            },
    {
        let ghost w = self.view().waiters;
        let mut i: usize = 0;
        while i < self.waiters.len()
            invariant
                i <= self.waiters@.len(),
                w == self.view().waiters,
                waiter_index(w, id, 0) == waiter_index(w, id, i as int),
            decreases self.waiters@.len() - i,
        {
            proof {
                assert(w[i as int] == self.waiters@[i as int].view());
            }
            if self.waiters[i].id == id {
                return Some(i);
            }
            i = i + 1;
        }
        None
    }

    /// Whether the waiter with id `id` holds permits granted by a release and not yet taken.
    pub fn has_grant(&self, id: u64) -> (r: bool)
        ensures
            r == (id_index(self.view().granted, id, 0) is Some),
    {
        let mut i: usize = 0;
        while i < self.granted.len()
            invariant
                i <= self.granted@.len(),
                id_index(self.granted@, id, 0) == id_index(self.granted@, id, i as int),
            decreases self.granted@.len() - i,
        {
            if self.granted[i] == id {
                return true;
            }
            i = i + 1;
        }
        false
    }

    /// Takes the permits granted to the waiter with id `id`, if it holds any.
    fn take_grant(&mut self, id: u64) -> (r: bool)
        ensures
            match id_index(old(self).view().granted, id, 0) {
                Some(k) => r && final(self).view() == (SemaphoreView { granted: old(self).view().granted.remove(k), ..old(self).view() }),
                None => !r && final(self).view() == old(self).view(),
            },
            old(self).wf() ==> final(self).wf(),
    {
        let mut i: usize = 0;
        while i < self.granted.len()
            invariant
                i <= self.granted@.len(),
                self.granted@ == old(self).granted@,
                *self == *old(self),
                id_index(self.granted@, id, 0) == id_index(self.granted@, id, i as int),
            decreases self.granted@.len() - i,
        {
            if self.granted[i] == id {
                self.granted.remove(i);
                proof {
                    assert(self.view().waiters =~= old(self).view().waiters);
                }
                return true;
            }
            i = i + 1;
        }
        false
    }

    /// Removes the waiter with id `id` from the queue, as when its acquire is abandoned. If a
    /// strictly fair semaphore loses its first waiter, the waiters behind it may now be granted
    /// permits.
    #[verifier::spinoff_prover]
    pub fn remove_waiter(&mut self, id: u64) -> (r: Vec<Grant>)
        requires
            old(self).wf(),
            !old(self).view().closed,
            waiter_index(old(self).view().waiters, id, 0) is Some,
        ensures
            final(self).wf(),
            ({
                let i = waiter_index(old(self).view().waiters, id, 0)->0;
                let w1 = old(self).view().waiters.remove(i);
                if old(self).view().fairness == Fairness::StrictlyFair && i == 0 {
                    let (w, p, g) = unblock_front(w1, old(self).view().permits);
                    &&& final(self).view() == (SemaphoreView {
                        waiters: w,
                        permits: p,
                        granted: old(self).view().granted + grant_ids(g),
                        ..old(self).view()
                    })
                    &&& grants_view(r@) == g
                } else {
                    &&& final(self).view() == (SemaphoreView { waiters: w1, ..old(self).view() })
                    &&& r@.len() == 0
                }
            }),
    {
        let ghost w0 = self.view().waiters;
        proof {
            lemma_waiter_index(w0, id, 0);
        }
        let index = match self.position(id) {
            Some(i) => i,
            None => {
                proof {
                    assert(false);
                }
                0
            },
        };
        self.waiters.remove(index);
        proof {
            assert(self.view().waiters =~= w0.remove(index as int));
            assert(waiters_wf(self.view().waiters)) by {
                assert(waiters_wf(w0));
                assert forall|k: int| 0 <= k < self.view().waiters.len() implies #[trigger] self.view().waiters[k].permits > 0
                    && self.view().waiters[k].clock.len() <= max_clock_len() by {
                    let k0 = if k < index { k } else { k + 1 };
                    assert(self.view().waiters[k] == w0[k0]);
                    assert(w0[k0].permits > 0 && w0[k0].clock.len() <= max_clock_len());
                }
            }
            if index > 0 {
                assert(self.view().waiters[0] == w0[0]);
            }
        }
        proof {
            assert(self.view().permits == old(self).view().permits);
            assert(self.view().granted == old(self).view().granted);
            assert(index as int == waiter_index(old(self).view().waiters, id, 0)->0);
        }
        if self.fairness == Fairness::StrictlyFair && index == 0 {
            self.unblock_waiters_from_front()
        } else {
            proof {
                assert(self.view() =~= (SemaphoreView { waiters: w0.remove(index as int), ..old(self).view() }));
            }
            Vec::new()
        }
    }
}

/// The state of an acquire.
pub struct AcquireView {
    pub id: u64,
    pub task: TaskId,
    pub permits: nat,
    pub clock: Seq<u32>,
    pub completed: bool,
    pub never_polled: bool,
}

/// The request of an acquire as a waiter in the queue.
pub open spec fn as_waiter(a: AcquireView) -> WaiterView {
    WaiterView { id: a.id, task: a.task, permits: a.permits, clock: a.clock }
}

/// What polling an acquire gives.
pub enum AcquirePoll {
    /// The permits were taken now; the polling task's clock is to be joined with `clock`, and the
    /// tasks in `reblock` are to be blocked again.
    Acquired { clock: VectorClock, reblock: Vec<TaskId> },
    /// The permits had been granted by a release.
    Granted,
    /// The semaphore is closed.
    Closed,
    /// Not yet: the task waits to be woken.
    Pending,
}

impl AcquirePoll {
    /// The outcome as a future's output: nothing while pending, else the acquire's result.
    pub fn output(&self) -> (r: Option<Result<(), AcquireError>>)
        ensures
            match self {
                AcquirePoll::Acquired { .. } => r == Some(Ok::<(), AcquireError>(())),
                AcquirePoll::Granted => r == Some(Ok::<(), AcquireError>(())),
                AcquirePoll::Closed => r matches Some(Err(e)) && e.is_closed(),
                AcquirePoll::Pending => r is None,
            },
    {
        match self {
            AcquirePoll::Acquired { .. } => Some(Ok(())),
            AcquirePoll::Granted => Some(Ok(())),
            AcquirePoll::Closed => Some(Err(AcquireError::closed())),
            AcquirePoll::Pending => None,
        }
    }
}

/// An acquire of several permits at once: the future a task awaits to obtain them.
pub struct Acquire {
    waiter_id: u64,
    task_id: TaskId,
    num_permits: usize,
    clock: VectorClock,
    completed: bool,
    never_polled: bool,
}

impl Acquire {
    pub closed spec fn view(&self) -> AcquireView {
        AcquireView {
            id: self.waiter_id,
            task: self.task_id,
            permits: self.num_permits as nat,
            clock: self.clock@,
            completed: self.completed,
            never_polled: self.never_polled,
        }
    }

    /// An acquire of `num_permits` permits from `semaphore` by task `task_id`, whose clock is
    /// `clock`; it gets the semaphore's next waiter id.
    pub fn new(semaphore: &mut BatchSemaphore, num_permits: usize, task_id: TaskId, clock: VectorClock) -> (r: Acquire)
        requires
            old(semaphore).view().next_id < u64::MAX,
        ensures
            r.view() == (AcquireView {
                id: old(semaphore).view().next_id,
                task: task_id,
                permits: num_permits as nat,
                clock: clock@,
                completed: false,
                never_polled: true,
            }),
            final(semaphore).view() == (SemaphoreView { next_id: (old(semaphore).view().next_id + 1) as u64, ..old(semaphore).view() }),
            old(semaphore).wf() ==> final(semaphore).wf(),
    {
        let id = semaphore.next_id;
        semaphore.next_id = id + 1;
        proof {
            assert(semaphore.view().waiters =~= old(semaphore).view().waiters);
        }
        Acquire { waiter_id: id, task_id, num_permits, clock, completed: false, never_polled: true }
    }

    /// The waiter id of the acquire.
    pub fn id(&self) -> (r: u64)
        ensures
            r == self.view().id,
    {
        self.waiter_id
    }

    /// Whether the first poll is to be preceded by a switch to another task. It is when the
    /// acquire will succeed, so that the event that made it possible becomes visible first, and
    /// when blocking does not commute with other operations, as for a strictly fair semaphore,
    /// whose queue is ordered.
    pub fn needs_switch(&self, semaphore: &BatchSemaphore) -> (r: bool)
        ensures
            r == (self.view().never_polled && (
                id_index(semaphore.view().granted, self.view().id, 0) is Some
                || semaphore.view().closed
                || semaphore.view().permits.available >= self.view().permits
                || semaphore.view().fairness == Fairness::StrictlyFair)),
    {
        let will_succeed = semaphore.has_grant(self.waiter_id) || semaphore.is_closed()
            || semaphore.available_permits() >= self.num_permits;
        self.never_polled && (will_succeed || semaphore.fairness == Fairness::StrictlyFair)
    }

    /// Polls the acquire, for a polling task whose clock is `clock`. It completes with permits
    /// granted earlier, or with an error once the semaphore is closed; otherwise it tries to take
    /// the permits, unless it waits in the queue of a strictly fair semaphore, which grants them
    /// itself. A first failed try puts it in the queue.
    pub fn poll(&mut self, semaphore: &mut BatchSemaphore, clock: &VectorClock) -> (r: AcquirePoll)
        requires
            old(semaphore).wf(),
            !old(self).view().completed,
            old(self).view().permits > 0,
            old(self).view().clock.len() <= max_clock_len(),
            clock@.len() <= max_clock_len(),
        ensures
            final(semaphore).wf(),
            final(self).view() == (AcquireView {
                completed: !(r is Pending),
                never_polled: false,
                ..old(self).view()
            }),
            ({
                let s = old(semaphore).view();
                let a = old(self).view();
                match id_index(s.granted, a.id, 0) {
                    Some(k) => r is Granted && final(semaphore).view() == (SemaphoreView { granted: s.granted.remove(k), ..s }),
                    None => if s.closed {
                        r is Closed && final(semaphore).view() == s
                    } else {
                        let queued = waiter_index(s.waiters, a.id, 0);
                        if queued is Some && s.fairness == Fairness::StrictlyFair {
                            r is Pending && final(semaphore).view() == s
                        } else {
                            match acquire_permits_spec(s, a.permits, clock@) {
                                Ok((p, c)) => {
                                    let s2 = match queued {
                                        Some(i) => SemaphoreView { waiters: s.waiters.remove(i), permits: p, ..s },
                                        None => SemaphoreView { permits: p, ..s },
                                    };
                                    r matches AcquirePoll::Acquired { clock: rc, reblock }
                                        && rc@ == c
                                        && final(semaphore).view() == s2
                                        && reblock@ == reblock_spec(s2)
                                },
                                Err(_) => r is Pending && final(semaphore).view() == (match queued {
                                    Some(_) => s,
                                    None => SemaphoreView { waiters: s.waiters.push(as_waiter(a)), ..s },
                                }),
                            }
                        }
                    },
                }
            }),
    {
        self.never_polled = false;
        if semaphore.take_grant(self.waiter_id) {
            self.completed = true;
            return AcquirePoll::Granted;
        }
        if semaphore.is_closed() {
            self.completed = true;
            return AcquirePoll::Closed;
        }
        let queued = semaphore.position(self.waiter_id);
        let fairness = semaphore.fairness;
        let try_to_acquire = match (fairness, queued.is_some()) {
            (Fairness::StrictlyFair, true) => false,
            _ => true,
        };
        if !try_to_acquire {
            return AcquirePoll::Pending;
        }
        match semaphore.acquire_permits(self.num_permits, clock) {
            Ok(c) => {
                match queued {
                    Some(_) => {
                        proof {
                            lemma_waiter_index(semaphore.view().waiters, self.waiter_id, 0);
                        }
                        semaphore.remove_waiter(self.waiter_id);
                    },
                    None => {},
                }
                self.completed = true;
                let reblock = semaphore.reblock_if_unfair();
                AcquirePoll::Acquired { clock: c, reblock }
            },
            Err(_) => {
                match queued {
                    Some(_) => {},
                    None => {
                        let waiter = Waiter {
                            id: self.waiter_id,
                            task_id: self.task_id,
                            num_permits: self.num_permits,
                            clock: self.clock.clone(),
                        };
                        let ghost before = semaphore.view().waiters;
                        semaphore.waiters.push(waiter);
                        proof {
                            assert(semaphore.view().waiters =~= before.push(as_waiter(old(self).view())));
                            assert(waiters_wf(semaphore.view().waiters)) by {
                                assert forall|k: int| 0 <= k < semaphore.view().waiters.len() implies #[trigger] semaphore.view().waiters[k].permits > 0
                                    && semaphore.view().waiters[k].clock.len() <= max_clock_len() by {
                                    if k < before.len() {
                                        assert(semaphore.view().waiters[k] == before[k]);
                                    }
                                }
                            }
                            if before.len() > 0 {
                                assert(semaphore.view().waiters[0] == before[0]);
                            }
                        }
                    },
                }
                AcquirePoll::Pending
            },
        }
    }

    /// Abandons the acquire, `clock` being the clock of the abandoning task for a release: a
    /// queued acquire leaves the queue, and permits granted to it but never taken are released
    /// again.
    pub fn cancel(&self, semaphore: &mut BatchSemaphore, clock: VectorClock) -> (r: ReleaseEffects)
        requires
            old(semaphore).wf(),
            clock@.len() <= max_clock_len(),
            old(semaphore).view().permits.available + self.view().permits <= usize::MAX,
        ensures
            final(semaphore).wf(),
            ({
                let s = old(semaphore).view();
                let a = self.view();
                match waiter_index(s.waiters, a.id, 0) {
                    Some(i) => {
                        let w1 = s.waiters.remove(i);
                        if s.fairness == Fairness::StrictlyFair && i == 0 {
                            let (w, p, g) = unblock_front(w1, s.permits);
                            &&& final(semaphore).view() == (SemaphoreView { waiters: w, permits: p, granted: s.granted + grant_ids(g), ..s })
                            &&& grants_view(r.granted@) == g
                            &&& r.woken@.len() == 0
                        } else {
                            &&& final(semaphore).view() == (SemaphoreView { waiters: w1, ..s })
                            &&& r.granted@.len() == 0
                            &&& r.woken@.len() == 0
                        }
                    },
                    None => match id_index(s.granted, a.id, 0) {
                        Some(k) if !a.completed => {
                            let s1 = SemaphoreView { granted: s.granted.remove(k), ..s };
                            let p1 = release_spec(s.permits, a.permits, clock@);
                            if a.permits == 0 {
                                &&& final(semaphore).view() == s1
                                &&& r.granted@.len() == 0
                                &&& r.woken@.len() == 0
                            } else {
                                match s.fairness {
                                    Fairness::StrictlyFair => {
                                        let (w, p, g) = unblock_front(s.waiters, p1);
                                        &&& final(semaphore).view() == (SemaphoreView { waiters: w, permits: p, granted: s1.granted + grant_ids(g), ..s })
                                        &&& grants_view(r.granted@) == g
                                        &&& r.woken@.len() == 0
                                    },
                                    Fairness::Unfair => {
                                        &&& final(semaphore).view() == (SemaphoreView { permits: p1, ..s1 })
                                        &&& wakeups_view(r.woken@) == can_proceed(s.waiters, p1.available)
                                        &&& r.granted@.len() == 0
                                    },
                                }
                            }
                        },
                        _ => final(semaphore).view() == s && r.granted@.len() == 0 && r.woken@.len() == 0,
                    },
                }
            }),
    {
        proof {
            lemma_waiter_index(semaphore.view().waiters, self.waiter_id, 0);
        }
        match semaphore.position(self.waiter_id) {
            Some(_) => {
                let granted = semaphore.remove_waiter(self.waiter_id);
                ReleaseEffects { granted, woken: Vec::new() }
            },
            None => {
                if !self.completed && semaphore.has_grant(self.waiter_id) {
                    semaphore.take_grant(self.waiter_id);
                    semaphore.release(self.num_permits, clock)
                } else {
                    ReleaseEffects { granted: Vec::new(), woken: Vec::new() }
                }
            },
        }
    }
}

/// What every semaphore keeps between operations: the available permits are the sum of the
/// batches, a closed semaphore has no waiters, every waiter asks for some permits, and under
/// strict fairness the first waiter asks for more permits than are available, so that no waiter
/// is ever left waiting for permits it could have.
pub proof fn lemma_semaphore_invariants(s: &BatchSemaphore)
    requires
        s.wf(),
    ensures
        s.view().permits.available == batches_total(s.view().permits.batches),
        s.view().closed ==> s.view().waiters.len() == 0,
        forall|i: int| 0 <= i < s.view().waiters.len() ==> #[trigger] s.view().waiters[i].permits > 0,
        s.view().fairness == Fairness::StrictlyFair && s.view().waiters.len() > 0
            ==> s.view().waiters[0].permits > s.view().permits.available,
{
    assert forall|i: int| 0 <= i < s.view().waiters.len() implies #[trigger] s.view().waiters[i].permits > 0 by {
        assert(waiters_wf(s.view().waiters));
    }
}

/// Permits that are acquired and then released again leave as many available as before.
pub proof fn lemma_acquire_then_release(p: PermitsView, n: nat, acquire_clock: Seq<u32>, release_clock: Seq<u32>)
    requires
        acquire_spec(p, n, acquire_clock) is Ok,
    ensures
        release_spec(acquire_spec(p, n, acquire_clock)->Ok_0.0, n, release_clock).available == p.available,
{
}

/// The waiters that a task of an unfair semaphore, on taking permits, blocks again are exactly
/// those that ask for more permits than are left: every such waiter's task is in the list, and
/// every task in the list is that of a waiter asking for more than are left. A waiter that asks
/// for no more than are left is not blocked again on its own account. A fair semaphore blocks
/// nobody again.
pub proof fn lemma_reblock_exactly_the_waiters_wanting_more(s: SemaphoreView)
    ensures
        s.fairness == Fairness::Unfair ==> forall|i: int| 0 <= i < s.waiters.len() && s.waiters[i].permits > s.permits.available
            ==> #[trigger] reblock_spec(s).contains(s.waiters[i].task),
        s.fairness == Fairness::Unfair ==> forall|t: TaskId| #[trigger] reblock_spec(s).contains(t)
            ==> exists|i: int| 0 <= i < s.waiters.len() && s.waiters[i].task == t && s.waiters[i].permits > s.permits.available,
        s.fairness != Fairness::Unfair ==> reblock_spec(s).len() == 0,
{
    lemma_cannot_proceed_members(s.waiters, s.permits.available);
}

proof fn lemma_cannot_proceed_members(waiters: Seq<WaiterView>, available: nat)
    ensures
        forall|i: int| 0 <= i < waiters.len() && waiters[i].permits > available
            ==> #[trigger] cannot_proceed(waiters, available).contains(waiters[i].task),
        forall|t: TaskId| #[trigger] cannot_proceed(waiters, available).contains(t)
            ==> exists|i: int| 0 <= i < waiters.len() && waiters[i].task == t && waiters[i].permits > available,
    decreases waiters.len(),
{
    if waiters.len() > 0 {
        let init = waiters.drop_last();
        lemma_cannot_proceed_members(init, available);
        let rest = cannot_proceed(init, available);
        let w = waiters.last();
        assert forall|i: int| 0 <= i < waiters.len() && waiters[i].permits > available
            implies #[trigger] cannot_proceed(waiters, available).contains(waiters[i].task) by {
            if i < waiters.len() - 1 {
                assert(init[i] == waiters[i]);
                assert(rest.contains(init[i].task));
                if w.permits > available {
                    let k = choose|k: int| 0 <= k < rest.len() && rest[k] == init[i].task;
                    assert(rest.push(w.task)[k] == init[i].task);
                }
            } else {
                assert(cannot_proceed(waiters, available) == rest.push(w.task));
                assert(rest.push(w.task)[rest.len() as int] == w.task);
            }
        }
        assert forall|t: TaskId| #[trigger] cannot_proceed(waiters, available).contains(t)
            implies exists|i: int| 0 <= i < waiters.len() && waiters[i].task == t && waiters[i].permits > available by {
            let c = cannot_proceed(waiters, available);
            let k = choose|k: int| 0 <= k < c.len() && c[k] == t;
            if w.permits > available && k == rest.len() {
                assert(waiters[waiters.len() - 1] == w);
            } else {
                assert(c[k] == rest[k]);
                assert(rest.contains(t));
                let i = choose|i: int| 0 <= i < init.len() && init[i].task == t && init[i].permits > available;
                assert(waiters[i] == init[i]);
            }
        }
    }
}

} // verus!
