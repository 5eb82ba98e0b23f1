//! An incrementally maintained view of which tasks a scheduling decision needs to consider: the
//! tasks that may be picked (runnable ones and blocked ones that allow spurious wakeups) and the
//! tallies of runnable and unfinished tasks, attached and detached. Every fact here is a function
//! of the `(state, detached)` pair of each live task; the laws at the end of this module show that
//! reacting to each transition keeps exactly that function.
use vstd::prelude::*;
use crate::task::{TaskId, TaskState};

verus! {

/// Bit `b` of word `w`.
pub open spec fn word_bit(w: u64, b: u64) -> bool {
    (w >> b) & 1 == 1
}

proof fn lemma_bit_set(w: u64, b: u64, j: u64)
    requires
        b < 64,
        j < 64,
    ensures
        word_bit(w | (1u64 << b), j) == (j == b || word_bit(w, j)),
{
    assert(((w | (1u64 << b)) >> j) & 1 == 1 <==> (j == b || (w >> j) & 1 == 1)) by (bit_vector)
        requires
            b < 64,
            j < 64,
    ;
}

proof fn lemma_bit_clear(w: u64, b: u64, j: u64)
    requires
        b < 64,
        j < 64,
    ensures
        word_bit(w & !(1u64 << b), j) == (j != b && word_bit(w, j)),
{
    assert(((w & !(1u64 << b)) >> j) & 1 == 1 <==> (j != b && (w >> j) & 1 == 1)) by (bit_vector)
        requires
            b < 64,
            j < 64,
    ;
}

proof fn lemma_bit_or(a: u64, b: u64, j: u64)
    requires
        j < 64,
    ensures
        word_bit(a | b, j) == (word_bit(a, j) || word_bit(b, j)),
{
    assert(((a | b) >> j) & 1 == 1 <==> ((a >> j) & 1 == 1 || (b >> j) & 1 == 1)) by (bit_vector)
        requires
            j < 64,
    ;
}

proof fn lemma_bit_zero(j: u64)
    requires
        j < 64,
    ensures
        !word_bit(0, j),
{
    assert((0u64 >> j) & 1 != 1) by (bit_vector);
}

proof fn lemma_shifts_equal(a: u64, b: u64, k: u64)
    requires
        k <= 63,
        forall|j: u64| j < 64 ==> word_bit(a, j) == word_bit(b, j),
    ensures
        a >> k == b >> k,
    decreases 63 - k,
{
    assert(word_bit(a, k) == word_bit(b, k));
    if k == 63 {
        assert((((a >> 63u64) & 1 == 1) == ((b >> 63u64) & 1 == 1)) ==> a >> 63u64 == b >> 63u64) by (bit_vector);
    } else {
        let k1 = (k + 1) as u64;
        lemma_shifts_equal(a, b, k1);
        assert((a >> k1) == (b >> k1) && (((a >> k) & 1 == 1) == ((b >> k) & 1 == 1)) ==> (a >> k) == (b >> k)) by (bit_vector)
            requires
                k < 63,
                k1 == k + 1,
        ;
    }
}

/// Words with the same bits are equal.
proof fn lemma_bits_determine_word(a: u64, b: u64)
    requires
        forall|j: u64| j < 64 ==> word_bit(a, j) == word_bit(b, j),
    ensures
        a == b,
{
    lemma_shifts_equal(a, b, 0);
    assert(a >> 0u64 == a && b >> 0u64 == b) by (bit_vector);
}

/// The members of a set stored as words of 64 bits, id `i` being bit `i % 64` of word `i / 64`.
pub open spec fn word_members(words: Seq<u64>) -> Set<nat> {
    Set::new(|i: nat| i / 64 < words.len() && word_bit(words[(i / 64) as int], (i % 64) as u64))
}

/// A dense set of task ids, one bit per id.
#[derive(Debug, Clone)]
pub struct TaskIdSet {
    words: Vec<u64>,
}

impl View for TaskIdSet {
    type V = Set<nat>;

    closed spec fn view(&self) -> Set<nat> {
        word_members(self.words@)
    }
}

impl TaskIdSet {
    /// The words cover no more than the ids that fit in a `usize`.
    pub closed spec fn wf(&self) -> bool {
        self.words@.len() <= usize::MAX / 64 + 1
    }

    /// Every member is below `64` times the number of words, so below the largest `usize`.
    pub proof fn lemma_members_bounded(&self, i: nat)
        requires
            self.wf(),
            self@.contains(i),
        ensures
            i <= usize::MAX,
            i < 64 * self.word_count(),
    {
    }

    /// Number of words stored.
    pub closed spec fn word_count(&self) -> nat {
        self.words@.len()
    }

    /// The empty set.
    pub fn new() -> (r: TaskIdSet)
        ensures
            r@ == Set::<nat>::empty(),
            r.wf(),
    {
        let r = TaskIdSet { words: Vec::new() };
        proof {
            assert(r@ =~= Set::<nat>::empty());
        }
        r
    }

    /// Adds `id`.
    pub fn insert(&mut self, id: usize)
        requires
            old(self).wf(),
        ensures
            final(self)@ == old(self)@.insert(id as nat),
            final(self).wf(),
    {
        let word = id / 64;
        let bit = id % 64;
        let ghost before = self.words@;
        if word >= self.words.len() {
            self.words.resize(word + 1, 0);
            proof {
                assert forall|k: int| 0 <= k < self.words@.len() implies self.words@[k] == (if k < before.len() {
                    before[k]
                } else {
                    0u64
                }) by {
                    if k < before.len() {
                        assert(self.words@.subrange(0, before.len() as int)[k] == before[k]);
                    }
                }
            }
        }
        let ghost mid = self.words@;
        let w = self.words[word];
        self.words.set(word, w | (1u64 << (bit as u64)));
        proof {
            assert forall|i: nat| #[trigger] self@.contains(i) == old(self)@.insert(id as nat).contains(i) by {
                if i / 64 < self.words@.len() {
                    if i / 64 == word {
                        lemma_bit_set(w, bit as u64, (i % 64) as u64);
                        if i / 64 >= before.len() {
                            lemma_bit_zero((i % 64) as u64);
                        }
                    } else if i / 64 >= before.len() {
                        lemma_bit_zero((i % 64) as u64);
                    }
                }
            }
            assert(self@ =~= old(self)@.insert(id as nat));
        }
    }

    /// Removes `id`.
    pub fn remove(&mut self, id: usize)
        requires
            old(self).wf(),
        ensures
            final(self)@ == old(self)@.remove(id as nat),
            final(self).wf(),
    {
        let word = id / 64;
        let bit = id % 64;
        if word < self.words.len() {
            let w = self.words[word];
            self.words.set(word, w & !(1u64 << (bit as u64)));
            proof {
                assert forall|i: nat| #[trigger] self@.contains(i) == old(self)@.remove(id as nat).contains(i) by {
                    if i / 64 == word {
                        lemma_bit_clear(w, bit as u64, (i % 64) as u64);
                    }
                }
            }
        }
        proof {
            assert(self@ =~= old(self)@.remove(id as nat));
        }
    }

    /// Removes every member, keeping the storage.
    pub fn clear(&mut self)
        requires
            old(self).wf(),
        ensures
            final(self)@ == Set::<nat>::empty(),
            final(self).wf(),
            final(self).word_count() == old(self).word_count(),
    {
        let n = self.words.len();
        let mut k: usize = 0;
        while k < n
            invariant
                n == self.words@.len(),
                k <= n,
                forall|j: int| 0 <= j < k ==> self.words@[j] == 0,
            decreases n - k,
        {
            self.words.set(k, 0);
            k = k + 1;
        }
        proof {
            assert forall|i: nat| !#[trigger] self@.contains(i) by {
                if i / 64 < n {
                    lemma_bit_zero((i % 64) as u64);
                }
            }
            assert(self@ =~= Set::<nat>::empty());
        }
    }

    /// Word `k`, zero beyond the stored words.
    fn word(&self, k: usize) -> (r: u64)
        ensures
            forall|j: u64| j < 64 ==> word_bit(r, j) == self@.contains((64 * k + j) as nat),
            k >= self.word_count() ==> r == 0,
    {
        if k < self.words.len() {
            let r = self.words[k];
            proof {
                assert forall|j: u64| j < 64 implies word_bit(r, j) == self@.contains((64 * k + j) as nat) by {
                    assert(((64 * k + j) as nat) / 64 == k && ((64 * k + j) as nat) % 64 == j);
                }
            }
            r
        } else {
            proof {
                assert forall|j: u64| j < 64 implies word_bit(0, j) == self@.contains((64 * k + j) as nat) by {
                    lemma_bit_zero(j);
                    assert(((64 * k + j) as nat) / 64 == k);
                }
            }
            0
        }
    }

    /// Number of words stored.
    fn len_words(&self) -> (r: usize)
        ensures
            r == self.word_count(),
    {
        self.words.len()
    }

    /// Whether the sets have the same members.
    pub fn same_bits(&self, other: &TaskIdSet) -> (r: bool)
        ensures
            r == (self@ == other@),
    {
        let n = if self.words.len() >= other.words.len() {
            self.words.len()
        } else {
            other.words.len()
        };
        let mut k: usize = 0;
        while k < n
            invariant
                k <= n,
                n >= self.words@.len() && n >= other.words@.len(),
                forall|i: nat| i < 64 * k ==> (self@.contains(i) == other@.contains(i)),
            decreases n - k,
        {
            let a = self.word(k);
            let b = other.word(k);
            if a != b {
                proof {
                    if forall|j: u64| j < 64 ==> word_bit(a, j) == word_bit(b, j) {
                        lemma_bits_determine_word(a, b);
                    }
                    let j = choose|j: u64| j < 64 && word_bit(a, j) != word_bit(b, j);
                    assert(self@.contains((64 * k + j) as nat) != other@.contains((64 * k + j) as nat));
                }
                return false;
            }
            proof {
                assert forall|i: nat| i < 64 * (k + 1) implies (self@.contains(i) == other@.contains(i)) by {
                    if i >= 64 * k {
                        let j = (i - 64 * k) as u64;
                        assert(i == (64 * k + j) as nat);
                        assert(word_bit(a, j) == word_bit(b, j));
                    }
                }
            }
            k = k + 1;
        }
        proof {
            assert forall|i: nat| #[trigger] self@.contains(i) == other@.contains(i) by {
                if i >= 64 * n {
                    assert(i / 64 >= n);
                }
            }
            assert(self@ =~= other@);
        }
        true
    }
}

/// Whether a task in this state may be woken spuriously, and so is offered to the scheduler
/// though it does not count as runnable.
pub open spec fn is_spurious(state: TaskState) -> bool {
    state == TaskState::Blocked { allow_spurious_wakeups: true }
}

/// The facts kept about the live tasks: the runnable ones, the blocked ones that allow spurious
/// wakeups, and four tallies.
#[verifier::ext_equal]
pub struct SchedulableView {
    pub runnable: Set<nat>,
    pub spurious: Set<nat>,
    pub runnable_count: nat,
    pub runnable_attached_count: nat,
    pub unfinished_attached_count: nat,
    pub unfinished_detached_count: nat,
}

/// The facts about no task.
pub open spec fn empty_view() -> SchedulableView {
    SchedulableView {
        runnable: Set::empty(),
        spurious: Set::empty(),
        runnable_count: 0,
        runnable_attached_count: 0,
        unfinished_attached_count: 0,
        unfinished_detached_count: 0,
    }
}

/// Counting task `id` in `state`, detached or not.
pub open spec fn add_spec(v: SchedulableView, id: nat, state: TaskState, detached: bool) -> SchedulableView {
    let runnable = state == TaskState::Runnable;
    let unfinished = state != TaskState::Finished;
    SchedulableView {
        runnable: if runnable { v.runnable.insert(id) } else { v.runnable },
        spurious: if is_spurious(state) { v.spurious.insert(id) } else { v.spurious },
        runnable_count: if runnable { v.runnable_count + 1 } else { v.runnable_count },
        runnable_attached_count: if runnable && !detached {
            v.runnable_attached_count + 1
        } else {
            v.runnable_attached_count
        },
        unfinished_attached_count: if unfinished && !detached {
            v.unfinished_attached_count + 1
        } else {
            v.unfinished_attached_count
        },
        unfinished_detached_count: if unfinished && detached {
            v.unfinished_detached_count + 1
        } else {
            v.unfinished_detached_count
        },
    }
}

/// No longer counting task `id` in `state`, detached or not.
pub open spec fn remove_spec(v: SchedulableView, id: nat, state: TaskState, detached: bool) -> SchedulableView {
    let runnable = state == TaskState::Runnable;
    let unfinished = state != TaskState::Finished;
    SchedulableView {
        runnable: if runnable { v.runnable.remove(id) } else { v.runnable },
        spurious: if is_spurious(state) { v.spurious.remove(id) } else { v.spurious },
        runnable_count: if runnable { (v.runnable_count - 1) as nat } else { v.runnable_count },
        runnable_attached_count: if runnable && !detached {
            (v.runnable_attached_count - 1) as nat
        } else {
            v.runnable_attached_count
        },
        unfinished_attached_count: if unfinished && !detached {
            (v.unfinished_attached_count - 1) as nat
        } else {
            v.unfinished_attached_count
        },
        unfinished_detached_count: if unfinished && detached {
            (v.unfinished_detached_count - 1) as nat
        } else {
            v.unfinished_detached_count
        },
    }
}

/// A task moving from state `from` to state `to`.
pub open spec fn transition_spec(v: SchedulableView, id: nat, from: TaskState, to: TaskState, detached: bool) -> SchedulableView {
    if from == to {
        v
    } else {
        add_spec(remove_spec(v, id, from, detached), id, to, detached)
    }
}

/// The tallies that counting a task in `state` raises are below the largest `usize`.
pub open spec fn can_add(v: SchedulableView, state: TaskState, detached: bool) -> bool {
    &&& (state == TaskState::Runnable ==> v.runnable_count < usize::MAX && v.runnable_attached_count < usize::MAX)
    &&& (state != TaskState::Finished ==> v.unfinished_attached_count < usize::MAX && v.unfinished_detached_count < usize::MAX)
}

/// The tallies that no longer counting a task in `state` lowers are positive.
pub open spec fn can_remove(v: SchedulableView, state: TaskState, detached: bool) -> bool {
    &&& (state == TaskState::Runnable ==> v.runnable_count > 0)
    &&& (state == TaskState::Runnable && !detached ==> v.runnable_attached_count > 0)
    &&& (state != TaskState::Finished && !detached ==> v.unfinished_attached_count > 0)
    &&& (state != TaskState::Finished && detached ==> v.unfinished_detached_count > 0)
}

/// The facts kept after counting each of the tasks in turn, starting from none.
pub open spec fn recomputed(tasks: Seq<(TaskId, TaskState, bool)>) -> SchedulableView
    decreases tasks.len(),
{
    if tasks.len() == 0 {
        empty_view()
    } else {
        let (id, state, detached) = tasks.last();
        add_spec(recomputed(tasks.drop_last()), id.0 as nat, state, detached)
    }
}

/// Which tasks may be scheduled, and the tallies of task states that a scheduling decision needs.
#[derive(Debug)]
pub struct SchedulableTasks {
    runnable: TaskIdSet,
    spurious: TaskIdSet,
    runnable_count: usize,
    runnable_attached_count: usize,
    unfinished_attached_count: usize,
    unfinished_detached_count: usize,
}

impl View for SchedulableTasks {
    type V = SchedulableView;

    closed spec fn view(&self) -> SchedulableView {
        SchedulableView {
            runnable: self.runnable@,
            spurious: self.spurious@,
            runnable_count: self.runnable_count as nat,
            runnable_attached_count: self.runnable_attached_count as nat,
            unfinished_attached_count: self.unfinished_attached_count as nat,
            unfinished_detached_count: self.unfinished_detached_count as nat,
        }
    }
}

impl Default for SchedulableTasks {
    fn default() -> (r: SchedulableTasks)
        ensures
            r@ == empty_view(),
            r.wf(),
    {
        SchedulableTasks {
            runnable: TaskIdSet::new(),
            spurious: TaskIdSet::new(),
            runnable_count: 0,
            runnable_attached_count: 0,
            unfinished_attached_count: 0,
            unfinished_detached_count: 0,
        }
    }
}

impl SchedulableTasks {
    /// The sets cover no more than the ids that fit in a `usize`.
    pub closed spec fn wf(&self) -> bool {
        self.runnable.wf() && self.spurious.wf()
    }

    /// No task.
    pub fn new() -> (r: SchedulableTasks)
        ensures
            r@ == empty_view(),
            r.wf(),
    {
        Self::default()
    }

    fn add(&mut self, id: TaskId, state: TaskState, detached: bool)
        requires
            old(self).wf(),
            can_add(old(self)@, state, detached),
        ensures
            final(self).wf(),
            final(self)@ == add_spec(old(self)@, id.0 as nat, state, detached),
    {
        let idx = id.0;
        match state {
            TaskState::Runnable => {
                self.runnable.insert(idx);
                self.runnable_count = self.runnable_count + 1;
                if !detached {
                    self.runnable_attached_count = self.runnable_attached_count + 1;
                }
            },
            TaskState::Blocked { allow_spurious_wakeups: true } => {
                self.spurious.insert(idx);
            },
            TaskState::Blocked { allow_spurious_wakeups: false } | TaskState::Sleeping => {},
            TaskState::Finished => {},
        }
        if state != TaskState::Finished {
            if detached {
                self.unfinished_detached_count = self.unfinished_detached_count + 1;
            } else {
                self.unfinished_attached_count = self.unfinished_attached_count + 1;
            }
        }
    }

    fn remove(&mut self, id: TaskId, state: TaskState, detached: bool)
        requires
            old(self).wf(),
            can_remove(old(self)@, state, detached),
        ensures
            final(self).wf(),
            final(self)@ == remove_spec(old(self)@, id.0 as nat, state, detached),
    {
        let idx = id.0;
        match state {
            TaskState::Runnable => {
                self.runnable.remove(idx);
                self.runnable_count = self.runnable_count - 1;
                if !detached {
                    self.runnable_attached_count = self.runnable_attached_count - 1;
                }
            },
            TaskState::Blocked { allow_spurious_wakeups: true } => {
                self.spurious.remove(idx);
            },
            TaskState::Blocked { allow_spurious_wakeups: false } | TaskState::Sleeping => {},
            TaskState::Finished => {},
        }
        if state != TaskState::Finished {
            if detached {
                self.unfinished_detached_count = self.unfinished_detached_count - 1;
            } else {
                self.unfinished_attached_count = self.unfinished_attached_count - 1;
            }
        }
    }

    /// Records a newly created task, which is runnable and attached.
    pub fn register(&mut self, id: TaskId)
        requires
            old(self).wf(),
            can_add(old(self)@, TaskState::Runnable, false),
        ensures
            final(self).wf(),
            final(self)@ == add_spec(old(self)@, id.0 as nat, TaskState::Runnable, false),
    {
        self.add(id, TaskState::Runnable, false);
    }

    /// Records a task's move from state `old_state` to state `new_state`; `detached` is its current
    /// detached flag, which this does not change.
    pub fn transition(&mut self, id: TaskId, old_state: TaskState, new_state: TaskState, detached: bool)
        requires
            old(self).wf(),
            old_state != new_state ==> can_remove(old(self)@, old_state, detached) && can_add(
                remove_spec(old(self)@, id.0 as nat, old_state, detached),
                new_state,
                detached,
            ),
        ensures
            final(self).wf(),
            final(self)@ == transition_spec(old(self)@, id.0 as nat, old_state, new_state, detached),
    {
        if old_state == new_state {
            return;
        }
        self.remove(id, old_state, detached);
        self.add(id, new_state, detached);
    }

    /// Records that a task in `state` became detached. Only the attached and detached tallies
    /// move.
    pub fn detach(&mut self, id: TaskId, state: TaskState)
        requires
            old(self).wf(),
            can_remove(old(self)@, state, false),
            can_add(remove_spec(old(self)@, id.0 as nat, state, false), state, true),
        ensures
            final(self).wf(),
            final(self)@ == add_spec(remove_spec(old(self)@, id.0 as nat, state, false), id.0 as nat, state, true),
    {
        self.remove(id, state, false);
        self.add(id, state, true);
    }

    /// Whether some task is runnable. Tasks that may only wake spuriously do not count, as such a
    /// wakeup may never happen.
    pub fn any_runnable(&self) -> (r: bool)
        ensures
            r == (self@.runnable_count > 0),
    {
        self.runnable_count > 0
    }

    /// Whether every runnable task is detached.
    pub fn all_runnable_detached(&self) -> (r: bool)
        ensures
            r == (self@.runnable_attached_count == 0),
    {
        self.runnable_attached_count == 0
    }

    /// Whether some attached task is unfinished.
    pub fn has_unfinished_attached(&self) -> (r: bool)
        ensures
            r == (self@.unfinished_attached_count > 0),
    {
        self.unfinished_attached_count > 0
    }

    /// The number of unfinished attached tasks.
    pub fn unfinished_attached_count(&self) -> (r: usize)
        ensures
            r == self@.unfinished_attached_count,
    {
        self.unfinished_attached_count
    }

    /// Whether some detached task is unfinished.
    pub fn has_unfinished_detached(&self) -> (r: bool)
        ensures
            r == (self@.unfinished_detached_count > 0),
    {
        self.unfinished_detached_count > 0
    }

    /// Forgets every task, keeping the storage.
    pub fn clear(&mut self)
        requires
            old(self).wf(),
        ensures
            final(self).wf(),
            final(self)@ == empty_view(),
    {
        self.runnable.clear();
        self.spurious.clear();
        self.runnable_count = 0;
        self.runnable_attached_count = 0;
        self.unfinished_attached_count = 0;
        self.unfinished_detached_count = 0;
    }

    /// Whether both hold the same facts.
    pub fn matches(&self, other: &SchedulableTasks) -> (r: bool)
        ensures
            r == (self@ == other@),
    {
        self.runnable_count == other.runnable_count && self.runnable_attached_count == other.runnable_attached_count
            && self.unfinished_attached_count == other.unfinished_attached_count
            && self.unfinished_detached_count == other.unfinished_detached_count
            && self.runnable.same_bits(&other.runnable) && self.spurious.same_bits(&other.spurious)
    }

    /// Rebuilds the facts from a list of every task with its state and detached flag.
    pub fn recompute_from(&mut self, tasks: Vec<(TaskId, TaskState, bool)>)
        requires
            old(self).wf(),
        ensures
            final(self).wf(),
            final(self)@ == recomputed(tasks@),
    {
        self.clear();
        let mut i: usize = 0;
        proof {
            assert(tasks@.take(0) =~= Seq::<(TaskId, TaskState, bool)>::empty());
        }
        while i < tasks.len()
            invariant
                i <= tasks@.len(),
                self.wf(),
                self@ == recomputed(tasks@.take(i as int)),
                self@.runnable_count <= i,
                self@.runnable_attached_count <= i,
                self@.unfinished_attached_count <= i,
                self@.unfinished_detached_count <= i,
            decreases tasks@.len() - i,
        {
            let (id, state, detached) = tasks[i];
            proof {
                assert(tasks@.take(i + 1).drop_last() =~= tasks@.take(i as int));
                assert(tasks@.take(i + 1).last() == (id, state, detached));
            }
            self.add(id, state, detached);
            i = i + 1;
        }
        proof {
            assert(tasks@.take(tasks@.len() as int) =~= tasks@);
        }
    }

    /// The tasks that the scheduler may pick, runnable ones and those that may wake spuriously,
    /// in ascending order of id.
    pub fn schedulable_ids(&self) -> (r: Vec<TaskId>)
        requires
            self.wf(),
        ensures
            forall|i: int, j: int| 0 <= i < j < r@.len() ==> r@[i].0 < r@[j].0,
            forall|i: int| 0 <= i < r@.len() ==> (self@.runnable + self@.spurious).contains(#[trigger] r@[i].0 as nat),
            forall|m: nat| (self@.runnable + self@.spurious).contains(m) ==> exists|i: int| 0 <= i < r@.len() && #[trigger] r@[i].0 == m,
    {
        let a = self.runnable.len_words();
        let b = self.spurious.len_words();
        let n = if a >= b {
            a
        } else {
            b
        };
        let ghost members = self@.runnable + self@.spurious;
        let mut out: Vec<TaskId> = Vec::new();
        let mut k: usize = 0;
        while k < n
            invariant
                self.wf(),
                members == self@.runnable + self@.spurious,
                n == a || n == b,
                a == self.runnable.word_count() && b == self.spurious.word_count(),
                n >= a && n >= b,
                k <= n,
                forall|i: int, j: int| 0 <= i < j < out@.len() ==> out@[i].0 < out@[j].0,
                forall|i: int| 0 <= i < out@.len() ==> members.contains(#[trigger] out@[i].0 as nat) && out@[i].0 < 64 * k,
                forall|m: nat| m < 64 * k && members.contains(m) ==> exists|i: int| 0 <= i < out@.len() && #[trigger] out@[i].0 == m,
            decreases n - k,
        {
            let w1 = self.runnable.word(k);
            let w2 = self.spurious.word(k);
            let bits = w1 | w2;
            proof {
                assert forall|j: u64| j < 64 implies word_bit(bits, j) == members.contains((64 * k + j) as nat) by {
                    lemma_bit_or(w1, w2, j);
                }
                assert(64 * k + 63 <= usize::MAX) by {
                    assert(k < n);
                    assert(n <= usize::MAX / 64 + 1);
                }
            }
            let mut j: u64 = 0;
            while j < 64
                invariant
                    self.wf(),
                    members == self@.runnable + self@.spurious,
                    j <= 64,
                    k < n,
                    64 * k + 63 <= usize::MAX,
                    forall|t: u64| t < 64 ==> word_bit(bits, t) == members.contains((64 * k + t) as nat),
                    forall|i: int, l: int| 0 <= i < l < out@.len() ==> out@[i].0 < out@[l].0,
                    forall|i: int| 0 <= i < out@.len() ==> members.contains(#[trigger] out@[i].0 as nat) && out@[i].0 < 64 * k + j,
                    forall|m: nat| m < 64 * k + j && members.contains(m) ==> exists|i: int| 0 <= i < out@.len() && #[trigger] out@[i].0 == m,
                decreases 64 - j,
            {
                if (bits >> j) & 1 == 1 {
                    let id = 64 * k + j as usize;
                    let ghost before = out@;
                    out.push(TaskId(id));
                    proof {
                        assert(word_bit(bits, j));
                        assert forall|m: nat| m < 64 * k + j + 1 && members.contains(m) implies exists|i: int| 0 <= i < out@.len() && #[trigger] out@[i].0 == m by {
                            if m == 64 * k + j {
                                assert(out@[before.len() as int].0 == m);
                            } else {
                                let i = choose|i: int| 0 <= i < before.len() && #[trigger] before[i].0 == m;
                                assert(out@[i].0 == m);
                            }
                        }
                    }
                } else {
                    proof {
                        assert(!word_bit(bits, j));
                        assert(!members.contains((64 * k + j) as nat));
                    }
                }
                j = j + 1;
            }
            k = k + 1;
        }
        proof {
            assert forall|m: nat| members.contains(m) implies exists|i: int| 0 <= i < out@.len() && #[trigger] out@[i].0 == m by {
                if self@.runnable.contains(m) {
                    self.runnable.lemma_members_bounded(m);
                } else {
                    self.spurious.lemma_members_bounded(m);
                }
            }
        }
        out
    }

    /// Calls `f` on each task that the scheduler may pick, in ascending order of id: `f` is called
    /// with each id of a list of those tasks, ascending.
    pub fn for_each<F: FnMut(TaskId)>(&self, mut f: F)
        requires
            self.wf(),
            forall|id: TaskId| call_requires(f, (id,)),
        ensures
            exists|ids: Seq<TaskId>| #[trigger] ascending_ids(ids, self@.runnable + self@.spurious)
                && forall|i: int| 0 <= i < ids.len() ==> call_ensures(f, (#[trigger] ids[i],), ()),
    {
        let ghost f0 = f;
        let ids = self.schedulable_ids();
        let mut i: usize = 0;
        while i < ids.len()
            invariant
                i <= ids@.len(),
                f == f0,
                forall|id: TaskId| call_requires(f, (id,)),
                forall|k: int| 0 <= k < i ==> call_ensures(f, (#[trigger] ids@[k],), ()),
            decreases ids@.len() - i,
        {
            f(ids[i]);
            i = i + 1;
        }
        proof {
            assert(ids@.len() == i);
            assert(ascending_ids(ids@, self@.runnable + self@.spurious));
        }
    }
}

/// Whether `ids` lists the members of `members`, each once, in ascending order.
pub open spec fn ascending_ids(ids: Seq<TaskId>, members: Set<nat>) -> bool {
    &&& forall|i: int, j: int| 0 <= i < j < ids.len() ==> ids[i].0 < ids[j].0
    &&& forall|i: int| 0 <= i < ids.len() ==> members.contains(#[trigger] ids[i].0 as nat)
    &&& forall|m: nat| members.contains(m) ==> exists|i: int| 0 <= i < ids.len() && #[trigger] ids[i].0 == m
}

/// The tasks of a table whose state and detached flag satisfy `p`.
pub open spec fn tasks_where(table: Map<nat, (TaskState, bool)>, p: spec_fn((TaskState, bool)) -> bool) -> Set<nat> {
    table.dom().filter(|id: nat| p(table[id]))
}

pub open spec fn is_runnable(x: (TaskState, bool)) -> bool {
    x.0 == TaskState::Runnable
}

pub open spec fn is_spurious_task(x: (TaskState, bool)) -> bool {
    is_spurious(x.0)
}

pub open spec fn is_runnable_attached(x: (TaskState, bool)) -> bool {
    x.0 == TaskState::Runnable && !x.1
}

pub open spec fn is_unfinished_attached(x: (TaskState, bool)) -> bool {
    x.0 != TaskState::Finished && !x.1
}

pub open spec fn is_unfinished_detached(x: (TaskState, bool)) -> bool {
    x.0 != TaskState::Finished && x.1
}

/// The facts about a table of live tasks, each with its state and detached flag, computed from
/// scratch.
pub open spec fn derived(table: Map<nat, (TaskState, bool)>) -> SchedulableView {
    SchedulableView {
        runnable: tasks_where(table, |x: (TaskState, bool)| is_runnable(x)),
        spurious: tasks_where(table, |x: (TaskState, bool)| is_spurious_task(x)),
        runnable_count: tasks_where(table, |x: (TaskState, bool)| is_runnable(x)).len(),
        runnable_attached_count: tasks_where(table, |x: (TaskState, bool)| is_runnable_attached(x)).len(),
        unfinished_attached_count: tasks_where(table, |x: (TaskState, bool)| is_unfinished_attached(x)).len(),
        unfinished_detached_count: tasks_where(table, |x: (TaskState, bool)| is_unfinished_detached(x)).len(),
    }
}

/// The table of tasks listed with their state and detached flag, a later entry for an id
/// replacing an earlier one.
pub open spec fn table_of(tasks: Seq<(TaskId, TaskState, bool)>) -> Map<nat, (TaskState, bool)>
    decreases tasks.len(),
{
    if tasks.len() == 0 {
        Map::empty()
    } else {
        let (id, state, detached) = tasks.last();
        table_of(tasks.drop_last()).insert(id.0 as nat, (state, detached))
    }
}

proof fn lemma_where_insert(table: Map<nat, (TaskState, bool)>, id: nat, x: (TaskState, bool), p: spec_fn((TaskState, bool)) -> bool)
    requires
        table.dom().finite(),
        !table.dom().contains(id),
    ensures
        tasks_where(table, p).finite(),
        tasks_where(table.insert(id, x), p) == if p(x) {
            tasks_where(table, p).insert(id)
        } else {
            tasks_where(table, p)
        },
        tasks_where(table.insert(id, x), p).len() == if p(x) {
            tasks_where(table, p).len() + 1
        } else {
            tasks_where(table, p).len()
        },
{
    let f = tasks_where(table, p);
    assert(f =~= table.dom().intersect(Set::new(|i: nat| p(table[i]))));
    let g = tasks_where(table.insert(id, x), p);
    if p(x) {
        assert(g =~= f.insert(id));
    } else {
        assert(g =~= f);
    }
}

proof fn lemma_where_remove(table: Map<nat, (TaskState, bool)>, id: nat, p: spec_fn((TaskState, bool)) -> bool)
    requires
        table.dom().finite(),
        table.dom().contains(id),
    ensures
        tasks_where(table, p).finite(),
        tasks_where(table.remove(id), p) == tasks_where(table, p).remove(id),
        tasks_where(table.remove(id), p).len() == if p(table[id]) {
            (tasks_where(table, p).len() - 1) as nat
        } else {
            tasks_where(table, p).len()
        },
        p(table[id]) ==> tasks_where(table, p).len() > 0,
{
    let f = tasks_where(table, p);
    assert(f =~= table.dom().intersect(Set::new(|i: nat| p(table[i]))));
    assert(tasks_where(table.remove(id), p) =~= f.remove(id));
    if p(table[id]) {
        assert(f.contains(id));
    } else {
        assert(f.remove(id) =~= f);
    }
}

/// Counting a new task in the facts of a table gives the facts of the table with that task.
pub proof fn lemma_add_law(table: Map<nat, (TaskState, bool)>, id: nat, state: TaskState, detached: bool)
    requires
        table.dom().finite(),
        !table.dom().contains(id),
    ensures
        derived(table.insert(id, (state, detached))) == add_spec(derived(table), id, state, detached),
{
    let x = (state, detached);
    lemma_where_insert(table, id, x, |x: (TaskState, bool)| is_runnable(x));
    lemma_where_insert(table, id, x, |x: (TaskState, bool)| is_spurious_task(x));
    lemma_where_insert(table, id, x, |x: (TaskState, bool)| is_runnable_attached(x));
    lemma_where_insert(table, id, x, |x: (TaskState, bool)| is_unfinished_attached(x));
    lemma_where_insert(table, id, x, |x: (TaskState, bool)| is_unfinished_detached(x));
    assert(derived(table.insert(id, x)) =~= add_spec(derived(table), id, state, detached));
}

/// No longer counting a task in the facts of a table gives the facts of the table without it.
pub proof fn lemma_remove_law(table: Map<nat, (TaskState, bool)>, id: nat)
    requires
        table.dom().finite(),
        table.dom().contains(id),
    ensures
        derived(table.remove(id)) == remove_spec(derived(table), id, table[id].0, table[id].1),
        can_remove(derived(table), table[id].0, table[id].1),
{
    lemma_where_remove(table, id, |x: (TaskState, bool)| is_runnable(x));
    lemma_where_remove(table, id, |x: (TaskState, bool)| is_spurious_task(x));
    lemma_where_remove(table, id, |x: (TaskState, bool)| is_runnable_attached(x));
    lemma_where_remove(table, id, |x: (TaskState, bool)| is_unfinished_attached(x));
    lemma_where_remove(table, id, |x: (TaskState, bool)| is_unfinished_detached(x));
    let (state, detached) = table[id];
    if !is_spurious(state) {
        assert(derived(table).spurious.remove(id) =~= derived(table).spurious);
    }
    if state != TaskState::Runnable {
        assert(derived(table).runnable.remove(id) =~= derived(table).runnable);
    }
    assert(derived(table.remove(id)) =~= remove_spec(derived(table), id, state, detached));
}

/// Registering a task keeps the facts equal to those of the table of live tasks with the new
/// task, runnable and attached, added.
pub proof fn lemma_register_law(table: Map<nat, (TaskState, bool)>, id: nat)
    requires
        table.dom().finite(),
        !table.dom().contains(id),
    ensures
        derived(table.insert(id, (TaskState::Runnable, false))) == add_spec(derived(table), id, TaskState::Runnable, false),
{
    lemma_add_law(table, id, TaskState::Runnable, false);
}

/// A transition keeps the facts equal to those of the table of live tasks with the task's new
/// state; a transition to the same state changes nothing.
pub proof fn lemma_transition_law(table: Map<nat, (TaskState, bool)>, id: nat, new_state: TaskState)
    requires
        table.dom().finite(),
        table.dom().contains(id),
    ensures
        derived(table.insert(id, (new_state, table[id].1))) == transition_spec(derived(table), id, table[id].0, new_state, table[id].1),
        can_remove(derived(table), table[id].0, table[id].1),
{
    let (state, detached) = table[id];
    lemma_remove_law(table, id);
    if state == new_state {
        assert(table.insert(id, (new_state, detached)) =~= table);
    } else {
        let rest = table.remove(id);
        assert(table.insert(id, (new_state, detached)) =~= rest.insert(id, (new_state, detached)));
        lemma_add_law(rest, id, new_state, detached);
    }
}

/// Detaching keeps the facts equal to those of the table of live tasks with the task detached.
pub proof fn lemma_detach_law(table: Map<nat, (TaskState, bool)>, id: nat)
    requires
        table.dom().finite(),
        table.dom().contains(id),
        !table[id].1,
    ensures
        derived(table.insert(id, (table[id].0, true))) == add_spec(
            remove_spec(derived(table), id, table[id].0, false),
            id,
            table[id].0,
            true,
        ),
        can_remove(derived(table), table[id].0, false),
{
    let state = table[id].0;
    lemma_remove_law(table, id);
    let rest = table.remove(id);
    assert(table.insert(id, (state, true)) =~= rest.insert(id, (state, true)));
    lemma_add_law(rest, id, state, true);
}

/// Recomputing from a list of tasks with distinct ids gives the facts of the table they form.
pub proof fn lemma_recompute_law(tasks: Seq<(TaskId, TaskState, bool)>)
    requires
        forall|i: int, j: int| 0 <= i < j < tasks.len() ==> (#[trigger] tasks[i]).0 != (#[trigger] tasks[j]).0,
    ensures
        recomputed(tasks) == derived(table_of(tasks)),
        table_of(tasks).dom().finite(),
    decreases tasks.len(),
{
    if tasks.len() == 0 {
        let e = Map::<nat, (TaskState, bool)>::empty();
        lemma_where_empty(|x: (TaskState, bool)| is_runnable(x));
        lemma_where_empty(|x: (TaskState, bool)| is_spurious_task(x));
        lemma_where_empty(|x: (TaskState, bool)| is_runnable_attached(x));
        lemma_where_empty(|x: (TaskState, bool)| is_unfinished_attached(x));
        lemma_where_empty(|x: (TaskState, bool)| is_unfinished_detached(x));
        assert(derived(e) =~= empty_view());
    } else {
        let init = tasks.drop_last();
        assert forall|i: int, j: int| 0 <= i < j < init.len() implies (#[trigger] init[i]).0 != (#[trigger] init[j]).0 by {
            assert(init[i] == tasks[i] && init[j] == tasks[j]);
        }
        lemma_recompute_law(init);
        let (id, state, detached) = tasks.last();
        lemma_table_of_dom(init, id);
        lemma_add_law(table_of(init), id.0 as nat, state, detached);
    }
}

proof fn lemma_where_empty(p: spec_fn((TaskState, bool)) -> bool)
    ensures
        tasks_where(Map::<nat, (TaskState, bool)>::empty(), p) == Set::<nat>::empty(),
{
    assert(tasks_where(Map::<nat, (TaskState, bool)>::empty(), p) =~= Set::<nat>::empty());
}

proof fn lemma_table_of_dom(tasks: Seq<(TaskId, TaskState, bool)>, id: TaskId)
    requires
        forall|i: int| 0 <= i < tasks.len() ==> (#[trigger] tasks[i]).0 != id,
    ensures
        !table_of(tasks).dom().contains(id.0 as nat),
    decreases tasks.len(),
{
    if tasks.len() > 0 {
        let init = tasks.drop_last();
        assert forall|i: int| 0 <= i < init.len() implies (#[trigger] init[i]).0 != id by {
            assert(init[i] == tasks[i]);
        }
        lemma_table_of_dom(init, id);
        assert(tasks.last().0 != id);
    }
}

/// A change to the live tasks as the runtime reports it: a task created, a task moving to a
/// state, a task detached.
pub enum TaskChange {
    Created(nat),
    Moved(nat, TaskState),
    Detached(nat),
}

/// The table of live tasks after the changes, each task with its state and detached flag.
pub open spec fn table_after(table: Map<nat, (TaskState, bool)>, changes: Seq<TaskChange>) -> Map<nat, (TaskState, bool)>
    decreases changes.len(),
{
    if changes.len() == 0 {
        table
    } else {
        let t = table_after(table, changes.drop_last());
        match changes.last() {
            TaskChange::Created(id) => t.insert(id, (TaskState::Runnable, false)),
            TaskChange::Moved(id, state) => t.insert(id, (state, t[id].1)),
            TaskChange::Detached(id) => t.insert(id, (t[id].0, true)),
        }
    }
}

/// Whether each change in turn fits the table it meets: a created task is new, a moved task is
/// live, a detached task is live and attached.
pub open spec fn changes_fit(table: Map<nat, (TaskState, bool)>, changes: Seq<TaskChange>) -> bool
    decreases changes.len(),
{
    if changes.len() == 0 {
        true
    } else {
        let t = table_after(table, changes.drop_last());
        &&& changes_fit(table, changes.drop_last())
        &&& match changes.last() {
            TaskChange::Created(id) => !t.dom().contains(id),
            TaskChange::Moved(id, _) => t.dom().contains(id),
            TaskChange::Detached(id) => t.dom().contains(id) && !t[id].1,
        }
    }
}

/// The facts kept after the changes, each recorded as `register`, `transition` and `detach`
/// record it, with the task's current state and detached flag.
pub open spec fn facts_after(v: SchedulableView, table: Map<nat, (TaskState, bool)>, changes: Seq<TaskChange>) -> SchedulableView
    decreases changes.len(),
{
    if changes.len() == 0 {
        v
    } else {
        let f = facts_after(v, table, changes.drop_last());
        let t = table_after(table, changes.drop_last());
        match changes.last() {
            TaskChange::Created(id) => add_spec(f, id, TaskState::Runnable, false),
            TaskChange::Moved(id, state) => transition_spec(f, id, t[id].0, state, t[id].1),
            TaskChange::Detached(id) => add_spec(remove_spec(f, id, t[id].0, false), id, t[id].0, true),
        }
    }
}

proof fn lemma_facts_after(table: Map<nat, (TaskState, bool)>, changes: Seq<TaskChange>)
    requires
        table.dom().finite(),
        changes_fit(table, changes),
    ensures
        table_after(table, changes).dom().finite(),
        facts_after(derived(table), table, changes) == derived(table_after(table, changes)),
    decreases changes.len(),
{
    if changes.len() > 0 {
        let init = changes.drop_last();
        lemma_facts_after(table, init);
        let t = table_after(table, init);
        match changes.last() {
            TaskChange::Created(id) => {
                lemma_register_law(t, id);
            },
            TaskChange::Moved(id, state) => {
                lemma_transition_law(t, id, state);
            },
            TaskChange::Detached(id) => {
                lemma_detach_law(t, id);
            },
        }
    }
}

/// Whatever creations, moves and detachments the runtime reports, each with the task's true
/// state, the facts kept from no task on are those of the table of live tasks computed afresh.
/// So the tasks that `schedulable_ids` lists, in ascending order of id, are exactly the live
/// tasks that are runnable or blocked allowing spurious wakeups.
pub proof fn lemma_schedulable_after_changes(changes: Seq<TaskChange>)
    requires
        changes_fit(Map::empty(), changes),
    ensures
        facts_after(empty_view(), Map::empty(), changes) == derived(table_after(Map::empty(), changes)),
        forall|id: nat| #![trigger table_after(Map::empty(), changes)[id]]
            (facts_after(empty_view(), Map::empty(), changes).runnable
                + facts_after(empty_view(), Map::empty(), changes).spurious).contains(id)
            <==> (table_after(Map::empty(), changes).dom().contains(id)
                && (table_after(Map::empty(), changes)[id].0 == TaskState::Runnable
                    || table_after(Map::empty(), changes)[id].0 == (TaskState::Blocked { allow_spurious_wakeups: true }))),
{
    let e = Map::<nat, (TaskState, bool)>::empty();
    lemma_where_empty(|x: (TaskState, bool)| is_runnable(x));
    lemma_where_empty(|x: (TaskState, bool)| is_spurious_task(x));
    lemma_where_empty(|x: (TaskState, bool)| is_runnable_attached(x));
    lemma_where_empty(|x: (TaskState, bool)| is_unfinished_attached(x));
    lemma_where_empty(|x: (TaskState, bool)| is_unfinished_detached(x));
    assert(derived(e) =~= empty_view());
    lemma_facts_after(e, changes);
}

/// Counting a task and then no longer counting it, in the same state and with the same flag,
/// leaves the facts as they were, where the task was not already in the set its state selects.
pub proof fn lemma_remove_undoes_add(v: SchedulableView, id: nat, state: TaskState, detached: bool)
    requires
        state == TaskState::Runnable ==> !v.runnable.contains(id),
        is_spurious(state) ==> !v.spurious.contains(id),
    ensures
        remove_spec(add_spec(v, id, state, detached), id, state, detached) == v,
{
    if state == TaskState::Runnable {
        assert(v.runnable.insert(id).remove(id) =~= v.runnable);
    }
    if is_spurious(state) {
        assert(v.spurious.insert(id).remove(id) =~= v.spurious);
    }
    assert(remove_spec(add_spec(v, id, state, detached), id, state, detached) =~= v);
}

} // verus!
