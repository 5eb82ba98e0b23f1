//! The runtime's view of which tasks may be scheduled, kept up to date as tasks change state
//! rather than rescanned at every scheduling point. The runnable set holds the runnable tasks and
//! the blocked ones that may wake spuriously, in increasing id order; a few aggregate flags say
//! whether the execution should finish.
use vstd::prelude::*;
use crate::task::{TaskId, TaskState};

verus! {

/// Whether a task in this state belongs to the runnable set: it is runnable, or blocked but may
/// wake spuriously.
pub open spec fn in_runnable_set(state: TaskState) -> bool {
    state == TaskState::Runnable || state == (TaskState::Blocked { allow_spurious_wakeups: true })
}

/// Whether some task is truly runnable.
pub open spec fn any_truly_runnable(tasks: Seq<(TaskState, bool)>) -> bool {
    exists|i: int| 0 <= i < tasks.len() && #[trigger] tasks[i].0 == TaskState::Runnable
}

/// Whether some task is unfinished and not detached.
pub open spec fn unfinished_attached(tasks: Seq<(TaskState, bool)>) -> bool {
    exists|i: int| 0 <= i < tasks.len() && #[trigger] tasks[i].0 != TaskState::Finished && !tasks[i].1
}

/// Whether every truly runnable task is detached.
pub open spec fn all_runnable_detached(tasks: Seq<(TaskState, bool)>) -> bool {
    forall|i: int| 0 <= i < tasks.len() && #[trigger] tasks[i].0 == TaskState::Runnable ==> tasks[i].1
}

/// Whether the execution should finish: no task is truly runnable, or the runnable tasks are all
/// detached and every attached task has finished.
pub open spec fn should_finish_spec(tasks: Seq<(TaskState, bool)>) -> bool {
    !any_truly_runnable(tasks) || (!unfinished_attached(tasks) && all_runnable_detached(tasks))
}

/// The number of attached tasks that have not finished.
pub open spec fn unfinished_attached_count(tasks: Seq<(TaskState, bool)>) -> nat
    decreases tasks.len(),
{
    if tasks.len() == 0 {
        0
    } else {
        unfinished_attached_count(tasks.drop_last()) + if tasks.last().0 != TaskState::Finished && !tasks.last().1 {
            1nat
        } else {
            0nat
        }
    }
}

/// Whether some detached task has not finished.
pub open spec fn unfinished_detached(tasks: Seq<(TaskState, bool)>) -> bool {
    exists|i: int| 0 <= i < tasks.len() && #[trigger] tasks[i].0 != TaskState::Finished && tasks[i].1
}

/// Whether the exit of task `current` ends the execution before detached tasks finish: the exit
/// of the main task always counts as such; otherwise, the exit of the one attached task left
/// unfinished while some detached task is unfinished.
pub open spec fn exit_truncates(tasks: Seq<(TaskState, bool)>, current: TaskId) -> bool {
    current.0 == 0 || (!tasks[current.0 as int].1 && unfinished_attached_count(tasks) == 1 && unfinished_detached(tasks))
}

/// A prefix has no more unfinished attached tasks than the whole.
pub proof fn lemma_unfinished_attached_prefix(tasks: Seq<(TaskState, bool)>, j: int)
    requires
        0 <= j <= tasks.len(),
    ensures
        unfinished_attached_count(tasks.take(j)) <= unfinished_attached_count(tasks),
    decreases tasks.len(),
{
    if j < tasks.len() {
        assert(tasks.take(j) =~= tasks.drop_last().take(j));
        lemma_unfinished_attached_prefix(tasks.drop_last(), j);
    } else {
        assert(tasks.take(j) =~= tasks);
    }
}

/// Whether the ids are in strictly increasing order.
pub open spec fn strictly_increasing(ids: Seq<TaskId>) -> bool {
    forall|a: int, b: int| 0 <= a < b < ids.len() ==> ids[a].0 < ids[b].0
}

/// Whether `ids` holds exactly the tasks of the runnable set.
pub open spec fn is_runnable_set(ids: Seq<TaskId>, tasks: Seq<(TaskState, bool)>) -> bool {
    &&& strictly_increasing(ids)
    &&& forall|k: int| 0 <= k < ids.len() ==> #[trigger] ids[k].0 < tasks.len() && in_runnable_set(tasks[ids[k].0 as int].0)
    &&& forall|i: int| 0 <= i < tasks.len() && in_runnable_set(#[trigger] tasks[i].0) ==> has_id(ids, i)
}

/// Whether task `i` is among the ids.
pub open spec fn has_id(ids: Seq<TaskId>, i: int) -> bool {
    exists|k: int| 0 <= k < ids.len() && ids[k].0 == i
}

/// A task's state, whether it is detached, and whether it is in the runnable set.
#[derive(Clone, Copy, Debug)]
struct TaskEntry {
    state: TaskState,
    detached: bool,
    in_runnable_set: bool,
}

/// Tracks the state of each task, the runnable set, and whether the execution should finish.
#[derive(Debug)]
pub struct TaskManager {
    entries: Vec<TaskEntry>,
    runnable: Vec<TaskId>,
    any_truly_runnable: bool,
    unfinished_attached: bool,
    all_runnable_detached: bool,
}

impl TaskManager {
    /// The state of each task, by id, and whether it is detached.
    pub closed spec fn tasks(&self) -> Seq<(TaskState, bool)> {
        Seq::new(self.entries@.len(), |i: int| (self.entries@[i].state, self.entries@[i].detached))
    }

    /// The runnable set, in increasing id order.
    pub closed spec fn runnable(&self) -> Seq<TaskId> {
        self.runnable@
    }

    /// The runnable set and the flags follow from the tasks' states.
    pub closed spec fn wf(&self) -> bool {
        &&& is_runnable_set(self.runnable@, self.tasks())
        &&& forall|i: int| 0 <= i < self.entries@.len() ==> (#[trigger] self.entries@[i]).in_runnable_set
            == in_runnable_set(self.entries@[i].state)
        &&& self.any_truly_runnable == any_truly_runnable(self.tasks())
        &&& self.unfinished_attached == unfinished_attached(self.tasks())
        &&& self.all_runnable_detached == all_runnable_detached(self.tasks())
    }

    /// No tasks.
    pub fn new() -> (r: TaskManager)
        ensures
            r.wf(),
            r.tasks().len() == 0,
    {
        let r = TaskManager {
            entries: Vec::new(),
            runnable: Vec::new(),
            any_truly_runnable: false,
            unfinished_attached: false,
            all_runnable_detached: true,
        };
        proof {
            assert(r.tasks() =~= Seq::<(TaskState, bool)>::empty());
        }
        r
    }

    /// The state of task `id`.
    pub fn state(&self, id: TaskId) -> (r: TaskState)
        requires
            id.0 < self.tasks().len(),
        ensures
            r == self.tasks()[id.0 as int].0,
    {
        self.entries[id.0].state
    }

    /// Recomputes the flags from the tasks' states.
    fn recompute_aggregates(&mut self)
        ensures
            final(self).entries == old(self).entries,
            final(self).runnable == old(self).runnable,
            final(self).any_truly_runnable == any_truly_runnable(final(self).tasks()),
            final(self).unfinished_attached == unfinished_attached(final(self).tasks()),
            final(self).all_runnable_detached == all_runnable_detached(final(self).tasks()),
    {
        let ghost t = self.tasks();
        let mut any = false;
        let mut unfinished = false;
        let mut all_detached = true;
        let mut i: usize = 0;
        while i < self.entries.len()
            invariant
                i <= self.entries@.len(),
                t == self.tasks(),
                any == any_truly_runnable(t.take(i as int)),
                unfinished == unfinished_attached(t.take(i as int)),
                all_detached == all_runnable_detached(t.take(i as int)),
            decreases self.entries@.len() - i,
        {
            let entry = self.entries[i];
            proof {
                assert(t[i as int] == (entry.state, entry.detached));
                assert forall|k: int| 0 <= k < i + 1 implies #[trigger] t.take(i + 1)[k] == t[k] by {}
                assert forall|k: int| 0 <= k < i implies #[trigger] t.take(i as int)[k] == t[k] by {}
            }
            if entry.state != TaskState::Finished {
                if !entry.detached {
                    unfinished = true;
                }
                if entry.state == TaskState::Runnable {
                    any = true;
                    if !entry.detached {
                        all_detached = false;
                    }
                }
            }
            proof {
                let p = t.take(i + 1);
                let q = t.take(i as int);
                if any {
                    if !any_truly_runnable(q) {
                        assert(p[i as int].0 == TaskState::Runnable);
                    } else {
                        let k = choose|k: int| 0 <= k < q.len() && #[trigger] q[k].0 == TaskState::Runnable;
                        assert(p[k].0 == TaskState::Runnable);
                    }
                } else {
                    assert forall|k: int| 0 <= k < p.len() implies #[trigger] p[k].0 != TaskState::Runnable by {
                        if k < i {
                            assert(q[k] == p[k]);
                        }
                    }
                }
                if unfinished {
                    if !unfinished_attached(q) {
                        assert(p[i as int].0 != TaskState::Finished && !p[i as int].1);
                    } else {
                        let k = choose|k: int| 0 <= k < q.len() && #[trigger] q[k].0 != TaskState::Finished && !q[k].1;
                        assert(p[k].0 != TaskState::Finished && !p[k].1);
                    }
                } else {
                    assert forall|k: int| 0 <= k < p.len() implies !(#[trigger] p[k].0 != TaskState::Finished && !p[k].1) by {
                        if k < i {
                            assert(q[k] == p[k]);
                        }
                    }
                }
                if all_detached {
                    assert forall|k: int| 0 <= k < p.len() && #[trigger] p[k].0 == TaskState::Runnable implies p[k].1 by {
                        if k < i {
                            assert(q[k] == p[k]);
                        }
                    }
                } else {
                    if all_runnable_detached(q) {
                        assert(p[i as int].0 == TaskState::Runnable && !p[i as int].1);
                    } else {
                        let k = choose|k: int| 0 <= k < q.len() && #[trigger] q[k].0 == TaskState::Runnable && !q[k].1;
                        assert(p[k].0 == TaskState::Runnable && !p[k].1);
                    }
                }
            }
            i = i + 1;
        }
        proof {
            assert(t.take(i as int) =~= t);
        }
        self.any_truly_runnable = any;
        self.unfinished_attached = unfinished;
        self.all_runnable_detached = all_detached;
    }

    /// Adds `id` to the runnable set, which does not hold it, keeping the set in id order.
    fn insert_runnable(&mut self, id: TaskId)
        requires
            strictly_increasing(old(self).runnable@),
            !old(self).runnable@.contains(id),
        ensures
            strictly_increasing(final(self).runnable@),
            forall|x: TaskId| final(self).runnable@.contains(x) <==> old(self).runnable@.contains(x) || x == id,
            final(self).entries == old(self).entries,
            final(self).any_truly_runnable == old(self).any_truly_runnable,
            final(self).unfinished_attached == old(self).unfinished_attached,
            final(self).all_runnable_detached == old(self).all_runnable_detached,
    {
        let ghost r = self.runnable@;
        let mut k: usize = 0;
        while k < self.runnable.len() && self.runnable[k].0 < id.0
            invariant
                k <= self.runnable@.len(),
                self.runnable@ == r,
                forall|j: int| 0 <= j < k ==> self.runnable@[j].0 < id.0,
            decreases self.runnable@.len() - k,
        {
            k = k + 1;
        }
        self.runnable.insert(k, id);
        proof {
            let n = self.runnable@;
            assert(n =~= r.insert(k as int, id));
            assert forall|a: int, b: int| 0 <= a < b < n.len() implies n[a].0 < n[b].0 by {
                if k < r.len() && (a == k as int || b == k as int) {
                    assert(r[k as int].0 >= id.0);
                    if r[k as int].0 == id.0 {
                        assert(r[k as int] == id);
                    }
                }
                if b == k as int && a < k {
                    assert(r[a].0 < id.0);
                }
                if a == k as int && b > k {
                    assert(n[b] == r[b - 1]);
                    if b - 1 > k {
                        assert(r[k as int].0 < r[b - 1].0);
                    }
                }
            }
            assert forall|x: TaskId| n.contains(x) <==> r.contains(x) || x == id by {
                if n.contains(x) {
                    let j = choose|j: int| 0 <= j < n.len() && n[j] == x;
                    if j < k {
                        assert(r[j] == x);
                    } else if j > k {
                        assert(r[j - 1] == x);
                    }
                }
                if r.contains(x) {
                    let j = choose|j: int| 0 <= j < r.len() && r[j] == x;
                    if j < k {
                        assert(n[j] == x);
                    } else {
                        assert(n[j + 1] == x);
                    }
                }
                if x == id {
                    assert(n[k as int] == x);
                }
            }
        }
    }

    /// Removes `id` from the runnable set, where it is.
    fn remove_runnable(&mut self, id: TaskId)
        requires
            strictly_increasing(old(self).runnable@),
        ensures
            strictly_increasing(final(self).runnable@),
            forall|x: TaskId| final(self).runnable@.contains(x) <==> old(self).runnable@.contains(x) && x != id,
            final(self).entries == old(self).entries,
            final(self).any_truly_runnable == old(self).any_truly_runnable,
            final(self).unfinished_attached == old(self).unfinished_attached,
            final(self).all_runnable_detached == old(self).all_runnable_detached,
    {
        let ghost r = self.runnable@;
        let mut k: usize = 0;
        while k < self.runnable.len()
            invariant
                k <= self.runnable@.len(),
                self.runnable@ == r,
                r == old(self).runnable@,
                strictly_increasing(r),
                self.entries == old(self).entries,
                self.any_truly_runnable == old(self).any_truly_runnable,
                self.unfinished_attached == old(self).unfinished_attached,
                self.all_runnable_detached == old(self).all_runnable_detached,
                forall|j: int| 0 <= j < k ==> self.runnable@[j] != id,
            decreases self.runnable@.len() - k,
        {
            if self.runnable[k] == id {
                self.runnable.remove(k);
                proof {
                    let n = self.runnable@;
                    assert(n =~= r.remove(k as int));
                    assert forall|a: int, b: int| 0 <= a < b < n.len() implies n[a].0 < n[b].0 by {
                        let a0 = if a < k { a } else { a + 1 };
                        let b0 = if b < k { b } else { b + 1 };
                        assert(n[a] == r[a0] && n[b] == r[b0]);
                    }
                    assert forall|x: TaskId| n.contains(x) <==> r.contains(x) && x != id by {
                        if n.contains(x) {
                            let j = choose|j: int| 0 <= j < n.len() && n[j] == x;
                            if j < k {
                                assert(r[j] == x);
                            } else {
                                assert(r[j + 1] == x);
                                assert(r[k as int].0 < r[j + 1].0);
                            }
                        }
                        if r.contains(x) && x != id {
                            let j = choose|j: int| 0 <= j < r.len() && r[j] == x;
                            if j < k {
                                assert(n[j] == x);
                            } else {
                                assert(j != k);
                                assert(n[j - 1] == x);
                            }
                        }
                    }
                }
                return;
            }
            k = k + 1;
        }
        proof {
            assert forall|x: TaskId| r.contains(x) implies x != id by {
                let j = choose|j: int| 0 <= j < r.len() && r[j] == x;
            }
        }
    }

    /// Registers a newly spawned task, the next id in order; new tasks are runnable.
    pub fn task_spawned(&mut self, id: TaskId, detached: bool)
        requires
            old(self).wf(),
            id.0 == old(self).tasks().len(),
        ensures
            final(self).wf(),
            final(self).tasks() == old(self).tasks().push((TaskState::Runnable, detached)),
    {
        let ghost t0 = self.tasks();
        let ghost r0 = self.runnable@;
        self.entries.push(TaskEntry { state: TaskState::Runnable, detached, in_runnable_set: true });
        self.runnable.push(id);
        self.recompute_aggregates();
        proof {
            let t = self.tasks();
            assert(t =~= t0.push((TaskState::Runnable, detached)));
            let n = self.runnable@;
            assert(n == r0.push(id));
            assert forall|a: int, b: int| 0 <= a < b < n.len() implies n[a].0 < n[b].0 by {
                if b == r0.len() {
                    assert(r0[a].0 < t0.len());
                }
            }
            assert forall|k: int| 0 <= k < n.len() implies #[trigger] n[k].0 < t.len() && in_runnable_set(t[n[k].0 as int].0) by {
                if k < r0.len() {
                    assert(n[k] == r0[k]);
                    assert(r0[k].0 < t0.len());
                    assert(t[r0[k].0 as int] == t0[r0[k].0 as int]);
                }
            }
            assert forall|i: int| 0 <= i < t.len() && in_runnable_set(#[trigger] t[i].0) implies has_id(n, i) by {
                if i < t0.len() {
                    assert(t[i] == t0[i]);
                    assert(has_id(r0, i));
                    let j = choose|j: int| 0 <= j < r0.len() && r0[j].0 == i;
                    assert(n[j] == r0[j]);
                } else {
                    assert(n[r0.len() as int] == id);
                }
            }
            assert forall|i: int| 0 <= i < self.entries@.len() implies (#[trigger] self.entries@[i]).in_runnable_set
                == in_runnable_set(self.entries@[i].state) by {
                if i < t0.len() {
                    assert(self.entries@[i] == old(self).entries@[i]);
                }
            }
        }
    }

    /// Sets the state of task `id`, and its membership in the runnable set to match.
    fn set_state(&mut self, id: TaskId, state: TaskState)
        requires
            old(self).wf(),
            id.0 < old(self).tasks().len(),
        ensures
            final(self).wf(),
            final(self).tasks() == old(self).tasks().update(id.0 as int, (state, old(self).tasks()[id.0 as int].1)),
    {
        let ghost t0 = self.tasks();
        let entry = self.entries[id.0];
        let should_be_in = state == TaskState::Runnable || state == (TaskState::Blocked { allow_spurious_wakeups: true });
        if entry.in_runnable_set && !should_be_in {
            self.remove_runnable(id);
        } else if !entry.in_runnable_set && should_be_in {
            proof {
                if self.runnable@.contains(id) {
                    let j = choose|j: int| 0 <= j < self.runnable@.len() && self.runnable@[j] == id;
                    assert(in_runnable_set(t0[self.runnable@[j].0 as int].0));
                    assert(self.entries@[id.0 as int] == entry);
                }
            }
            self.insert_runnable(id);
        }
        self.entries.set(id.0, TaskEntry { state, detached: entry.detached, in_runnable_set: should_be_in });
        self.recompute_aggregates();
        proof {
            let t = self.tasks();
            assert(t =~= t0.update(id.0 as int, (state, t0[id.0 as int].1)));
            let n = self.runnable@;
            assert forall|k: int| 0 <= k < n.len() implies #[trigger] n[k].0 < t.len() && in_runnable_set(t[n[k].0 as int].0) by {
                let x = n[k];
                assert(n.contains(x));
                if x != id {
                    assert(old(self).runnable@.contains(x));
                    let j = choose|j: int| 0 <= j < old(self).runnable@.len() && old(self).runnable@[j] == x;
                    assert(x.0 < t0.len() && in_runnable_set(t0[x.0 as int].0));
                    assert(x.0 != id.0);
                }
            }
            assert forall|i: int| 0 <= i < t.len() && in_runnable_set(#[trigger] t[i].0) implies has_id(n, i) by {
                if i != id.0 {
                    assert(t[i] == t0[i]);
                    assert(has_id(old(self).runnable@, i));
                    let j = choose|j: int| 0 <= j < old(self).runnable@.len() && old(self).runnable@[j].0 == i;
                    let x = old(self).runnable@[j];
                    assert(old(self).runnable@.contains(x));
                    assert(x != id);
                    assert(n.contains(x));
                } else {
                    if entry.in_runnable_set {
                        assert(old(self).entries@[i] == entry);
                        assert(in_runnable_set(t0[i].0));
                        assert(has_id(old(self).runnable@, i));
                        let j = choose|j: int| 0 <= j < old(self).runnable@.len() && old(self).runnable@[j].0 == i;
                        let x = old(self).runnable@[j];
                        assert(x == id);
                        assert(old(self).runnable@.contains(x));
                        assert(n.contains(id));
                    } else {
                        assert(n.contains(id));
                    }
                    let j = choose|j: int| 0 <= j < n.len() && n[j] == id;
                    assert(n[j].0 == i);
                }
            }
            assert forall|i: int| 0 <= i < self.entries@.len() implies (#[trigger] self.entries@[i]).in_runnable_set
                == in_runnable_set(self.entries@[i].state) by {
                if i != id.0 {
                    assert(self.entries@[i] == old(self).entries@[i]);
                }
            }
        }
    }

    /// Task `id` blocked; if it may wake spuriously it stays in the runnable set.
    pub fn task_blocked(&mut self, id: TaskId, allow_spurious_wakeups: bool)
        requires
            old(self).wf(),
            id.0 < old(self).tasks().len(),
        ensures
            final(self).wf(),
            final(self).tasks() == old(self).tasks().update(id.0 as int,
                (TaskState::Blocked { allow_spurious_wakeups }, old(self).tasks()[id.0 as int].1)),
    {
        self.set_state(id, TaskState::Blocked { allow_spurious_wakeups });
    }

    /// Task `id` became runnable; unblocking a runnable task does nothing.
    pub fn task_unblocked(&mut self, id: TaskId)
        requires
            old(self).wf(),
            id.0 < old(self).tasks().len(),
        ensures
            final(self).wf(),
            final(self).tasks() == old(self).tasks().update(id.0 as int, (TaskState::Runnable, old(self).tasks()[id.0 as int].1)),
    {
        if self.entries[id.0].state == TaskState::Runnable {
            proof {
                assert(self.tasks() =~= self.tasks().update(id.0 as int, (TaskState::Runnable, self.tasks()[id.0 as int].1)));
            }
            return;
        }
        self.set_state(id, TaskState::Runnable);
    }

    /// Task `id` went to sleep.
    pub fn task_sleeping(&mut self, id: TaskId)
        requires
            old(self).wf(),
            id.0 < old(self).tasks().len(),
        ensures
            final(self).wf(),
            final(self).tasks() == old(self).tasks().update(id.0 as int, (TaskState::Sleeping, old(self).tasks()[id.0 as int].1)),
    {
        self.set_state(id, TaskState::Sleeping);
    }

    /// Task `id` finished.
    pub fn task_finished(&mut self, id: TaskId)
        requires
            old(self).wf(),
            id.0 < old(self).tasks().len(),
        ensures
            final(self).wf(),
            final(self).tasks() == old(self).tasks().update(id.0 as int, (TaskState::Finished, old(self).tasks()[id.0 as int].1)),
    {
        self.set_state(id, TaskState::Finished);
    }

    /// Task `id` was detached.
    pub fn task_detached(&mut self, id: TaskId)
        requires
            old(self).wf(),
            id.0 < old(self).tasks().len(),
        ensures
            final(self).wf(),
            final(self).tasks() == old(self).tasks().update(id.0 as int, (old(self).tasks()[id.0 as int].0, true)),
    {
        let ghost t0 = self.tasks();
        let entry = self.entries[id.0];
        self.entries.set(id.0, TaskEntry { detached: true, ..entry });
        self.recompute_aggregates();
        proof {
            let t = self.tasks();
            assert(t =~= t0.update(id.0 as int, (t0[id.0 as int].0, true)));
            let n = self.runnable@;
            assert forall|k: int| 0 <= k < n.len() implies #[trigger] n[k].0 < t.len() && in_runnable_set(t[n[k].0 as int].0) by {
                assert(n[k].0 < t0.len() && in_runnable_set(t0[n[k].0 as int].0));
            }
            assert forall|i: int| 0 <= i < t.len() && in_runnable_set(#[trigger] t[i].0) implies has_id(n, i) by {
                assert(in_runnable_set(t0[i].0));
            }
            assert forall|i: int| 0 <= i < self.entries@.len() implies (#[trigger] self.entries@[i]).in_runnable_set
                == in_runnable_set(self.entries@[i].state) by {
                if i != id.0 {
                    assert(self.entries@[i] == old(self).entries@[i]);
                }
            }
        }
    }

    /// Whether the execution should finish: no task is truly runnable, or the runnable tasks are
    /// all detached and every attached task has finished.
    pub fn should_finish(&self) -> (r: bool)
        requires
            self.wf(),
        ensures
            r == should_finish_spec(self.tasks()),
    {
        !self.any_truly_runnable || (!self.unfinished_attached && self.all_runnable_detached)
    }

    /// Whether the exit of task `current` ends the execution before the unfinished detached
    /// tasks finish, so that the exit is a visible step. The main task's exit always counts.
    pub fn exit_current_truncates_execution(&self, current: TaskId) -> (r: bool)
        requires
            current.0 < self.tasks().len(),
        ensures
            r == exit_truncates(self.tasks(), current),
    {
        if current.0 == 0 {
            return true;
        }
        if self.entries[current.0].detached {
            return false;
        }
        let ghost tasks = self.tasks();
        let mut single_unfinished_attached = false;
        let mut has_unfinished_detached = false;
        let mut i: usize = 0;
        while i < self.entries.len()
            invariant
                i <= self.entries@.len(),
                tasks == self.tasks(),
                current.0 != 0,
                current.0 < tasks.len(),
                !tasks[current.0 as int].1,
                unfinished_attached_count(tasks.take(i as int)) <= 1,
                single_unfinished_attached == (unfinished_attached_count(tasks.take(i as int)) == 1),
                has_unfinished_detached == unfinished_detached(tasks.take(i as int)),
            decreases self.entries@.len() - i,
        {
            let finished = match self.entries[i].state {
                TaskState::Finished => true,
                _ => false,
            };
            let detached = self.entries[i].detached;
            let unfinished_attached = !finished && !detached;
            proof {
                assert(tasks.take(i + 1).drop_last() =~= tasks.take(i as int));
                assert(tasks.take(i + 1).last() == tasks[i as int]);
                assert(tasks[i as int] == (self.entries@[i as int].state, self.entries@[i as int].detached));
            }
            if single_unfinished_attached && unfinished_attached {
                proof {
                    lemma_unfinished_attached_prefix(tasks, i + 1);
                }
                return false;
            }
            proof {
                let prefix = tasks.take(i as int);
                let next = tasks.take(i + 1);
                if unfinished_detached(next) {
                    let k = choose|k: int| 0 <= k < next.len() && #[trigger] next[k].0 != TaskState::Finished && next[k].1;
                    if k < i {
                        assert(prefix[k] == next[k]);
                    }
                }
                if unfinished_detached(prefix) {
                    let k = choose|k: int| 0 <= k < prefix.len() && #[trigger] prefix[k].0 != TaskState::Finished && prefix[k].1;
                    assert(next[k] == prefix[k]);
                }
                if !finished && detached {
                    assert(next[i as int].0 != TaskState::Finished && next[i as int].1);
                }
            }
            single_unfinished_attached = single_unfinished_attached || unfinished_attached;
            has_unfinished_detached = has_unfinished_detached || (!finished && detached);
            i = i + 1;
        }
        proof {
            assert(tasks.take(i as int) =~= tasks);
        }
        has_unfinished_detached && single_unfinished_attached
    }

    /// The runnable set: the runnable tasks and the blocked ones that may wake spuriously, in
    /// increasing id order.
    pub fn runnable_tasks(&self) -> (r: &[TaskId])
        requires
            self.wf(),
        ensures
            r@ == self.runnable(),
            is_runnable_set(r@, self.tasks()),
    {
        self.runnable.as_slice()
    }
}

} // verus!
