//! The decision the runtime takes at each scheduling point of an execution: whether the step
//! bound was reached, whether the execution is over, and otherwise which task the scheduler picks
//! among the runnable ones. Running the tasks is the runtime's part.
use vstd::prelude::*;
use crate::task::{TaskId, TaskState};
use crate::config::MaxSteps;
use crate::scheduler::{Scheduler, Task};
use crate::task_manager::{in_runnable_set, should_finish_spec};
use crate::schedule::{CurrentSchedule, ScheduleStep, ScheduleView};

verus! {

/// The task an execution runs next.
#[derive(Clone, Copy, Debug, PartialEq, Eq, Structural)]
pub enum ScheduledTask {
    /// No decision was taken yet at this point.
    Undecided,
    /// The task to run next.
    Task(TaskId),
    /// The scheduler asked to stop the execution.
    Stopped,
    /// Every task has finished, or none can make progress.
    Finished,
}

/// Why a step fails the execution.
#[derive(Clone, Copy, Debug, PartialEq, Eq, Structural)]
pub enum StepError {
    /// The task run panicked; the caller holds what it panicked with.
    TaskFailure,
    /// The scheduler took no decision.
    SchedulingError,
    /// No task can make progress.
    Deadlock,
    /// The execution took more steps than allowed.
    StepBoundExceeded,
    /// A task switched out while unwinding a panic, and the test asked to return at once.
    TaskPanicEarlyReturn,
}

/// How an execution goes on after a task ran for one step without failing.
#[derive(Clone, Copy, Debug, PartialEq, Eq, Structural)]
pub enum StepOutcome {
    /// The task finished: it is marked finished and the execution goes on.
    FinishTask,
    /// The task yielded: the execution goes on.
    Continue,
}

/// The decision at a scheduling point: the task that runs next, and whether it must first be
/// woken, being blocked but allowed to wake spuriously.
#[derive(Clone, Copy, Debug, PartialEq, Eq, Structural)]
pub struct ScheduleDecision {
    pub next: ScheduledTask,
    pub unblock: bool,
}

/// The states of the tasks, with whether each is detached.
pub open spec fn task_states(tasks: Seq<(Task, TaskState, bool)>) -> Seq<(TaskState, bool)> {
    Seq::new(tasks.len(), |i: int| (tasks[i].1, tasks[i].2))
}

/// The tasks offered to the scheduler, in order: the runnable ones and the blocked ones that may
/// wake spuriously.
pub open spec fn offered(tasks: Seq<(Task, TaskState, bool)>) -> Seq<Task>
    decreases tasks.len(),
{
    if tasks.len() == 0 {
        Seq::empty()
    } else {
        let rest = offered(tasks.drop_last());
        if in_runnable_set(tasks.last().1) { rest.push(tasks.last().0) } else { rest }
    }
}

/// The state of the first task from `from` on with id `id`, if any.
pub open spec fn state_of_from(tasks: Seq<(Task, TaskState, bool)>, id: TaskId, from: int) -> Option<TaskState>
    decreases tasks.len() - from,
{
    if from < 0 || from >= tasks.len() {
        None
    } else if tasks[from].0.id == id {
        Some(tasks[from].1)
    } else {
        state_of_from(tasks, id, from + 1)
    }
}

/// The state of the first task with id `id`, if any.
pub open spec fn state_of(tasks: Seq<(Task, TaskState, bool)>, id: TaskId) -> Option<TaskState> {
    state_of_from(tasks, id, 0)
}

/// Whether the step bound stops the execution here: after `steps` steps under `max_steps`.
pub open spec fn bound_reached(max_steps: MaxSteps, steps: nat) -> bool {
    match max_steps {
        MaxSteps::FailAfter(m) => steps >= m,
        MaxSteps::ContinueAfter(m) => steps >= m,
        MaxSteps::Unbounded => false,
    }
}

/// The decision that the scheduler's answer `c` gives: the task it picks, woken first if it is
/// blocked, or a stop where it picks none.
pub open spec fn decision_of(c: Option<TaskId>, tasks: Seq<(Task, TaskState, bool)>) -> ScheduleDecision {
    match c {
        Some(id) => ScheduleDecision {
            next: ScheduledTask::Task(id),
            unblock: state_of(tasks, id) matches Some(TaskState::Blocked { .. }),
        },
        None => ScheduleDecision { next: ScheduledTask::Stopped, unblock: false },
    }
}

/// Takes the decision at a scheduling point. A decision already taken at this point stands. The
/// step bound either fails the execution or stops it; an execution where no task is truly
/// runnable, or where only detached tasks can run and every attached task has finished, is
/// finished; otherwise the scheduler picks among the offered tasks, and a task it picks that is
/// blocked is woken first.
pub fn schedule<S: Scheduler>(
    scheduler: &mut S,
    decided: ScheduledTask,
    max_steps: MaxSteps,
    steps: usize,
    tasks: Vec<(Task, TaskState, bool)>,
    current: Option<TaskId>,
    is_yielding: bool,
) -> (r: Result<ScheduleDecision, StepError>)
    requires
        old(scheduler).wf(),
        decided == ScheduledTask::Undecided && !bound_reached(max_steps, steps as nat)
            && !should_finish_spec(task_states(tasks@))
            ==> old(scheduler).can_choose(offered(tasks@), current, is_yielding),
    ensures
        final(scheduler).wf(),
        decided != ScheduledTask::Undecided ==> r == Ok::<ScheduleDecision, StepError>(ScheduleDecision { next: decided, unblock: false }),
        decided == ScheduledTask::Undecided ==> (match max_steps {
            MaxSteps::FailAfter(m) if steps >= m => r == Err::<ScheduleDecision, StepError>(StepError::StepBoundExceeded),
            MaxSteps::ContinueAfter(m) if steps >= m => r == Ok::<ScheduleDecision, StepError>(ScheduleDecision { next: ScheduledTask::Stopped, unblock: false }),
            _ => if should_finish_spec(task_states(tasks@)) {
                r == Ok::<ScheduleDecision, StepError>(ScheduleDecision { next: ScheduledTask::Finished, unblock: false })
            } else {
                (exists|c: Option<TaskId>| #[trigger] old(scheduler).next_task_gives(offered(tasks@), current, is_yielding, c)
                    && r == Ok::<ScheduleDecision, StepError>(decision_of(c, tasks@)))
                && (r matches Ok(d) && match d.next {
                    ScheduledTask::Task(id) => crate::scheduler::has_task(offered(tasks@), id)
                        && d.unblock == (state_of(tasks@, id) matches Some(TaskState::Blocked { .. })),
                    ScheduledTask::Stopped => !d.unblock,
                    _ => false,
                })
            },
        }),
{
    if decided != ScheduledTask::Undecided {
        return Ok(ScheduleDecision { next: decided, unblock: false });
    }
    match max_steps {
        MaxSteps::FailAfter(m) => {
            if steps >= m {
                return Err(StepError::StepBoundExceeded);
            }
        },
        MaxSteps::ContinueAfter(m) => {
            if steps >= m {
                return Ok(ScheduleDecision { next: ScheduledTask::Stopped, unblock: false });
            }
        },
        MaxSteps::Unbounded => {},
    }
    let ghost all = tasks@;
    let mut unfinished_attached = false;
    let mut all_runnable_detached = true;
    let mut any_runnable = false;
    let mut states: Vec<(TaskId, TaskState)> = Vec::new();
    let mut runnable: Vec<Task> = Vec::new();
    let mut rest = tasks;
    let mut i: usize = 0;
    let n = rest.len();
    while rest.len() > 0
        invariant
            n == all.len(),
            rest@.len() + i == n,
            rest@ == all.subrange(i as int, n as int),
            runnable@ == offered(all.take(i as int)),
            any_runnable == crate::task_manager::any_truly_runnable(task_states(all.take(i as int))),
            unfinished_attached == crate::task_manager::unfinished_attached(task_states(all.take(i as int))),
            all_runnable_detached == crate::task_manager::all_runnable_detached(task_states(all.take(i as int))),
            states@ == Seq::new(i as nat, |k: int| (all[k].0.id, all[k].1)),
        decreases rest@.len(),
    {
        let (task, state, detached) = rest.remove(0);
        proof {
            assert((task, state, detached) == all[i as int]);
            assert(all.take(i + 1).drop_last() =~= all.take(i as int));
            assert(all.take(i + 1).last() == all[i as int]);
            assert(rest@ =~= all.subrange(i + 1, n as int));
        }
        let finished = state == TaskState::Finished;
        let is_runnable = state == TaskState::Runnable;
        let spurious = state == (TaskState::Blocked { allow_spurious_wakeups: true });
        if !finished && !detached {
            unfinished_attached = true;
        }
        if is_runnable {
            any_runnable = true;
            if !detached {
                all_runnable_detached = false;
            }
        }
        let ghost prefix = task_states(all.take(i as int));
        let ghost next_prefix = task_states(all.take(i + 1));
        proof {
            assert(next_prefix =~= prefix.push((state, detached)));
            lemma_push_flags(prefix, (state, detached));
        }
        states.push((task.id, state));
        if is_runnable || spurious {
            runnable.push(task);
        }
        i = i + 1;
        proof {
            assert(states@ =~= Seq::new(i as nat, |k: int| (all[k].0.id, all[k].1)));
        }
    }
    proof {
        assert(all.take(i as int) =~= all);
    }
    if !any_runnable || (!unfinished_attached && all_runnable_detached) {
        return Ok(ScheduleDecision { next: ScheduledTask::Finished, unblock: false });
    }
    let c = scheduler.next_task(runnable.as_slice(), current, is_yielding);
    proof {
        assert(old(scheduler).next_task_gives(offered(all), current, is_yielding, c));
    }
    match c {
        None => Ok(ScheduleDecision { next: ScheduledTask::Stopped, unblock: false }),
        Some(id) => {
            let blocked = match find_state(&states, id) {
                Some(TaskState::Blocked { .. }) => true,
                _ => false,
            };
            proof {
                lemma_state_of(all, id, 0);
            }
            Ok(ScheduleDecision { next: ScheduledTask::Task(id), unblock: blocked })
        },
    }
}

/// Whether the flags of a sequence of task states extend as expected by one more task.
proof fn lemma_push_flags(prefix: Seq<(TaskState, bool)>, x: (TaskState, bool))
    ensures
        crate::task_manager::any_truly_runnable(prefix.push(x))
            == (crate::task_manager::any_truly_runnable(prefix) || x.0 == TaskState::Runnable),
        crate::task_manager::unfinished_attached(prefix.push(x))
            == (crate::task_manager::unfinished_attached(prefix) || (x.0 != TaskState::Finished && !x.1)),
        crate::task_manager::all_runnable_detached(prefix.push(x))
            == (crate::task_manager::all_runnable_detached(prefix) && (x.0 == TaskState::Runnable ==> x.1)),
{
    let p = prefix.push(x);
    assert(p[prefix.len() as int] == x);
    if crate::task_manager::any_truly_runnable(prefix) {
        let k = choose|k: int| 0 <= k < prefix.len() && #[trigger] prefix[k].0 == TaskState::Runnable;
        assert(p[k] == prefix[k]);
    }
    if crate::task_manager::any_truly_runnable(p) && x.0 != TaskState::Runnable {
        let k = choose|k: int| 0 <= k < p.len() && #[trigger] p[k].0 == TaskState::Runnable;
        assert(prefix[k] == p[k]);
    }
    if crate::task_manager::unfinished_attached(prefix) {
        let k = choose|k: int| 0 <= k < prefix.len() && #[trigger] prefix[k].0 != TaskState::Finished && !prefix[k].1;
        assert(p[k] == prefix[k]);
    }
    if crate::task_manager::unfinished_attached(p) && !(x.0 != TaskState::Finished && !x.1) {
        let k = choose|k: int| 0 <= k < p.len() && #[trigger] p[k].0 != TaskState::Finished && !p[k].1;
        assert(prefix[k] == p[k]);
    }
    assert forall|k: int| 0 <= k < prefix.len() implies #[trigger] p[k] == prefix[k] by {}
    if !crate::task_manager::all_runnable_detached(p) {
        let k = choose|k: int| !(0 <= k < p.len() && #[trigger] p[k].0 == TaskState::Runnable ==> p[k].1);
        if k < prefix.len() {
            assert(prefix[k] == p[k]);
        }
    }
    if !crate::task_manager::all_runnable_detached(prefix) {
        let k = choose|k: int| !(0 <= k < prefix.len() && #[trigger] prefix[k].0 == TaskState::Runnable ==> prefix[k].1);
        assert(p[k] == prefix[k]);
    }
}

/// The state of the first task with id `id` among the pairs.
fn find_state(states: &Vec<(TaskId, TaskState)>, id: TaskId) -> (r: Option<TaskState>)
    ensures
        r == first_state(states@, id),
{
    let mut i: usize = 0;
    while i < states.len()
        invariant
            i <= states@.len(),
            first_state(states@, id) == first_state_from(states@, id, i as int),
        decreases states@.len() - i,
    {
        if states[i].0 == id {
            return Some(states[i].1);
        }
        i = i + 1;
    }
    None
}

/// The state of the first pair with id `id`, from `from` on.
pub open spec fn first_state_from(states: Seq<(TaskId, TaskState)>, id: TaskId, from: int) -> Option<TaskState>
    decreases states.len() - from,
{
    if from < 0 || from >= states.len() {
        None
    } else if states[from].0 == id {
        Some(states[from].1)
    } else {
        first_state_from(states, id, from + 1)
    }
}

/// The state of the first pair with id `id`.
pub open spec fn first_state(states: Seq<(TaskId, TaskState)>, id: TaskId) -> Option<TaskState> {
    first_state_from(states, id, 0)
}

/// The first state found by id among the pairs is the state of the first task with that id.
proof fn lemma_state_of(tasks: Seq<(Task, TaskState, bool)>, id: TaskId, from: int)
    requires
        0 <= from,
    ensures
        first_state_from(Seq::new(tasks.len(), |k: int| (tasks[k].0.id, tasks[k].1)), id, from) == state_of_from(tasks, id, from),
    decreases tasks.len() - from,
{
    if from < tasks.len() && tasks[from].0.id != id {
        lemma_state_of(tasks, id, from + 1);
    }
}

/// Whether code that runs while a task unwinds or after the execution stopped, such as a drop
/// handler, returns at once rather than call into the scheduler: while the thread panics, or once
/// the execution was stopped. A finished execution is never asked.
pub fn should_stop(panicking: bool, current: ScheduledTask) -> (r: bool)
    requires
        panicking || current != ScheduledTask::Finished,
    ensures
        r == (panicking || current == ScheduledTask::Stopped),
{
    panicking || current == ScheduledTask::Stopped
}

/// Makes the decided task the current one: the decision is taken from `next`, which is then
/// undecided again, and a switch to a task is recorded as the next step of the schedule.
pub fn advance_to_next_task(next: &mut ScheduledTask, schedule: &mut CurrentSchedule) -> (r: ScheduledTask)
    requires
        *old(next) != ScheduledTask::Undecided,
    ensures
        r == *old(next),
        *final(next) == ScheduledTask::Undecided,
        final(schedule).view() == (match r {
            ScheduledTask::Task(id) => ScheduleView { steps: old(schedule).view().steps.push(ScheduleStep::Task(id)), ..old(schedule).view() },
            _ => old(schedule).view(),
        }),
{
    let current = *next;
    *next = ScheduledTask::Undecided;
    match current {
        ScheduledTask::Task(id) => schedule.push_task(id),
        _ => {},
    }
    current
}

/// What the decision at a scheduling point leads to: the task to run next, the end of the
/// execution (`None`), or its failure. An execution the scheduler declares finished while an
/// attached task has not finished is deadlocked; a point where nothing was decided is a
/// scheduler's error.
pub fn after_schedule(next: ScheduledTask, tasks: &Vec<(Task, TaskState, bool)>) -> (r: Result<Option<TaskId>, StepError>)
    ensures
        next matches ScheduledTask::Task(id) ==> r == Ok::<Option<TaskId>, StepError>(Some(id)),
        next == ScheduledTask::Stopped ==> r == Ok::<Option<TaskId>, StepError>(None),
        next == ScheduledTask::Undecided ==> r == Err::<Option<TaskId>, StepError>(StepError::SchedulingError),
        next == ScheduledTask::Finished ==> if crate::task_manager::unfinished_attached(task_states(tasks@)) {
            r == Err::<Option<TaskId>, StepError>(StepError::Deadlock)
        } else {
            r == Ok::<Option<TaskId>, StepError>(None)
        },
{
    match next {
        ScheduledTask::Task(id) => Ok(Some(id)),
        ScheduledTask::Stopped => Ok(None),
        ScheduledTask::Undecided => Err(StepError::SchedulingError),
        ScheduledTask::Finished => {
            let ghost ts = task_states(tasks@);
            let mut i: usize = 0;
            while i < tasks.len()
                invariant
                    i <= tasks@.len(),
                    next == ScheduledTask::Finished,
                    ts == task_states(tasks@),
                    forall|k: int| 0 <= k < i ==> !(#[trigger] ts[k].0 != TaskState::Finished && !ts[k].1),
                decreases tasks@.len() - i,
            {
                let finished = match tasks[i].1 {
                    TaskState::Finished => true,
                    _ => false,
                };
                if !finished && !tasks[i].2 {
                    proof {
                        assert(ts[i as int].0 != TaskState::Finished && !ts[i as int].1);
                    }
                    return Err(StepError::Deadlock);
                }
                i = i + 1;
            }
            Ok(None)
        },
    }
}

/// What follows a step of a task: a task that panicked fails the execution; one that finished
/// is marked finished; one that switched out while its thread unwinds a panic stops the
/// execution at once where the test asks for that, rather than risk a second panic in another
/// task; otherwise the execution goes on.
pub fn after_resume(failed: bool, finished: bool, panicking: bool, immediately_return_on_panic: bool) -> (r: Result<StepOutcome, StepError>)
    ensures
        failed ==> r == Err::<StepOutcome, StepError>(StepError::TaskFailure),
        !failed && finished ==> r == Ok::<StepOutcome, StepError>(StepOutcome::FinishTask),
        !failed && !finished ==> if immediately_return_on_panic && panicking {
            r == Err::<StepOutcome, StepError>(StepError::TaskPanicEarlyReturn)
        } else {
            r == Ok::<StepOutcome, StepError>(StepOutcome::Continue)
        },
{
    if failed {
        Err(StepError::TaskFailure)
    } else if finished {
        Ok(StepOutcome::FinishTask)
    } else if immediately_return_on_panic && panicking {
        Err(StepError::TaskPanicEarlyReturn)
    } else {
        Ok(StepOutcome::Continue)
    }
}

} // verus!
