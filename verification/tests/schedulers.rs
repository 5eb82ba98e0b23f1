use rand::RngCore;
use shuttle::annotation::AnnotationScheduler;
use shuttle::clock::VectorClock;
use shuttle::config::MaxSteps;
use shuttle::metrics::MetricsScheduler;
use shuttle::random::RandomScheduler;
use shuttle::replay::ReplayScheduler;
use shuttle::round_robin::RoundRobinScheduler;
use shuttle::schedule::Schedule;
use shuttle::scheduler::{EventKind, Scheduler, Task};
use shuttle::serialization::serialize_schedule;
use shuttle::task::{TaskId, TaskState};
use shuttle::urw::UniformRandomScheduler;
use shuttle::pos::PosScheduler;
use shuttle::pct::PctScheduler;
use shuttle::execution::{after_resume, after_schedule, schedule, ScheduleDecision, ScheduledTask, StepError, StepOutcome};

fn tasks(ids: &[usize]) -> Vec<Task> {
    ids.iter()
        .map(|&i| Task::new(TaskId(i), VectorClock::new(), EventKind::Unknown))
        .collect()
}

#[test]
fn round_robin_runs_tasks_in_turn() {
    let mut s = RoundRobinScheduler::new(1);
    assert!(s.new_execution().is_some());
    let ts = tasks(&[0, 1, 2]);
    assert_eq!(s.next_task(&ts, None, false), Some(TaskId(0)));
    assert_eq!(s.next_task(&ts, Some(TaskId(0)), false), Some(TaskId(1)));
    assert_eq!(s.next_task(&ts, Some(TaskId(2)), false), Some(TaskId(0)));
    let ts = tasks(&[0, 2]);
    assert_eq!(s.next_task(&ts, Some(TaskId(1)), false), Some(TaskId(2)));
    assert!(s.new_execution().is_none());
}

#[test]
fn random_scheduler_is_reproducible_from_its_seed() {
    let ts = tasks(&[0, 1, 2, 3]);
    let mut a = RandomScheduler::new_from_seed(42, 3);
    let mut b = RandomScheduler::new_from_seed(42, 3);
    for _ in 0..3 {
        assert!(a.new_execution().is_some());
        assert!(b.new_execution().is_some());
        assert_eq!(a.seed(), b.seed());
        for _ in 0..20 {
            let x = a.next_task(&ts, None, false);
            assert!(x.is_some());
            assert_eq!(x, b.next_task(&ts, None, false));
            assert_eq!(a.next_u64(), b.next_u64());
        }
    }
    assert!(a.new_execution().is_none());
}

#[test]
fn a_replay_hands_out_the_random_values_of_the_execution_it_replays() {
    let ts = tasks(&[0, 1]);
    let mut random = RandomScheduler::new_from_seed(9, 1);
    let recorded = random.new_execution().unwrap();
    let mut sched = Schedule::new(recorded.seed);
    let mut values = Vec::new();
    for _ in 0..3 {
        let t = random.next_task(&ts, None, false).unwrap();
        sched.push_task(t);
        values.push(random.next_u64());
        sched.push_random();
    }
    let mut replay = ReplayScheduler::new_from_schedule(sched.clone());
    assert!(replay.new_execution().is_some());
    for k in 0..3 {
        assert_eq!(replay.next_task(&ts, None, false), Some(match sched.steps[2 * k] {
            shuttle::schedule::ScheduleStep::Task(t) => t,
            _ => unreachable!(),
        }));
        assert_eq!(replay.next_u64(), values[k]);
    }
}

fn recorded() -> Schedule {
    let mut sched = Schedule::new(7);
    sched.push_task(TaskId(0));
    sched.push_task(TaskId(1));
    sched.push_random();
    sched.push_task(TaskId(0));
    sched
}

#[test]
fn replay_follows_the_schedule() {
    let mut r = ReplayScheduler::new_from_schedule(recorded());
    assert!(r.new_execution().is_some());
    let ts = tasks(&[0, 1]);
    assert_eq!(r.next_task(&ts, None, false), Some(TaskId(0)));
    assert_eq!(r.next_task(&ts, Some(TaskId(0)), false), Some(TaskId(1)));
    let _ = r.next_u64();
    assert_eq!(r.next_task(&ts, Some(TaskId(1)), false), Some(TaskId(0)));
    assert!(r.new_execution().is_none());
}

#[test]
fn replay_of_an_encoded_schedule_matches_the_schedule() {
    let text = serialize_schedule(&recorded());
    let mut r = ReplayScheduler::new_from_encoded(&text);
    assert!(r.new_execution().is_some());
    let ts = tasks(&[0, 1]);
    assert_eq!(r.next_task(&ts, None, false), Some(TaskId(0)));
    assert_eq!(r.next_task(&ts, None, false), Some(TaskId(1)));
}

#[test]
fn incomplete_replay_stops_at_the_end() {
    let mut sched = Schedule::new(1);
    sched.push_task(TaskId(0));
    let mut r = ReplayScheduler::new_from_schedule(sched);
    r.set_allow_incomplete();
    assert!(r.new_execution().is_some());
    let ts = tasks(&[0, 1]);
    assert_eq!(r.next_task(&ts, None, false), Some(TaskId(0)));
    assert_eq!(r.next_task(&ts, None, false), None);
}

#[test]
fn replay_continues_under_another_scheduler() {
    let mut sched = Schedule::new(1);
    sched.push_task(TaskId(1));
    let mut r = ReplayScheduler::new_from_schedule(sched);
    r.set_continue_after_schedule_with(Box::new(RoundRobinScheduler::new(1)));
    assert!(r.new_execution().is_some());
    let ts = tasks(&[0, 1]);
    assert_eq!(r.next_task(&ts, None, false), Some(TaskId(1)));
    assert_eq!(r.next_task(&ts, Some(TaskId(1)), false), Some(TaskId(0)));
}

#[test]
fn two_replays_of_one_schedule_continue_alike() {
    let mut sched = Schedule::new(42);
    sched.push_task(TaskId(0));
    let mut a = ReplayScheduler::new_from_schedule(sched.clone());
    let mut b = ReplayScheduler::new_from_schedule(sched);
    a.set_continue_after_schedule();
    b.set_continue_after_schedule();
    assert!(a.new_execution().is_some());
    assert!(b.new_execution().is_some());
    let ts = tasks(&[0, 1, 2, 3]);
    assert_eq!(a.next_task(&ts, None, false), Some(TaskId(0)));
    assert_eq!(b.next_task(&ts, None, false), Some(TaskId(0)));
    let mut from_a = Vec::new();
    let mut from_b = Vec::new();
    for _ in 0..20 {
        from_a.push(a.next_task(&ts, None, false));
        from_b.push(b.next_task(&ts, None, false));
    }
    assert_eq!(from_a, from_b);
    assert!(from_a.iter().all(|t| t.is_some()));
    let mut fresh = RandomScheduler::new_from_seed(42, 1);
    let from_random: Vec<Option<TaskId>> = (0..20).map(|_| fresh.next_task(&ts, None, false)).collect();
    assert_eq!(from_a, from_random);
}

#[test]
fn replay_skips_steps_not_causally_before_the_target() {
    let mut sched = Schedule::new(3);
    sched.push_task(TaskId(1));
    sched.push_random();
    sched.push_task(TaskId(0));
    let mut r = ReplayScheduler::new_from_schedule(sched);
    r.set_target_clock(VectorClock::from(&[1, 0]));
    assert!(r.new_execution().is_some());
    let ts = vec![
        Task::new(TaskId(0), VectorClock::from(&[1, 0]), EventKind::Unknown),
        Task::new(TaskId(1), VectorClock::from(&[0, 5]), EventKind::Unknown),
    ];
    assert_eq!(r.next_task(&ts, None, false), Some(TaskId(0)));
}

#[test]
fn metrics_count_steps_switches_and_events() {
    let mut m = MetricsScheduler::new(RoundRobinScheduler::new(2));
    assert!(m.new_execution().is_some());
    let ts = vec![
        Task::new(TaskId(0), VectorClock::new(), EventKind::Spawn),
        Task::new(TaskId(1), VectorClock::new(), EventKind::Yield),
    ];
    assert_eq!(m.next_task(&ts, None, false), Some(TaskId(0)));
    assert_eq!(m.next_task(&ts, Some(TaskId(0)), false), Some(TaskId(1)));
    let _ = m.next_u64();
    assert_eq!(m.step_count(), 3);
    assert_eq!(m.context_switch_count(), 1);
    assert_eq!(m.preemption_count(), 1);
    assert_eq!(m.random_choice_count(), 1);
    assert_eq!(m.event_count(EventKind::Spawn), 1);
    assert_eq!(m.event_count(EventKind::Yield), 1);
    assert!(m.new_execution().is_some());
    assert_eq!(m.iteration_count(), 2);
    assert_eq!(m.step_count(), 0);
    let summary = m.steps_summary();
    assert_eq!((summary.min(), summary.max(), summary.sum(), summary.count()), (3, 3, 3, 1));
}

#[test]
fn annotation_scheduler_makes_the_inner_choices() {
    let mut a = AnnotationScheduler::new(RoundRobinScheduler::new(1));
    assert!(a.new_execution().is_some());
    let ts = tasks(&[3, 5]);
    assert_eq!(a.next_task(&ts, Some(TaskId(3)), false), Some(TaskId(5)));
}

fn lineage(id: usize, sig: u64, parent_sig: u64, parent: Option<usize>) -> Task {
    Task::with_lineage(TaskId(id), VectorClock::new(), EventKind::Unknown, sig, parent_sig, parent.map(TaskId))
}

#[test]
fn uniform_random_walk_estimates_then_weighs_tasks() {
    let mut a = UniformRandomScheduler::new_from_seed(11, 3);
    let mut b = UniformRandomScheduler::new_from_seed(11, 3);
    // First execution: a plain random walk that counts events by spawn site.
    assert!(a.new_execution().is_some());
    assert!(b.new_execution().is_some());
    let main = vec![lineage(0, 100, 0, None)];
    let both = vec![lineage(0, 100, 0, None), lineage(1, 200, 100, Some(0))];
    assert_eq!(a.next_task(&main, None, false), Some(TaskId(0)));
    assert_eq!(b.next_task(&main, None, false), Some(TaskId(0)));
    for _ in 0..10 {
        let x = a.next_task(&both, None, false);
        assert!(x == Some(TaskId(0)) || x == Some(TaskId(1)));
        assert_eq!(x, b.next_task(&both, None, false));
    }
    // Later executions weigh each task by its estimated remaining events.
    for _ in 0..2 {
        assert!(a.new_execution().is_some());
        assert!(b.new_execution().is_some());
        assert_eq!(a.next_task(&main, None, false), Some(TaskId(0)));
        assert_eq!(b.next_task(&main, None, false), Some(TaskId(0)));
        for _ in 0..10 {
            let x = a.next_task(&both, None, false);
            assert!(x == Some(TaskId(0)) || x == Some(TaskId(1)));
            assert_eq!(x, b.next_task(&both, None, false));
        }
    }
    assert!(a.new_execution().is_none());
}

#[test]
fn partial_order_sampling_is_reproducible() {
    let mut a = PosScheduler::new_from_seed(5, 2, 214748);
    let mut b = PosScheduler::new_from_seed(5, 2, 214748);
    let ts = vec![
        Task::new(TaskId(0), VectorClock::new(), EventKind::AtomicWrite).on_resource(1),
        Task::new(TaskId(1), VectorClock::new(), EventKind::AtomicRead).on_resource(1),
        Task::new(TaskId(2), VectorClock::new(), EventKind::Yield),
    ];
    for _ in 0..2 {
        assert!(a.new_execution().is_some());
        assert!(b.new_execution().is_some());
        assert_eq!(a.seed(), b.seed());
        for _ in 0..30 {
            let x = a.next_task(&ts, None, false);
            assert!(matches!(x, Some(TaskId(0)) | Some(TaskId(1)) | Some(TaskId(2))));
            assert_eq!(x, b.next_task(&ts, None, false));
        }
        assert_eq!(a.next_task(&ts[2..], None, false), Some(TaskId(2)));
        assert_eq!(b.next_task(&ts[2..], None, false), Some(TaskId(2)));
    }
    assert!(a.new_execution().is_none());
    assert_eq!(a.seed(), None);
    assert_eq!(a.next_task(&[], None, false), None);
}

#[test]
fn pct_runs_the_oldest_task_first_then_follows_priorities() {
    let mut a = PctScheduler::new_from_seed(9, 3, 3);
    let mut b = PctScheduler::new_from_seed(9, 3, 3);
    let ts = tasks(&[0, 1, 2]);
    // The first execution follows the initial priorities: lowest id first.
    assert!(a.new_execution().is_some());
    assert!(b.new_execution().is_some());
    assert_eq!(a.next_task(&ts, Some(TaskId(0)), false), Some(TaskId(0)));
    assert_eq!(b.next_task(&ts, Some(TaskId(0)), false), Some(TaskId(0)));
    assert_eq!(a.next_task(&ts[1..], Some(TaskId(0)), false), Some(TaskId(1)));
    assert_eq!(b.next_task(&ts[1..], Some(TaskId(0)), false), Some(TaskId(1)));
    // Later executions shuffle the priorities the same way for the same seed.
    for _ in 0..2 {
        assert!(a.new_execution().is_some());
        assert!(b.new_execution().is_some());
        for _ in 0..5 {
            let x = a.next_task(&ts, Some(TaskId(0)), false);
            assert!(x.is_some());
            assert_eq!(x, b.next_task(&ts, Some(TaskId(0)), false));
        }
    }
    assert!(a.new_execution().is_none());
    // A task beyond the known ones gets a priority too.
    let mut c = PctScheduler::new_from_seed(1, 2, 1);
    assert!(c.new_execution().is_some());
    assert_eq!(c.next_task(&tasks(&[20]), None, false), Some(TaskId(20)));
}

#[test]
fn scheduling_points_decide_bounds_deadlocks_and_choices() {
    let blocked_spurious = TaskState::Blocked { allow_spurious_wakeups: true };
    let entry = |i: usize, state: TaskState, detached: bool| {
        (Task::new(TaskId(i), VectorClock::new(), EventKind::Unknown), state, detached)
    };
    let mut rr = RoundRobinScheduler::new(1);
    assert!(rr.new_execution().is_some());

    let d = schedule(&mut rr, ScheduledTask::Task(TaskId(3)), MaxSteps::Unbounded, 0, vec![], None, false);
    assert_eq!(d, Ok(ScheduleDecision { next: ScheduledTask::Task(TaskId(3)), unblock: false }));

    let tasks = vec![entry(0, TaskState::Runnable, false)];
    let d = schedule(&mut rr, ScheduledTask::Undecided, MaxSteps::FailAfter(10), 10, tasks, None, false);
    assert_eq!(d, Err(StepError::StepBoundExceeded));

    let tasks = vec![entry(0, TaskState::Runnable, false)];
    let d = schedule(&mut rr, ScheduledTask::Undecided, MaxSteps::ContinueAfter(10), 12, tasks, None, false);
    assert_eq!(d, Ok(ScheduleDecision { next: ScheduledTask::Stopped, unblock: false }));

    // Only a spuriously-waking task left: treated as finished (a deadlock for the runtime).
    let tasks = vec![entry(0, blocked_spurious, false), entry(1, TaskState::Finished, false)];
    let d = schedule(&mut rr, ScheduledTask::Undecided, MaxSteps::Unbounded, 0, tasks, None, false);
    assert_eq!(d, Ok(ScheduleDecision { next: ScheduledTask::Finished, unblock: false }));

    // A spuriously-waking task that is picked is woken first.
    let tasks = vec![entry(0, blocked_spurious, false), entry(1, TaskState::Runnable, false)];
    let d = schedule(&mut rr, ScheduledTask::Undecided, MaxSteps::Unbounded, 0, tasks, Some(TaskId(1)), false);
    assert_eq!(d, Ok(ScheduleDecision { next: ScheduledTask::Task(TaskId(0)), unblock: true }));
}

#[test]
fn the_first_execution_runs_on_the_seed_given() {
    let mut s = RandomScheduler::new_from_seed(42, 2);
    let first = s.new_execution().unwrap();
    assert_eq!(first.seed, 42);
    assert_eq!(s.seed(), Some(42));
    let second = s.new_execution().unwrap();
    assert_ne!(second.seed, 42);
    assert!(s.new_execution().is_none());
    assert_eq!(s.seed(), None);
}

#[test]
fn a_finished_execution_with_unfinished_attached_tasks_is_deadlocked() {
    let t = |i: usize| Task::new(TaskId(i), VectorClock::new(), EventKind::Unknown);
    let tasks = vec![
        (t(0), TaskState::Blocked { allow_spurious_wakeups: false }, false),
        (t(1), TaskState::Finished, false),
    ];
    assert_eq!(after_schedule(ScheduledTask::Finished, &tasks), Err(StepError::Deadlock));
    assert_eq!(after_schedule(ScheduledTask::Task(TaskId(0)), &tasks), Ok(Some(TaskId(0))));
    assert_eq!(after_schedule(ScheduledTask::Stopped, &tasks), Ok(None));
    assert_eq!(after_schedule(ScheduledTask::Undecided, &tasks), Err(StepError::SchedulingError));
    let done = vec![(t(0), TaskState::Finished, false), (t(1), TaskState::Runnable, true)];
    assert_eq!(after_schedule(ScheduledTask::Finished, &done), Ok(None));
}

#[test]
fn what_follows_a_step() {
    assert_eq!(after_resume(true, false, true, true), Err(StepError::TaskFailure));
    assert_eq!(after_resume(false, true, true, true), Ok(StepOutcome::FinishTask));
    assert_eq!(after_resume(false, false, true, true), Err(StepError::TaskPanicEarlyReturn));
    assert_eq!(after_resume(false, false, true, false), Ok(StepOutcome::Continue));
    assert_eq!(after_resume(false, false, false, true), Ok(StepOutcome::Continue));
}

#[test]
fn metrics_record_every_count_when_an_execution_ends() {
    let mut m = MetricsScheduler::new(RoundRobinScheduler::new(3));
    assert!(m.new_execution().is_some());
    let ts = vec![Task::new(TaskId(0), VectorClock::new(), EventKind::Spawn)];
    assert_eq!(m.next_task(&ts, None, false), Some(TaskId(0)));
    let _ = m.next_u64();
    assert!(m.new_execution().is_some());
    assert_eq!((m.step_count(), m.context_switch_count(), m.random_choice_count(), m.event_count(EventKind::Spawn)), (0, 0, 0, 0));
    assert_eq!(m.steps_summary().sum(), 2);
    assert_eq!(m.next_task(&ts, None, false), Some(TaskId(0)));
    m.finish();
    assert_eq!(m.steps_summary().count(), 2);
    assert_eq!(m.step_count(), 0);
}

#[test]
fn the_generator_steps_by_its_multiplier_and_outputs_the_rotated_halves() {
    let multiplier: u128 = 0x2360_ED05_1FC6_5DA4_4385_DF64_9FCC_F645;
    let mut state: u128 = 0xcafe_f00d_d15e_a5e5_0123_4567_89ab_cdef | 1;
    let mut rng = rand_pcg::Mcg128Xsl64::new(state);
    for _ in 0..8 {
        state = state.wrapping_mul(multiplier);
        let rot = (state >> 122) as u64;
        let xsl = ((state >> 64) as u64) ^ (state as u64);
        let expected = if rot == 0 { xsl } else { (xsl >> rot) | (xsl << (64 - rot)) };
        assert_eq!(rng.next_u64(), expected);
    }
    state = state.wrapping_mul(multiplier);
    let rot = (state >> 122) as u64;
    let xsl = ((state >> 64) as u64) ^ (state as u64);
    let expected = if rot == 0 { xsl } else { (xsl >> rot) | (xsl << (64 - rot)) };
    assert_eq!(rng.next_u32(), expected as u32);
}
