use shuttle::atomic::{fence, maybe_warn_about_ordering, AtomicOrdering};
use shuttle::clock::VectorClock;
use shuttle::config::{Config, FailurePersistence, ScheduleEncoding};
use shuttle::errors::{AccessError, JoinError};
use shuttle::execution::{advance_to_next_task, should_stop, ScheduledTask};
use shuttle::failure::{begin_execution, end_execution, persist_failure, FailureReport, FailureReporter};
use shuttle::future::JoinHandle;
use shuttle::local_key::LocalKey;
use shuttle::signature::{ResourceSignature, ResourceType};
use shuttle::once::{LockedStep, Once, OnceStep};
use shuttle::round_robin::RoundRobinScheduler;
use shuttle::runner::{PortfolioRunner, PortfolioStoppableScheduler, Runner};
use shuttle::scheduler::Scheduler;
use std::sync::atomic::{AtomicBool, Ordering};
use std::sync::Arc;
use shuttle::schedule::{CurrentSchedule, Schedule};
use shuttle::serialization::{can_serialize, serialize_schedule};
use shuttle::storage::{AlreadyDestructedError, StorageKey, StorageMap};
use shuttle::switch::switch_point;
use shuttle::task::TaskId;
use shuttle::task_manager::TaskManager;
use shuttle::time::{
    from_config, ConstantSteppedTimeModel, ConstantTimeDistribution, FrozenTimeModel, Instant, TimeDistribution,
    TimeModelConfig,
};
use std::time::Duration;

#[test]
fn stepped_time_wakes_sleepers_whose_deadline_passed() {
    let mut tm = ConstantSteppedTimeModel::new(Duration::from_millis(10));
    assert!(!tm.register_sleep(Instant::simulated(Duration::from_millis(25)), 1, TaskId(0), true));
    assert!(!tm.register_sleep(Instant::simulated(Duration::from_millis(15)), 2, TaskId(1), true));
    assert!(tm.step().is_empty());
    assert_eq!(tm.step(), vec![2]);
    assert_eq!(tm.instant().elapsed(), Duration::from_millis(20));
    assert_eq!(tm.get_waiters().len(), 1);
    assert_eq!(tm.step(), vec![1]);
    assert!(tm.get_waiters().is_empty());
    // A deadline that already passed ends the sleep at once.
    assert!(tm.register_sleep(Instant::simulated(Duration::from_millis(30)), 3, TaskId(0), true));
}

#[test]
fn wake_next_jumps_to_the_earliest_deadline() {
    let mut tm = ConstantSteppedTimeModel::new(Duration::from_millis(1));
    assert_eq!(tm.wake_next(), (false, vec![]));
    tm.register_sleep(Instant::simulated(Duration::from_secs(5)), 7, TaskId(2), true);
    tm.register_sleep(Instant::simulated(Duration::from_secs(3)), 8, TaskId(1), true);
    assert_eq!(tm.wake_next(), (true, vec![8]));
    assert_eq!(tm.instant().elapsed(), Duration::from_secs(3));
    tm.new_execution();
    assert_eq!(tm.instant().elapsed(), Duration::ZERO);
    assert!(tm.get_waiters().is_empty());
}

#[test]
fn frozen_time_expires_chosen_timeouts() {
    let mut tm = FrozenTimeModel::new();
    assert!(!tm.register_sleep(Instant::simulated(Duration::from_secs(1)), 1, TaskId(0), true));
    assert!(!tm.register_sleep(Instant::simulated(Duration::from_secs(1)), 2, TaskId(1), true));
    assert_eq!(tm.trigger_timeouts(&[TaskId(1)]), vec![2]);
    assert!(tm.register_sleep(Instant::simulated(Duration::from_secs(9)), 3, TaskId(1), true));
    tm.clear_triggers();
    assert!(!tm.register_sleep(Instant::simulated(Duration::from_secs(9)), 4, TaskId(1), true));
}

#[test]
fn a_sleep_is_woken_once() {
    let mut tm = ConstantSteppedTimeModel::new(Duration::from_secs(1));
    assert!(!tm.register_sleep(Instant::simulated(Duration::from_secs(2)), 5, TaskId(0), true));
    assert!(!tm.register_sleep(Instant::simulated(Duration::from_secs(2)), 6, TaskId(1), true));
    assert!(tm.wake_frozen(5));
    assert!(!tm.wake_frozen(5));
    assert_eq!(tm.get_waiters().len(), 2);
    assert!(tm.step().is_empty());
    assert_eq!(tm.step(), vec![6]);
    assert!(tm.get_waiters().is_empty());
    assert!(!tm.wake_frozen(6));
}

#[test]
fn frozen_time_does_not_wake_a_triggered_sleep_twice() {
    let mut tm = FrozenTimeModel::new();
    assert!(!tm.register_sleep(Instant::simulated(Duration::from_secs(1)), 1, TaskId(0), true));
    assert!(!tm.register_sleep(Instant::simulated(Duration::from_secs(2)), 2, TaskId(1), true));
    assert!(!tm.register_sleep(Instant::simulated(Duration::from_secs(3)), 3, TaskId(2), false));
    assert_eq!(tm.trigger_timeouts(&[TaskId(1), TaskId(2)]), vec![2]);
    assert_eq!(tm.trigger_timeouts(&[TaskId(1)]), Vec::<u64>::new());
    assert_eq!(tm.wake_next(), (true, vec![1]));
    assert_eq!(tm.wake_next(), (true, vec![]));
    assert_eq!(tm.instant().elapsed(), Duration::from_secs(2));
    assert_eq!(tm.wake_next(), (false, vec![]));
}

#[test]
fn constant_distribution_and_config() {
    let d = ConstantTimeDistribution::new(Duration::from_micros(3));
    assert_eq!(d.sample(), Duration::from_micros(3));
    let mut tm = from_config(TimeModelConfig::ConstantStepped(d));
    tm.step();
    assert_eq!(tm.instant().elapsed(), Duration::from_micros(3));
}

#[test]
fn storage_remembers_initialization_order() {
    let mut s: StorageMap<&str> = StorageMap::new();
    let a = StorageKey(1, 0);
    let b = StorageKey(2, 0);
    assert!(s.get(a).is_none());
    s.init(b, "second-key");
    s.init(a, "first-key");
    assert_eq!(s.get(a), Some(Ok(&"first-key")));
    assert_eq!(s.pop(), Some("second-key"));
    assert_eq!(s.get(b), Some(Err(AlreadyDestructedError)));
    assert_eq!(s.pop(), Some("first-key"));
    assert_eq!(s.pop(), None);
}

#[test]
fn local_key_initializes_once_and_fails_after_destruction() {
    let key: LocalKey<u32> = LocalKey::new(StorageKey(9, 1));
    let mut s: StorageMap<u32> = StorageMap::new();
    assert_eq!(key.with(&mut s, || 41, |v| *v + 1), 42);
    assert_eq!(key.with(&mut s, || 0, |v| *v), 41);
    assert_eq!(s.pop(), Some(41));
    let err: AccessError = key.try_with(&mut s, || 0, |v| *v).unwrap_err();
    assert_eq!(err.message(), "already destroyed");
}

#[test]
fn once_runs_one_initializer() {
    let mut once = Once::new(ResourceSignature::new_const(ResourceType::Once, "src/lib.rs", 4, 9));
    assert!(once.is_completed().is_none());
    assert!(matches!(once.begin(), OnceStep::Race));
    match Once::after_lock(false, false, false) {
        LockedStep::RunInitializer(state) => assert!(!state.is_poisoned()),
        LockedStep::Done => panic!("nobody initialized the cell yet"),
    }
    once.complete(VectorClock::from(&[2, 1]));
    match once.begin() {
        OnceStep::AlreadyComplete(c) => assert_eq!(c, VectorClock::from(&[2, 1])),
        OnceStep::Race => panic!("the cell is complete"),
    }
    assert_eq!(Once::after_lock(true, false, false), LockedStep::Done);
    match Once::after_lock(false, true, true) {
        LockedStep::RunInitializer(state) => assert!(state.is_poisoned()),
        LockedStep::Done => panic!("nobody initialized the cell yet"),
    }
    assert!(once.is_completed().is_some());
}

#[test]
fn failures_are_reported_once_per_execution() {
    let mut reporter = FailureReporter::new();
    let mut schedule = Schedule::new(5);
    schedule.push_task(TaskId(0));
    schedule.push_random();
    let mut config = Config::new();
    let expected = serialize_schedule(&schedule);
    assert_eq!(persist_failure(&mut reporter, &config, &schedule), FailureReport::Nothing);
    let guard = begin_execution(&mut reporter, config.clone());
    assert_eq!(persist_failure(&mut reporter, &config, &schedule), FailureReport::Print(expected.clone()));
    assert_eq!(persist_failure(&mut reporter, &config, &schedule), FailureReport::Nothing);
    end_execution(&mut reporter, guard);
    assert!(!reporter.is_running());

    config.failure_persistence = FailurePersistence::File(None);
    let guard = begin_execution(&mut reporter, config.clone());
    assert_eq!(persist_failure(&mut reporter, &config, &schedule), FailureReport::File(expected));
    end_execution(&mut reporter, guard);

    config.failure_persistence = FailurePersistence::Disabled;
    let guard = begin_execution(&mut reporter, config.clone());
    assert_eq!(reporter.running_config().map(|c| c.failure_persistence.clone()), Some(FailurePersistence::Disabled));
    assert_eq!(persist_failure(&mut reporter, &config, &schedule), FailureReport::Nothing);
    end_execution(&mut reporter, guard);
    assert!(reporter.running_config().is_none());
}

#[test]
fn only_short_schedules_with_small_task_ids_serialize() {
    let mut schedule = Schedule::new(1);
    schedule.push_task(TaskId(3));
    schedule.push_random();
    assert!(can_serialize(&schedule, ScheduleEncoding::MoveToFront));
    assert!(can_serialize(&schedule, ScheduleEncoding::FixedWidth));
    if usize::BITS == 64 {
        schedule.push_task(TaskId(usize::MAX));
        assert!(!can_serialize(&schedule, ScheduleEncoding::MoveToFront));
        assert!(can_serialize(&schedule, ScheduleEncoding::FixedWidth));
    }
}

#[test]
fn runners_start_executions_from_their_scheduler() {
    let mut runner = Runner::new(RoundRobinScheduler::new(2), Config::new());
    assert!(runner.next_execution().is_some());
    assert!(runner.next_execution().is_some());
    assert!(runner.next_execution().is_none());
    let mut portfolio = PortfolioRunner::new(true, Config::new());
    portfolio.add(RoundRobinScheduler::new(1));
    portfolio.add(RoundRobinScheduler::new(3));
    assert!(portfolio.stop_on_first_failure());
    let (schedulers, _, stop, _) = portfolio.into_parts();
    assert_eq!(schedulers.len(), 2);
    assert!(stop);
}

#[test]
fn join_handles_read_task_states() {
    let mut tm = TaskManager::new();
    tm.task_spawned(TaskId(0), false);
    let mut h: JoinHandle<u8> = JoinHandle::new(TaskId(0));
    let abort = h.abort_handle();
    assert!(!h.is_finished(&tm));
    tm.task_finished(TaskId(0));
    assert!(h.is_finished(&tm));
    assert!(abort.is_finished(&tm));
    assert_eq!(h.poll(), None);
    h.publish(Err(JoinError::Cancelled));
    assert_eq!(h.poll(), Some(Err(JoinError::Cancelled)));
    assert_eq!(JoinError::Cancelled.message(), "task was cancelled");
}

#[test]
fn switch_points_and_fences() {
    let mut p = switch_point();
    assert!(p.poll());
    assert!(!p.poll());
    assert_eq!(maybe_warn_about_ordering(AtomicOrdering::Relaxed, false, false), (true, true));
    assert_eq!(maybe_warn_about_ordering(AtomicOrdering::Acquire, true, false), (false, true));
    assert_eq!(maybe_warn_about_ordering(AtomicOrdering::SeqCst, false, false), (false, false));
    assert_eq!(fence(AtomicOrdering::Release, false, true), (false, true));
}

#[test]
fn current_schedule_records_each_step() {
    let mut cs = CurrentSchedule::new();
    assert_eq!(cs.len(), 0);
    assert_eq!(cs.get_schedule(), Schedule::new(0));
    let mut s = Schedule::new(7);
    s.push_task(TaskId(0));
    cs.init(s.clone());
    cs.push_random();
    cs.push_task(TaskId(2));
    assert_eq!(cs.len(), 3);
    let mut expected = s;
    expected.push_random();
    expected.push_task(TaskId(2));
    assert_eq!(cs.get_schedule(), expected);
}

#[test]
fn a_runner_out_of_time_starts_no_execution() {
    let mut config = Config::new();
    config.max_time = Some(Duration::from_secs(2));
    let mut runner = Runner::new(RoundRobinScheduler::new(3), config);
    assert!(runner.next_execution_within(Duration::from_secs(1)).is_some());
    assert!(runner.next_execution_within(Duration::from_secs(2)).is_some());
    assert!(runner.next_execution_within(Duration::from_millis(2001)).is_none());
    // The scheduler was not asked: it still has one execution left.
    assert!(runner.next_execution_within(Duration::ZERO).is_some());
    assert!(runner.next_execution_within(Duration::ZERO).is_none());
}

#[test]
fn a_stopped_portfolio_scheduler_runs_no_more() {
    let stop = Arc::new(AtomicBool::new(false));
    let mut s = PortfolioStoppableScheduler::new(RoundRobinScheduler::new(5), stop.clone());
    assert!(s.new_execution().is_some());
    let tasks = [shuttle::scheduler::Task::new(TaskId(0), VectorClock::new(), shuttle::scheduler::EventKind::Unknown)];
    assert_eq!(s.next_task(&tasks, None, false), Some(TaskId(0)));
    stop.store(true, Ordering::SeqCst);
    assert_eq!(s.next_task(&tasks, None, false), None);
    assert!(s.new_execution().is_none());
}

#[test]
fn executions_stop_and_advance() {
    assert!(should_stop(true, ScheduledTask::Finished));
    assert!(should_stop(false, ScheduledTask::Stopped));
    assert!(!should_stop(false, ScheduledTask::Task(TaskId(1))));
    let mut cs = CurrentSchedule::new();
    let mut next = ScheduledTask::Task(TaskId(2));
    assert_eq!(advance_to_next_task(&mut next, &mut cs), ScheduledTask::Task(TaskId(2)));
    assert_eq!(next, ScheduledTask::Undecided);
    let mut next = ScheduledTask::Finished;
    assert_eq!(advance_to_next_task(&mut next, &mut cs), ScheduledTask::Finished);
    let mut expected = Schedule::new(0);
    expected.push_task(TaskId(2));
    assert_eq!(cs.get_schedule(), expected);
}

#[test]
fn a_copied_time_model_moves_on_its_own() {
    let mut tm = ConstantSteppedTimeModel::new(Duration::from_secs(1));
    assert!(!tm.register_sleep(Instant::simulated(Duration::from_secs(1)), 9, TaskId(0), true));
    let mut copy = tm.clone();
    assert_eq!(copy.step(), vec![9]);
    assert_eq!(copy.instant().elapsed(), Duration::from_secs(1));
    assert_eq!(tm.instant().elapsed(), Duration::ZERO);
    assert_eq!(tm.get_waiters().len(), 1);
    assert_eq!(tm.step(), vec![9]);
    let frozen = FrozenTimeModel::new();
    let mut frozen_copy = frozen.clone();
    assert_eq!(frozen_copy.wake_next(), (false, vec![]));
}

#[test]
fn a_model_without_time_never_moves_by_itself() {
    let mut tm = from_config(TimeModelConfig::NoTime);
    assert!(!tm.register_sleep(Instant::simulated(Duration::from_secs(1)), 4, TaskId(0), true));
    assert!(tm.step().is_empty());
    assert_eq!(tm.instant().elapsed(), Duration::ZERO);
    assert_eq!(tm.wake_next(), (true, vec![4]));
}

#[test]
fn a_task_picked_by_an_earlier_trigger_sleeps_no_more() {
    let mut tm = FrozenTimeModel::new();
    assert!(!tm.register_sleep(Instant::simulated(Duration::from_secs(1)), 1, TaskId(5), true));
    tm.expire(TaskId(5));
    assert!(tm.register_sleep(Instant::simulated(Duration::from_secs(9)), 2, TaskId(5), true));
}

#[test]
fn storage_destroys_values_first_in_first_out_across_interleaved_calls() {
    let mut s: StorageMap<u32> = StorageMap::new();
    s.init(StorageKey(5, 0), 50);
    s.init(StorageKey(3, 0), 30);
    assert_eq!(s.pop(), Some(50));
    s.init(StorageKey(9, 1), 90);
    s.init(StorageKey(1, 2), 10);
    assert_eq!(s.pop(), Some(30));
    assert_eq!(s.pop(), Some(90));
    s.init(StorageKey(4, 0), 40);
    assert_eq!(s.pop(), Some(10));
    assert_eq!(s.pop(), Some(40));
    assert_eq!(s.pop(), None);
}

#[test]
fn unique_resource_signature_once() {
    let once1 = Once::new(ResourceSignature::new_const(ResourceType::Once, "src/lib.rs", 12, 17));
    let once2 = Once::new(ResourceSignature::new_const(ResourceType::Once, "src/lib.rs", 13, 17));
    assert_ne!(once1.signature(), once2.signature());
}
