use shuttle::task::TaskId;
use shuttle::task_manager::TaskManager;

#[test]
fn test_basic_spawn_and_finish() {
    let mut tm = TaskManager::new();
    tm.task_spawned(TaskId(0), false);
    assert!(!tm.should_finish());
    assert_eq!(tm.runnable_tasks(), &[TaskId(0)]);

    tm.task_finished(TaskId(0));
    assert!(tm.should_finish());
    assert!(tm.runnable_tasks().is_empty());
}

#[test]
fn test_block_unblock() {
    let mut tm = TaskManager::new();
    tm.task_spawned(TaskId(0), false);
    tm.task_spawned(TaskId(1), false);

    tm.task_blocked(TaskId(0), false);
    assert_eq!(tm.runnable_tasks(), &[TaskId(1)]);
    assert!(!tm.should_finish());

    tm.task_unblocked(TaskId(0));
    assert_eq!(tm.runnable_tasks().len(), 2);
    assert!(!tm.should_finish());
}

#[test]
fn test_spurious_wakeup_stays_in_runnable() {
    let mut tm = TaskManager::new();
    tm.task_spawned(TaskId(0), false);
    tm.task_spawned(TaskId(1), false);

    tm.task_blocked(TaskId(0), true);
    assert_eq!(tm.runnable_tasks().len(), 2);
    assert!(!tm.should_finish());
}

#[test]
fn test_only_spurious_wakeup_tasks_means_deadlock() {
    let mut tm = TaskManager::new();
    tm.task_spawned(TaskId(0), false);

    tm.task_blocked(TaskId(0), true);
    assert!(tm.should_finish());
}

#[test]
fn test_detached_tasks() {
    let mut tm = TaskManager::new();
    tm.task_spawned(TaskId(0), false);
    tm.task_spawned(TaskId(1), true);

    tm.task_finished(TaskId(0));
    assert!(tm.should_finish());
}

#[test]
fn test_detach_after_spawn() {
    let mut tm = TaskManager::new();
    tm.task_spawned(TaskId(0), false);
    tm.task_spawned(TaskId(1), false);

    tm.task_detached(TaskId(1));
    tm.task_finished(TaskId(0));
    assert!(tm.should_finish());
}

#[test]
fn test_sleeping_and_wake() {
    let mut tm = TaskManager::new();
    tm.task_spawned(TaskId(0), false);

    tm.task_sleeping(TaskId(0));
    assert!(tm.runnable_tasks().is_empty());
    assert!(tm.should_finish());

    tm.task_unblocked(TaskId(0));
    assert_eq!(tm.runnable_tasks(), &[TaskId(0)]);
    assert!(!tm.should_finish());
}

#[test]
fn runnable_set_stays_in_id_order() {
    let mut tm = TaskManager::new();
    for i in 0..5 {
        tm.task_spawned(TaskId(i), false);
    }
    tm.task_blocked(TaskId(1), false);
    tm.task_blocked(TaskId(3), false);
    assert_eq!(tm.runnable_tasks(), &[TaskId(0), TaskId(2), TaskId(4)]);
    tm.task_blocked(TaskId(3), true);
    tm.task_unblocked(TaskId(1));
    assert_eq!(tm.runnable_tasks(), &[TaskId(0), TaskId(1), TaskId(2), TaskId(3), TaskId(4)]);
}

#[test]
fn exiting_the_last_attached_task_truncates_detached_ones() {
    let mut tm = TaskManager::new();
    tm.task_spawned(TaskId(0), false);
    tm.task_spawned(TaskId(1), false);
    tm.task_spawned(TaskId(2), true);
    // The main task's exit always counts.
    assert!(tm.exit_current_truncates_execution(TaskId(0)));
    // A detached task's exit never does.
    assert!(!tm.exit_current_truncates_execution(TaskId(2)));
    // Two attached tasks are unfinished.
    assert!(!tm.exit_current_truncates_execution(TaskId(1)));
    tm.task_finished(TaskId(0));
    assert!(tm.exit_current_truncates_execution(TaskId(1)));
    tm.task_finished(TaskId(2));
    assert!(!tm.exit_current_truncates_execution(TaskId(1)));
}
