use shuttle::schedulable::SchedulableTasks;
use shuttle::task::{TaskId, TaskState};

const BLOCKED_SPURIOUS: TaskState = TaskState::Blocked {
    allow_spurious_wakeups: true,
};
const BLOCKED: TaskState = TaskState::Blocked {
    allow_spurious_wakeups: false,
};

fn ids(s: &SchedulableTasks) -> Vec<usize> {
    let mut v = Vec::new();
    s.for_each(|id| v.push(id.0));
    v
}

#[test]
fn ascending_order_across_word_boundaries() {
    let mut s = SchedulableTasks::default();
    // Deliberately register out of order and across several 64-bit words.
    for id in [200usize, 3, 64, 65, 0, 127, 128] {
        s.register(TaskId(id));
    }
    assert_eq!(ids(&s), vec![0, 3, 64, 65, 127, 128, 200]);
}

#[test]
fn spurious_tasks_are_offered_but_are_not_runnable() {
    let mut s = SchedulableTasks::default();
    s.register(TaskId(0));
    s.register(TaskId(1));

    s.transition(TaskId(1), TaskState::Runnable, BLOCKED_SPURIOUS, false);
    assert_eq!(ids(&s), vec![0, 1], "spurious task is still offered");
    assert!(s.any_runnable());

    s.transition(TaskId(0), TaskState::Runnable, BLOCKED_SPURIOUS, false);
    assert_eq!(ids(&s), vec![0, 1]);
    assert!(!s.any_runnable(), "only spurious tasks left is a deadlock");
    assert!(s.has_unfinished_attached());
}

#[test]
fn plain_blocked_and_sleeping_tasks_are_not_offered() {
    let mut s = SchedulableTasks::default();
    s.register(TaskId(0));
    s.register(TaskId(1));

    s.transition(TaskId(0), TaskState::Runnable, BLOCKED, false);
    s.transition(TaskId(1), TaskState::Runnable, TaskState::Sleeping, false);
    assert!(ids(&s).is_empty());
    assert!(!s.any_runnable());
    assert_eq!(s.unfinished_attached_count(), 2);
}

#[test]
fn finishing_clears_membership_and_tallies() {
    let mut s = SchedulableTasks::default();
    s.register(TaskId(0));
    s.transition(TaskId(0), TaskState::Runnable, TaskState::Finished, false);
    assert!(ids(&s).is_empty());
    assert!(!s.any_runnable());
    assert!(!s.has_unfinished_attached());
    assert!(!s.has_unfinished_detached());
}

#[test]
fn detached_tasks_tracked_separately() {
    let mut s = SchedulableTasks::default();
    s.register(TaskId(0));
    s.register(TaskId(1));
    assert!(!s.all_runnable_detached());

    s.detach(TaskId(1), TaskState::Runnable);
    assert!(s.has_unfinished_detached());
    assert!(!s.all_runnable_detached(), "task 0 is still attached");

    s.detach(TaskId(0), TaskState::Runnable);
    assert!(s.all_runnable_detached());
    assert!(!s.has_unfinished_attached());
}

#[test]
fn transition_between_blocked_variants() {
    let mut s = SchedulableTasks::default();
    s.register(TaskId(0));

    s.transition(TaskId(0), TaskState::Runnable, BLOCKED, false);
    assert!(ids(&s).is_empty());

    s.transition(TaskId(0), BLOCKED, BLOCKED_SPURIOUS, false);
    assert_eq!(ids(&s), vec![0]);

    s.transition(TaskId(0), BLOCKED_SPURIOUS, BLOCKED, false);
    assert!(ids(&s).is_empty());
    assert_eq!(s.unfinished_attached_count(), 1);
}

#[test]
fn clear_resets_everything() {
    let mut s = SchedulableTasks::default();
    s.register(TaskId(0));
    s.register(TaskId(70));
    s.transition(TaskId(70), TaskState::Runnable, BLOCKED_SPURIOUS, false);
    s.clear();

    assert!(ids(&s).is_empty());
    assert!(!s.any_runnable());
    assert!(!s.has_unfinished_attached());
    assert!(!s.has_unfinished_detached());
    assert!(s.all_runnable_detached());

    // Reusable after clearing, with no residue from before.
    s.register(TaskId(1));
    assert_eq!(ids(&s), vec![1]);
    assert_eq!(s.unfinished_attached_count(), 1);
}

#[test]
fn repeated_no_op_transitions_do_not_drift() {
    let mut s = SchedulableTasks::default();
    s.register(TaskId(0));
    for _ in 0..5 {
        s.transition(TaskId(0), TaskState::Runnable, TaskState::Runnable, false);
    }
    assert_eq!(ids(&s), vec![0]);
    assert_eq!(s.unfinished_attached_count(), 1);
}

#[test]
fn matches_a_full_recomputation() {
    let mut s = SchedulableTasks::default();
    for id in 0..5 {
        s.register(TaskId(id));
    }
    s.transition(TaskId(1), TaskState::Runnable, BLOCKED_SPURIOUS, false);
    s.transition(TaskId(2), TaskState::Runnable, TaskState::Sleeping, false);
    s.transition(TaskId(3), TaskState::Runnable, TaskState::Finished, false);
    s.detach(TaskId(4), TaskState::Runnable);

    let mut expected = SchedulableTasks::default();
    expected.recompute_from(vec![
        (TaskId(0), TaskState::Runnable, false),
        (TaskId(1), BLOCKED_SPURIOUS, false),
        (TaskId(2), TaskState::Sleeping, false),
        (TaskId(3), TaskState::Finished, false),
        (TaskId(4), TaskState::Runnable, true),
    ]);
    assert!(s.matches(&expected));
}

#[test]
fn a_missed_transition_does_not_match() {
    let mut s = SchedulableTasks::default();
    s.register(TaskId(0));
    s.register(TaskId(1));
    s.transition(TaskId(1), TaskState::Runnable, TaskState::Sleeping, false);

    let mut stale = SchedulableTasks::default();
    stale.recompute_from(vec![(TaskId(0), TaskState::Runnable, false), (TaskId(1), TaskState::Runnable, false)]);
    assert!(!s.matches(&stale));

    let mut fresh = SchedulableTasks::default();
    fresh.recompute_from(vec![(TaskId(0), TaskState::Runnable, false), (TaskId(1), TaskState::Sleeping, false)]);
    assert!(s.matches(&fresh));
}

#[test]
fn schedulable_ids_lists_runnable_and_spurious_in_order() {
    let mut s = SchedulableTasks::default();
    for id in [130usize, 5, 64] {
        s.register(TaskId(id));
    }
    s.transition(TaskId(64), TaskState::Runnable, BLOCKED_SPURIOUS, false);
    s.transition(TaskId(5), TaskState::Runnable, BLOCKED, false);
    let got: Vec<usize> = s.schedulable_ids().into_iter().map(|t| t.0).collect();
    assert_eq!(got, vec![64, 130]);
}

#[test]
fn after_a_run_of_changes_for_each_visits_the_offered_live_tasks() {
    let mut s = SchedulableTasks::default();
    for id in [4usize, 1, 70, 2] {
        s.register(TaskId(id));
    }
    s.transition(TaskId(4), TaskState::Runnable, BLOCKED, false);
    s.transition(TaskId(1), TaskState::Runnable, BLOCKED_SPURIOUS, false);
    s.detach(TaskId(70), TaskState::Runnable);
    s.transition(TaskId(2), TaskState::Runnable, TaskState::Sleeping, false);
    s.transition(TaskId(4), BLOCKED, TaskState::Runnable, false);
    s.transition(TaskId(2), TaskState::Sleeping, TaskState::Finished, false);
    assert_eq!(ids(&s), vec![1, 4, 70]);
    assert!(s.any_runnable());
    assert!(s.has_unfinished_attached());
    assert!(s.has_unfinished_detached());
}
