use shuttle::clock::VectorClock;
use shuttle::semaphore::{Acquire, AcquireError, AcquirePoll, BatchSemaphore, Fairness, TryAcquireError};
use shuttle::task::TaskId;

fn clock(v: &[u32]) -> VectorClock {
    VectorClock::from(v)
}

#[test]
fn try_acquire_takes_available_permits() {
    let mut sem = BatchSemaphore::new(2, Fairness::StrictlyFair, VectorClock::new());
    let me = clock(&[1]);
    assert_eq!(sem.try_acquire(1, &me).result, Ok(()));
    assert_eq!(sem.available_permits(), 1);
    assert_eq!(sem.try_acquire(2, &me).result, Err(TryAcquireError::NoPermits));
    assert_eq!(sem.available_permits(), 1);
    let woken = sem.close();
    assert!(woken.is_empty());
    assert!(sem.is_closed());
    assert_eq!(sem.try_acquire(1, &me).result, Err(TryAcquireError::Closed));
}

#[test]
fn acquire_inherits_the_clocks_of_the_batches_it_takes() {
    let mut sem = BatchSemaphore::const_new(0, Fairness::StrictlyFair);
    sem.release(1, clock(&[1, 0]));
    sem.release(1, clock(&[0, 2]));
    sem.release(3, clock(&[0, 0, 5]));
    assert_eq!(sem.available_permits(), 5);
    let me = clock(&[]);
    let first = sem.try_acquire(2, &me);
    assert_eq!(first.result, Ok(()));
    assert_eq!(first.clock, clock(&[1, 2]));
    let second = sem.try_acquire(1, &me);
    assert_eq!(second.clock, clock(&[0, 0, 5]));
    assert_eq!(sem.available_permits(), 2);
}

#[test]
fn strictly_fair_semaphore_grants_in_queue_order() {
    let mut sem = BatchSemaphore::new(0, Fairness::StrictlyFair, VectorClock::new());
    let mut a1 = Acquire::new(&mut sem, 2, TaskId(1), clock(&[0, 1]));
    let mut a2 = Acquire::new(&mut sem, 1, TaskId(2), clock(&[0, 0, 1]));
    assert!(a1.needs_switch(&sem));
    assert!(matches!(a1.poll(&mut sem, &clock(&[0, 1])), AcquirePoll::Pending));
    assert!(matches!(a2.poll(&mut sem, &clock(&[0, 0, 1])), AcquirePoll::Pending));

    // One permit is not enough for the first waiter, and the second may not overtake it.
    let effects = sem.release(1, clock(&[3]));
    assert!(effects.granted.is_empty());
    assert_eq!(sem.available_permits(), 1);

    let effects = sem.release(1, clock(&[4]));
    assert_eq!(effects.granted.len(), 1);
    assert_eq!(effects.granted[0].task_id, TaskId(1));
    assert_eq!(effects.granted[0].clock, clock(&[4]));
    assert_eq!(sem.available_permits(), 0);

    let done = a1.poll(&mut sem, &clock(&[4, 1]));
    assert!(matches!(done, AcquirePoll::Granted));
    assert_eq!(done.output(), Some(Ok(())));
    assert!(matches!(a2.poll(&mut sem, &clock(&[0, 0, 1])), AcquirePoll::Pending));
}

#[test]
fn abandoning_the_first_waiter_unblocks_the_next() {
    let mut sem = BatchSemaphore::new(1, Fairness::StrictlyFair, VectorClock::new());
    let mut w1 = Acquire::new(&mut sem, 2, TaskId(1), VectorClock::new());
    let mut w2 = Acquire::new(&mut sem, 1, TaskId(2), VectorClock::new());
    assert!(matches!(w1.poll(&mut sem, &VectorClock::new()), AcquirePoll::Pending));
    assert!(matches!(w2.poll(&mut sem, &VectorClock::new()), AcquirePoll::Pending));
    let effects = w1.cancel(&mut sem, VectorClock::new());
    assert_eq!(effects.granted.len(), 1);
    assert_eq!(effects.granted[0].task_id, TaskId(2));
    assert!(matches!(w2.poll(&mut sem, &VectorClock::new()), AcquirePoll::Granted));
}

#[test]
fn unfair_release_wakes_every_waiter_that_could_succeed() {
    let mut sem = BatchSemaphore::new(0, Fairness::Unfair, VectorClock::new());
    let mut big = Acquire::new(&mut sem, 3, TaskId(1), VectorClock::new());
    let mut small = Acquire::new(&mut sem, 1, TaskId(2), VectorClock::new());
    assert!(matches!(big.poll(&mut sem, &VectorClock::new()), AcquirePoll::Pending));
    assert!(matches!(small.poll(&mut sem, &VectorClock::new()), AcquirePoll::Pending));
    let effects = sem.release(1, clock(&[1]));
    assert!(effects.granted.is_empty());
    assert_eq!(effects.woken.len(), 1);
    assert_eq!(effects.woken[0].task_id, TaskId(2));
    match small.poll(&mut sem, &VectorClock::new()) {
        AcquirePoll::Acquired { clock: c, reblock } => {
            assert_eq!(c, clock(&[1]));
            assert_eq!(reblock, vec![TaskId(1)]);
        }
        _ => panic!("the woken waiter should take the permit"),
    }
}

#[test]
fn closing_wakes_waiters_with_an_error() {
    let mut sem = BatchSemaphore::new(0, Fairness::StrictlyFair, VectorClock::new());
    let mut a = Acquire::new(&mut sem, 1, TaskId(5), VectorClock::new());
    assert!(matches!(a.poll(&mut sem, &VectorClock::new()), AcquirePoll::Pending));
    let woken = sem.close();
    assert_eq!(woken.len(), 1);
    assert_eq!(woken[0].task_id, TaskId(5));
    let r = a.poll(&mut sem, &VectorClock::new());
    assert!(matches!(r, AcquirePoll::Closed));
    assert!(matches!(r.output(), Some(Err(_))));
    assert_eq!(AcquireError::closed().message(), "semaphore closed");
}

#[test]
fn acquiring_no_permits_succeeds_while_open() {
    let mut sem = BatchSemaphore::new(0, Fairness::Unfair, VectorClock::new());
    let me = clock(&[1]);
    assert_eq!(sem.try_acquire(0, &me).result, Ok(()));
    assert_eq!(sem.available_permits(), 0);
    let _ = sem.close();
    assert_eq!(sem.try_acquire(0, &me).result, Err(TryAcquireError::Closed));
}
