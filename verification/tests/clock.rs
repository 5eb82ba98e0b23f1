use shuttle::clock::VectorClock;
use shuttle::task::TaskId;

#[test]
fn vector_clock() {
    let v1 = VectorClock::from(&[1, 2, 3, 4]);
    let v2 = VectorClock::from(&[1, 2, 4, 5]);
    let v3 = VectorClock::from(&[1, 2, 3, 1]);
    let v4 = VectorClock::from(&[1, 2, 4, 1]);
    let v5 = VectorClock::from(&[1, 2, 3, 4]);
    assert!(v1 < v2 && v1 > v3 && v1 == v5);
    assert!(v2 > v3 && v2 > v4);
    assert!(v3 < v4);
    assert_eq!(v1.partial_cmp(&v4), None);

    let v1 = VectorClock::from(&[1, 2, 3, 4]);
    let v2 = VectorClock::from(&[1, 2, 2]);
    let v3 = VectorClock::from(&[1, 2, 3]);
    let v4 = VectorClock::from(&[1, 2, 4]);
    assert!(v1 > v2);
    assert!(v1 > v3);
    assert_eq!(v1.partial_cmp(&v4), None);

    let v1 = VectorClock::from(&[]);
    let v2 = VectorClock::from(&[1]);
    assert!(v1 < v2);

    let v1 = VectorClock::from(&[1, 2, 1]);
    let v2 = VectorClock::from(&[1, 3]);
    let v3 = VectorClock::from(&[1, 1, 1, 2]);
    let v4 = VectorClock::from(&[1, 1, 2]);

    let mut v = v1.clone();
    v.update(&v2);
    assert_eq!(v, VectorClock::from(&[1, 3, 1]));

    let mut v = v1.clone();
    v.update(&v3);
    assert_eq!(v, VectorClock::from(&[1, 2, 1, 2]));

    let mut v = v1.clone();
    v.update(&v4);
    assert_eq!(v, VectorClock::from(&[1, 2, 2]));

    let mut v = v1.clone();
    v.update(&VectorClock::new());
    assert_eq!(v, v1);
}

#[test]
fn join_is_an_upper_bound_of_both_clocks() {
    let a = VectorClock::from(&[3, 0, 7]);
    let b = VectorClock::from(&[1, 5]);
    let mut j = a.clone();
    j.update(&b);
    assert_eq!(j, VectorClock::from(&[3, 5, 7]));
    assert!(a.happens_before_or_equal(&j));
    assert!(b.happens_before_or_equal(&j));
    assert!(!j.happens_before_or_equal(&a));
}

#[test]
fn extend_and_increment_count_a_task_event() {
    let mut c = VectorClock::new();
    c.extend(TaskId(2));
    assert_eq!(c.len(), 3);
    assert_eq!(c, VectorClock::from(&[0, 0, 0]));
    c.increment(TaskId(2));
    c.increment(TaskId(2));
    assert_eq!(c.get(2), 2);
    assert_eq!(c.get(0), 0);
}
