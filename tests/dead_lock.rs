use task_core::dead_lock::DeadLockDetect;

fn detector_with(threads: u32, counts: &[u32]) -> DeadLockDetect {
    let mut d = DeadLockDetect::new(threads);
    for &c in counts {
        d.add_resource(c);
    }
    d
}

fn held_plus_free(d: &DeadLockDetect, r: usize) -> u64 {
    let held: u64 = d.allocation.iter().map(|row| row[r] as u64).sum();
    d.available[r] as u64 + held
}

#[test]
fn new_detector_has_rows_and_no_columns() {
    let d = DeadLockDetect::new(3);
    assert_eq!(d.allocation.len(), 3);
    assert_eq!(d.need.len(), 3);
    assert!(d.available.is_empty());
    assert!(d.allocation.iter().all(|row| row.is_empty()));
}

#[test]
fn empty_state_is_safe() {
    let d = DeadLockDetect::new(2);
    assert!(!d.detect());
    let d = DeadLockDetect::new(0);
    assert!(!d.detect());
}

#[test]
fn add_resource_appends_zero_column() {
    let d = detector_with(2, &[1, 3]);
    assert_eq!(d.available, vec![1, 3]);
    assert_eq!(d.allocation, vec![vec![0, 0], vec![0, 0]]);
    assert_eq!(d.need, vec![vec![0, 0], vec![0, 0]]);
}

#[test]
fn crossed_requests_are_unsafe() {
    let mut d = detector_with(2, &[1, 1]);
    d.request(0, 0);
    d.grant(0, 0);
    d.request(1, 1);
    d.grant(1, 1);
    // thread 0 asks for resource 1: thread 1 can still finish first
    d.request(0, 1);
    assert!(!d.detect());
    // thread 1 now asks for resource 0: nobody can finish
    d.request(1, 0);
    assert!(d.detect());
    d.cancel(1, 0);
    assert!(!d.detect());
    assert_eq!(d.need, vec![vec![0, 1], vec![0, 0]]);
}

#[test]
fn request_beyond_free_units_with_holder_finishing_is_safe() {
    let mut d = detector_with(2, &[2]);
    d.request(0, 0);
    d.grant(0, 0);
    d.request(0, 0);
    d.grant(0, 0);
    d.request(1, 0);
    // thread 0 needs nothing more and frees two units for thread 1
    assert!(!d.detect());
    d.request(0, 0);
    // both now wait for a unit that only the other could free
    assert!(d.detect());
}

#[test]
fn grant_and_release_move_one_unit() {
    let mut d = detector_with(2, &[3]);
    d.request(1, 0);
    d.grant(1, 0);
    assert_eq!(d.available, vec![2]);
    assert_eq!(d.allocation[1], vec![1]);
    assert_eq!(d.need[1], vec![0]);
    d.release(1, 0);
    assert_eq!(d.available, vec![3]);
    assert_eq!(d.allocation[1], vec![0]);
}

#[test]
fn free_plus_held_stays_the_creation_count() {
    let mut d = detector_with(3, &[2, 1]);
    let steps: [(usize, usize, bool); 6] =
        [(0, 0, true), (1, 0, true), (2, 1, true), (0, 0, false), (2, 1, false), (1, 0, false)];
    for (t, r, acquire) in steps {
        if acquire {
            d.request(t, r);
            d.grant(t, r);
        } else {
            d.release(t, r);
        }
        assert_eq!(held_plus_free(&d, 0), 2);
        assert_eq!(held_plus_free(&d, 1), 1);
    }
    assert_eq!(d.available, vec![2, 1]);
}
