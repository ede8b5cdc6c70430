use task_core::config::BIG_STRIDE;
use task_core::manager::{add_stopping_task, add_task, fetch_task, remove_task, wakeup_task, TaskManager};
use task_core::task::{TaskControlBlock, TaskStatus};

fn thread(pid: usize, tid: usize) -> TaskControlBlock {
    TaskControlBlock::new(pid, tid, 0x8000_0000, tid)
}

fn tid_of(t: &TaskControlBlock) -> usize {
    t.inner.res.as_ref().unwrap().tid
}

fn selection_counts(priorities: &[usize], fetches: usize) -> Vec<usize> {
    let mut m = TaskManager::new();
    for (tid, &p) in priorities.iter().enumerate() {
        let mut t = thread(1, tid);
        t.set_priority(p);
        m.add(t);
    }
    let mut counts = vec![0usize; priorities.len()];
    for _ in 0..fetches {
        let t = m.fetch().unwrap();
        counts[tid_of(&t)] += 1;
        m.add(t);
    }
    counts
}

#[test]
fn empty_queue_fetches_nothing() {
    let mut m = TaskManager::new();
    assert!(m.fetch().is_none());
    assert!(fetch_task(&mut m).is_none());
}

#[test]
fn fetch_takes_smallest_stride_and_advances_it() {
    let mut m = TaskManager::new();
    let mut a = thread(1, 0);
    a.inner.stride = 30;
    let mut b = thread(1, 1);
    b.inner.stride = 10;
    let mut c = thread(1, 2);
    c.inner.stride = 20;
    m.add(a);
    m.add(b);
    m.add(c);
    let t = m.fetch().unwrap();
    assert_eq!(tid_of(&t), 1);
    assert_eq!(t.inner.stride, 10 + BIG_STRIDE / 16);
    assert_eq!(m.ready_queue.len(), 2);
}

#[test]
fn equal_strides_leave_in_queue_order() {
    let mut m = TaskManager::new();
    add_task(&mut m, thread(1, 0));
    add_task(&mut m, thread(1, 1));
    let t = fetch_task(&mut m).unwrap();
    assert_eq!(tid_of(&t), 0);
}

#[test]
fn set_priority_resets_stride_and_sets_pass() {
    let mut t = thread(1, 0);
    t.inner.stride = 12345;
    t.set_priority(4);
    assert_eq!(t.inner.stride, 4);
    assert_eq!(t.inner.pass, 2500);
    t.set_priority(3);
    assert_eq!(t.inner.pass, 3333);
}

#[test]
fn stride_ratio_of_priority_two_and_eight() {
    let counts = selection_counts(&[2, 8], 10_000);
    let ratio = counts[1] as f64 / counts[0] as f64;
    assert!((ratio - 4.0).abs() < 0.05, "ratio {}", ratio);
}

#[test]
fn priority_weighting_two_four_eight() {
    let counts = selection_counts(&[2, 4, 8], 14_000);
    let expected = [2000.0, 4000.0, 8000.0];
    for i in 0..3 {
        let c = counts[i] as f64;
        assert!((c - expected[i]).abs() <= expected[i] * 0.05, "counts {:?}", counts);
    }
    assert_eq!(counts.iter().sum::<usize>(), 14_000);
}

#[test]
fn wakeup_marks_ready_and_queues() {
    let mut m = TaskManager::new();
    let mut t = thread(2, 3);
    t.inner.task_status = TaskStatus::Blocked;
    wakeup_task(&mut m, t);
    assert_eq!(m.ready_queue.len(), 1);
    assert_eq!(m.ready_queue[0].inner.task_status, TaskStatus::Ready);
}

#[test]
fn remove_drops_only_that_thread() {
    let mut m = TaskManager::new();
    add_task(&mut m, thread(1, 0));
    add_task(&mut m, thread(1, 1));
    add_task(&mut m, thread(2, 0));
    remove_task(&mut m, &thread(1, 1));
    let left: Vec<(usize, usize)> = m.ready_queue.iter().map(|t| (t.pid, tid_of(t))).collect();
    assert_eq!(left, vec![(1, 0), (2, 0)]);
}

#[test]
fn stopping_task_replaces_previous() {
    let mut m = TaskManager::new();
    add_stopping_task(&mut m, thread(1, 0));
    add_stopping_task(&mut m, thread(1, 1));
    assert_eq!(tid_of(m.stop_task.as_ref().unwrap()), 1);
    assert!(m.ready_queue.is_empty());
}

#[test]
fn strides_stay_within_largest_pass() {
    let mut m = TaskManager::new();
    for (tid, &p) in [2usize, 5, 8, 16].iter().enumerate() {
        let mut t = thread(1, tid);
        t.set_priority(p);
        m.add(t);
    }
    for _ in 0..5_000 {
        let t = m.fetch().unwrap();
        m.add(t);
        let max = m.ready_queue.iter().map(|t| t.inner.stride).max().unwrap();
        let min = m.ready_queue.iter().map(|t| t.inner.stride).min().unwrap();
        assert!(max - min <= BIG_STRIDE / 2, "strides spread {}", max - min);
    }
}
