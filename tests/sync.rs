use task_core::config::DEADLOCK_ERROR;
use task_core::manager::TaskManager;
use task_core::mm::MemorySet;
use task_core::process::{Kernel, ProcessControlBlock};
use task_core::syscall_process::{run_next, sys_yield};
use task_core::syscall_sync::{
    sys_condvar_create, sys_condvar_signal, sys_condvar_wait, sys_enable_deadlock_detect,
    sys_mutex_create, sys_mutex_lock, sys_mutex_unlock, sys_semaphore_create, sys_semaphore_down,
    sys_semaphore_up, sys_sleep, mutex_retry, complete_grant,
};
use task_core::task::ResourceId;
use task_core::task::{TaskControlBlock, TaskStatus};

/// Process 1 with two threads: tid 0 runs, tid 1 is ready.
fn kernel() -> Kernel {
    let mut p = ProcessControlBlock::new(1, None, MemorySet::new(9));
    p.inner.tasks.push(true);
    let mut manager = TaskManager::new();
    manager.add(TaskControlBlock::new(1, 1, 0x8000_0000, 2));
    Kernel {
        processes: vec![p],
        manager,
        current: Some(TaskControlBlock::new(1, 0, 0x8000_0000, 1)),
        timers: Vec::new(),
        next_pid: 2,
        next_kstack: 3,
    }
}

fn tid(k: &Kernel) -> usize {
    k.current.as_ref().unwrap().inner.res.as_ref().unwrap().tid
}

/// The running thread yields and the other one is dispatched.
fn switch(k: &mut Kernel, now: usize) {
    sys_yield(k);
    assert!(run_next(k, now));
}

#[test]
fn deadlock_detection() {
    let mut k = kernel();
    assert_eq!(sys_enable_deadlock_detect(&mut k, 1), 0);
    assert_eq!(sys_mutex_create(&mut k, true), 0);
    assert_eq!(sys_mutex_create(&mut k, true), 1);
    assert_eq!(sys_mutex_lock(&mut k, 0), 0);
    switch(&mut k, 1);
    assert_eq!(tid(&k), 1);
    assert_eq!(sys_mutex_lock(&mut k, 1), 0);
    switch(&mut k, 2);
    assert_eq!(tid(&k), 0);
    // thread 0 blocks on mutex 1: still safe, thread 1 could finish
    assert_eq!(sys_mutex_lock(&mut k, 1), 0);
    assert!(k.current.is_none());
    assert!(run_next(&mut k, 3));
    assert_eq!(tid(&k), 1);
    // thread 1 asking for mutex 0 would deadlock
    assert_eq!(sys_mutex_lock(&mut k, 0), DEADLOCK_ERROR);
    assert!(k.current.is_some());
    let (dm, _) = k.processes[0].inner.deadlock_detect.as_ref().unwrap();
    assert_eq!(dm.need, vec![vec![0, 1], vec![0, 0]]);
    assert_eq!(dm.allocation, vec![vec![1, 0], vec![0, 1]]);
    assert_eq!(dm.available, vec![0, 0]);
    // thread 1 backs off: unlocking mutex 1 releases it and hands it to thread 0
    assert_eq!(sys_mutex_unlock(&mut k, 1), 0);
    {
        let (dm, _) = k.processes[0].inner.deadlock_detect.as_ref().unwrap();
        assert_eq!(dm.need, vec![vec![0, 1], vec![0, 0]]);
        assert_eq!(dm.allocation, vec![vec![1, 0], vec![0, 0]]);
        assert_eq!(dm.available, vec![0, 1]);
    }
    assert_eq!(k.manager.ready_queue.len(), 1);
    assert_eq!(k.manager.ready_queue[0].inner.task_status, TaskStatus::Ready);
    assert_eq!(k.manager.ready_queue[0].inner.pending_grant, Some(ResourceId::Mutex(1)));
    // thread 0 runs again: its lock call returns and the grant is recorded
    switch(&mut k, 4);
    assert_eq!(tid(&k), 0);
    complete_grant(&mut k);
    assert_eq!(k.current.as_ref().unwrap().inner.pending_grant, None);
    let (dm, _) = k.processes[0].inner.deadlock_detect.as_ref().unwrap();
    assert_eq!(dm.need, vec![vec![0, 0], vec![0, 0]]);
    assert_eq!(dm.allocation, vec![vec![1, 1], vec![0, 0]]);
    assert_eq!(dm.available, vec![0, 0]);
}

#[test]
fn without_detection_both_block() {
    let mut k = kernel();
    assert_eq!(sys_mutex_create(&mut k, true), 0);
    assert_eq!(sys_mutex_create(&mut k, true), 1);
    assert_eq!(sys_mutex_lock(&mut k, 0), 0);
    switch(&mut k, 1);
    assert_eq!(sys_mutex_lock(&mut k, 1), 0);
    switch(&mut k, 2);
    assert_eq!(sys_mutex_lock(&mut k, 1), 0);
    assert!(run_next(&mut k, 3));
    assert_eq!(sys_mutex_lock(&mut k, 0), 0);
    assert!(k.current.is_none());
    assert!(!run_next(&mut k, 4));
    assert_eq!(k.processes[0].inner.mutex_list[0].wait_queue.len(), 1);
    assert_eq!(k.processes[0].inner.mutex_list[1].wait_queue.len(), 1);
}

#[test]
fn enable_detect_is_refused_after_creation_or_for_bad_values() {
    let mut k = kernel();
    assert_eq!(sys_enable_deadlock_detect(&mut k, 2), -1);
    assert!(k.processes[0].inner.deadlock_detect.is_none());
    assert_eq!(sys_enable_deadlock_detect(&mut k, 1), 0);
    let (dm, ds) = k.processes[0].inner.deadlock_detect.as_ref().unwrap();
    assert_eq!(dm.allocation.len(), 2);
    assert_eq!(ds.need.len(), 2);
    assert_eq!(sys_enable_deadlock_detect(&mut k, 0), 0);
    assert!(k.processes[0].inner.deadlock_detect.is_none());
    assert_eq!(sys_semaphore_create(&mut k, 1), 0);
    assert_eq!(sys_enable_deadlock_detect(&mut k, 1), -1);
    assert!(k.processes[0].inner.deadlock_detect.is_none());
}

#[test]
fn mutex_unlock_without_waiter_frees_it() {
    let mut k = kernel();
    assert_eq!(sys_mutex_create(&mut k, false), 0);
    assert_eq!(sys_mutex_lock(&mut k, 0), 0);
    assert!(k.processes[0].inner.mutex_list[0].locked);
    assert_eq!(sys_mutex_unlock(&mut k, 0), 0);
    assert!(!k.processes[0].inner.mutex_list[0].locked);
    assert!(!k.processes[0].inner.mutex_list[0].blocking);
}

#[test]
fn semaphore_blocks_and_wakes_in_order() {
    let mut k = kernel();
    assert_eq!(sys_enable_deadlock_detect(&mut k, 1), 0);
    assert_eq!(sys_semaphore_create(&mut k, 1), 0);
    assert_eq!(sys_semaphore_down(&mut k, 0), 0);
    assert_eq!(k.processes[0].inner.semaphore_list[0].count, 0);
    switch(&mut k, 1);
    assert_eq!(tid(&k), 1);
    assert_eq!(sys_semaphore_down(&mut k, 0), 0);
    assert!(k.current.is_none());
    assert_eq!(k.processes[0].inner.semaphore_list[0].count, -1);
    assert!(run_next(&mut k, 2));
    assert_eq!(tid(&k), 0);
    assert_eq!(sys_semaphore_up(&mut k, 0), 0);
    assert_eq!(k.processes[0].inner.semaphore_list[0].count, 0);
    assert!(k.processes[0].inner.semaphore_list[0].wait_queue.is_empty());
    assert_eq!(k.manager.ready_queue.len(), 1);
    {
        let (_, ds) = k.processes[0].inner.deadlock_detect.as_ref().unwrap();
        assert_eq!(ds.allocation, vec![vec![0], vec![0]]);
        assert_eq!(ds.available, vec![1]);
        assert_eq!(ds.need, vec![vec![0], vec![1]]);
    }
    switch(&mut k, 3);
    assert_eq!(tid(&k), 1);
    assert_eq!(k.current.as_ref().unwrap().inner.pending_grant, Some(ResourceId::Semaphore(0)));
    complete_grant(&mut k);
    let (_, ds) = k.processes[0].inner.deadlock_detect.as_ref().unwrap();
    assert_eq!(ds.allocation, vec![vec![0], vec![1]]);
    assert_eq!(ds.available, vec![0]);
    assert_eq!(ds.need, vec![vec![0], vec![0]]);
}

#[test]
fn semaphore_down_that_would_deadlock_is_refused() {
    let mut k = kernel();
    assert_eq!(sys_enable_deadlock_detect(&mut k, 1), 0);
    assert_eq!(sys_semaphore_create(&mut k, 1), 0);
    assert_eq!(sys_semaphore_create(&mut k, 1), 1);
    assert_eq!(sys_semaphore_down(&mut k, 0), 0);
    switch(&mut k, 1);
    assert_eq!(sys_semaphore_down(&mut k, 1), 0);
    switch(&mut k, 2);
    assert_eq!(sys_semaphore_down(&mut k, 1), 0);
    assert!(run_next(&mut k, 3));
    assert_eq!(sys_semaphore_down(&mut k, 0), DEADLOCK_ERROR);
    assert_eq!(k.processes[0].inner.semaphore_list[0].count, 0);
}

#[test]
fn condvar_slots_are_reused() {
    let mut k = kernel();
    assert_eq!(sys_condvar_create(&mut k), 0);
    assert_eq!(sys_condvar_create(&mut k), 1);
    assert_eq!(sys_condvar_create(&mut k), 2);
    k.processes[0].inner.condvar_list[1] = None;
    assert_eq!(sys_condvar_create(&mut k), 1);
    assert_eq!(sys_condvar_create(&mut k), 3);
}

#[test]
fn condvar_wait_then_signal() {
    let mut k = kernel();
    assert_eq!(sys_mutex_create(&mut k, true), 0);
    assert_eq!(sys_condvar_create(&mut k), 0);
    assert_eq!(sys_mutex_lock(&mut k, 0), 0);
    assert_eq!(sys_condvar_wait(&mut k, 0, 0), 0);
    assert!(k.current.is_none());
    assert!(!k.processes[0].inner.mutex_list[0].locked);
    assert!(run_next(&mut k, 1));
    assert_eq!(tid(&k), 1);
    // thread 1 holds the mutex while signalling: thread 0 is woken all the same
    assert_eq!(sys_mutex_lock(&mut k, 0), 0);
    assert_eq!(sys_condvar_signal(&mut k, 0), 0);
    assert_eq!(k.manager.ready_queue.len(), 1);
    let woken = &k.manager.ready_queue[0];
    assert_eq!(woken.inner.task_status, TaskStatus::Ready);
    assert_eq!(woken.inner.pending_mutex, Some(0));
    assert!(k.processes[0].inner.mutex_list[0].wait_queue.is_empty());
    // thread 0 is dispatched while the mutex is still held: it queues on it
    switch(&mut k, 2);
    assert_eq!(tid(&k), 0);
    assert!(!mutex_retry(&mut k));
    assert!(k.current.is_none());
    assert_eq!(k.processes[0].inner.mutex_list[0].wait_queue.len(), 1);
    assert_eq!(k.processes[0].inner.mutex_list[0].wait_queue[0].inner.pending_mutex, None);
    assert!(run_next(&mut k, 3));
    assert_eq!(tid(&k), 1);
    // the unlock hands the mutex to thread 0
    assert_eq!(sys_mutex_unlock(&mut k, 0), 0);
    assert!(k.processes[0].inner.mutex_list[0].locked);
    assert_eq!(k.manager.ready_queue.len(), 1);
    assert_eq!(sys_condvar_signal(&mut k, 0), 0);
    assert_eq!(k.manager.ready_queue.len(), 1);
}

#[test]
fn condvar_signal_with_free_mutex_then_retry_takes_it() {
    let mut k = kernel();
    assert_eq!(sys_mutex_create(&mut k, true), 0);
    assert_eq!(sys_condvar_create(&mut k), 0);
    assert_eq!(sys_mutex_lock(&mut k, 0), 0);
    assert_eq!(sys_condvar_wait(&mut k, 0, 0), 0);
    assert!(run_next(&mut k, 1));
    assert_eq!(sys_condvar_signal(&mut k, 0), 0);
    assert!(!k.processes[0].inner.mutex_list[0].locked);
    assert_eq!(k.manager.ready_queue.len(), 1);
    assert_eq!(k.manager.ready_queue[0].inner.task_status, TaskStatus::Ready);
    switch(&mut k, 2);
    assert_eq!(tid(&k), 0);
    assert!(mutex_retry(&mut k));
    assert!(k.processes[0].inner.mutex_list[0].locked);
    assert_eq!(k.current.as_ref().unwrap().inner.pending_mutex, None);
}

#[test]
fn condvar_round_trip_keeps_detector_accounting() {
    let mut k = kernel();
    assert_eq!(sys_enable_deadlock_detect(&mut k, 1), 0);
    assert_eq!(sys_mutex_create(&mut k, true), 0);
    assert_eq!(sys_condvar_create(&mut k), 0);
    assert_eq!(sys_mutex_lock(&mut k, 0), 0);
    assert_eq!(sys_condvar_wait(&mut k, 0, 0), 0);
    {
        let (dm, _) = k.processes[0].inner.deadlock_detect.as_ref().unwrap();
        assert_eq!(dm.allocation, vec![vec![0], vec![0]]);
        assert_eq!(dm.available, vec![1]);
    }
    assert!(run_next(&mut k, 1));
    assert_eq!(sys_condvar_signal(&mut k, 0), 0);
    {
        let (dm, _) = k.processes[0].inner.deadlock_detect.as_ref().unwrap();
        assert_eq!(dm.need, vec![vec![1], vec![0]]);
    }
    switch(&mut k, 2);
    assert_eq!(tid(&k), 0);
    assert!(mutex_retry(&mut k));
    {
        let (dm, _) = k.processes[0].inner.deadlock_detect.as_ref().unwrap();
        assert_eq!(dm.need, vec![vec![0], vec![0]]);
        assert_eq!(dm.allocation, vec![vec![1], vec![0]]);
        assert_eq!(dm.available, vec![0]);
    }
    assert_eq!(sys_mutex_unlock(&mut k, 0), 0);
    let (dm, _) = k.processes[0].inner.deadlock_detect.as_ref().unwrap();
    assert_eq!(dm.allocation, vec![vec![0], vec![0]]);
    assert_eq!(dm.available, vec![1]);
}

#[test]
fn sleeping_thread_leaves_the_processor() {
    let mut k = kernel();
    assert_eq!(sys_sleep(&mut k, 30, 100), 0);
    assert!(k.current.is_none());
    assert_eq!(k.timers.len(), 1);
    assert_eq!(k.timers[0].expire_ms, 130);
    assert_eq!(k.timers[0].task.inner.task_status, TaskStatus::Blocked);
}

#[test]
fn spin_mutex_contention_yields_and_retries() {
    let mut k = kernel();
    assert_eq!(sys_mutex_create(&mut k, false), 0);
    assert_eq!(sys_mutex_lock(&mut k, 0), 0);
    switch(&mut k, 1);
    assert_eq!(tid(&k), 1);
    assert_eq!(sys_mutex_lock(&mut k, 0), 0);
    assert!(k.current.is_none());
    let spinner = k.manager.ready_queue.last().unwrap();
    assert_eq!(spinner.inner.pending_mutex, Some(0));
    assert_eq!(spinner.inner.task_status, TaskStatus::Ready);
    assert!(k.processes[0].inner.mutex_list[0].wait_queue.is_empty());
    assert!(run_next(&mut k, 2));
    assert_eq!(tid(&k), 0);
    switch(&mut k, 3);
    assert_eq!(tid(&k), 1);
    // still held: yield again
    assert!(!mutex_retry(&mut k));
    assert!(k.current.is_none());
    assert!(run_next(&mut k, 4));
    assert_eq!(tid(&k), 0);
    assert_eq!(sys_mutex_unlock(&mut k, 0), 0);
    assert!(!k.processes[0].inner.mutex_list[0].locked);
    switch(&mut k, 5);
    assert_eq!(tid(&k), 1);
    assert!(mutex_retry(&mut k));
    assert!(k.processes[0].inner.mutex_list[0].locked);
    assert_eq!(k.current.as_ref().unwrap().inner.pending_mutex, None);
}

#[test]
fn condvar_signal_on_held_spin_mutex_makes_waiter_spin() {
    let mut k = kernel();
    assert_eq!(sys_mutex_create(&mut k, false), 0);
    assert_eq!(sys_condvar_create(&mut k), 0);
    assert_eq!(sys_mutex_lock(&mut k, 0), 0);
    assert_eq!(sys_condvar_wait(&mut k, 0, 0), 0);
    assert!(!k.processes[0].inner.mutex_list[0].locked);
    assert!(run_next(&mut k, 1));
    assert_eq!(sys_mutex_lock(&mut k, 0), 0);
    assert_eq!(sys_condvar_signal(&mut k, 0), 0);
    let woken = k.manager.ready_queue.last().unwrap();
    assert_eq!(woken.inner.pending_mutex, Some(0));
    assert!(k.processes[0].inner.mutex_list[0].wait_queue.is_empty());
}
