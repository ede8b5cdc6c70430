use task_core::info::{get_task_info, inc_syscall_times, set_first_schedule_time, TaskInfoManager};
use task_core::task::{TaskControlBlock, TaskInfo, TaskStatus};

#[test]
fn first_schedule_time_keeps_the_first_value() {
    let mut info = TaskInfo::new();
    info.set_first_schedule_time(12);
    info.set_first_schedule_time(40);
    assert_eq!(info.first_schedule_time, Some(12));
}

#[test]
fn syscall_counts_accumulate_per_id() {
    let mut t = TaskControlBlock::new(3, 0, 0, 0);
    t.inc_syscall_times(64);
    t.inc_syscall_times(64);
    t.inc_syscall_times(93);
    let info = t.get_task_info();
    assert_eq!(info.syscall_times.get(&64), Some(&2));
    assert_eq!(info.syscall_times.get(&93), Some(&1));
    assert_eq!(info.syscall_times.get(&1), None);
    assert_eq!(info.first_schedule_time, None);
}

#[test]
fn new_thread_is_ready_with_default_stride() {
    let mut t = TaskControlBlock::new(3, 2, 0x1000, 4);
    assert_eq!(t.inner.get_status(), TaskStatus::Ready);
    assert_eq!(t.inner.stride, 0);
    assert_eq!(t.inner.pass, 625);
    assert_eq!(t.inner_exclusive_access().res.as_ref().unwrap().tid, 2);
    t.inner_exclusive_access().get_trap_cx().x[10] = 5;
    assert_eq!(t.inner.trap_cx.x[10], 5);
}

#[test]
fn task_info_manager_tracks_each_slot() {
    let mut m = TaskInfoManager::new();
    set_first_schedule_time(&mut m, 2, 7);
    set_first_schedule_time(&mut m, 2, 9);
    inc_syscall_times(&mut m, 2, 169);
    inc_syscall_times(&mut m, 3, 169);
    inc_syscall_times(&mut m, 2, 169);
    let g = get_task_info(&m, 2);
    assert_eq!(g.task_id, 2);
    assert_eq!(g.as_ref().first_schedule_time, Some(7));
    assert_eq!(g.as_ref().syscall_times.get(&169), Some(&2));
    let g3 = m.get_task_info(3);
    assert_eq!(g3.as_ref().syscall_times.get(&169), Some(&1));
    assert_eq!(g3.as_ref().first_schedule_time, None);
}
