use task_core::abi::{TimeVal, TASK_INFO_SIZE};
use task_core::config::{BIG_STRIDE, MAX_SYSCALL_NUM, PAGE_SIZE};
use task_core::manager::TaskManager;
use task_core::mm::MemorySet;
use task_core::process::{find_process, pid2process, Kernel, ProcessControlBlock, INIT_PID};
use task_core::syscall_process::{
    check_timer, run_next, sys_exit, sys_fork, sys_getpid, sys_kill, sys_mmap, sys_set_priority,
    sys_spawn, sys_task_info, sys_waitpid, sys_yield,
};
use task_core::syscall_sync::sys_sleep;
use task_core::task::{TaskControlBlock, TaskStatus};

/// The initial process (pid 0) and a user process (pid 1, its child) whose
/// main thread runs.
fn kernel() -> Kernel {
    let mut init = ProcessControlBlock::new(INIT_PID, None, MemorySet::new(100));
    init.inner.children.push(1);
    let user = ProcessControlBlock::new(1, Some(INIT_PID), MemorySet::new(101));
    Kernel {
        processes: vec![init, user],
        manager: TaskManager::new(),
        current: Some(TaskControlBlock::new(1, 0, 0x8000_0000, 1)),
        timers: Vec::new(),
        next_pid: 2,
        next_kstack: 2,
    }
}

fn proc_of(k: &Kernel, pid: usize) -> &ProcessControlBlock {
    &k.processes[find_process(&k.processes, pid).unwrap()]
}

fn current_pid(k: &Kernel) -> usize {
    k.current.as_ref().unwrap().pid
}

fn read_i32(k: &Kernel, pid: usize, ptr: usize) -> i32 {
    let b = proc_of(k, pid).inner.memory_set.read_user_bytes(ptr, 4);
    i32::from_le_bytes([b[0], b[1], b[2], b[3]])
}

#[test]
fn getpid_of_running_thread() {
    let k = kernel();
    assert_eq!(sys_getpid(&k), 1);
}

#[test]
fn yield_requeues_and_next_runs() {
    let mut k = kernel();
    assert_eq!(sys_yield(&mut k), 0);
    assert!(k.current.is_none());
    assert_eq!(k.manager.ready_queue.len(), 1);
    assert_eq!(k.manager.ready_queue[0].inner.task_status, TaskStatus::Ready);
    assert!(run_next(&mut k, 5));
    let t = k.current.as_ref().unwrap();
    assert_eq!(t.inner.task_status, TaskStatus::Running);
    assert_eq!(t.inner.stride, BIG_STRIDE / 16);
}

#[test]
fn first_schedule_time_is_set_once() {
    let mut k = kernel();
    k.current = None;
    k.manager.add(TaskControlBlock::new(1, 0, 0x8000_0000, 1));
    assert!(run_next(&mut k, 10));
    assert_eq!(k.current.as_ref().unwrap().inner.task_info.first_schedule_time, Some(10));
    sys_yield(&mut k);
    assert!(run_next(&mut k, 25));
    assert_eq!(k.current.as_ref().unwrap().inner.task_info.first_schedule_time, Some(10));
    sys_yield(&mut k);
    assert!(run_next(&mut k, 40));
    assert_eq!(k.current.as_ref().unwrap().inner.task_info.first_schedule_time, Some(10));
}

#[test]
fn run_next_with_empty_queue() {
    let mut k = kernel();
    k.current = None;
    assert!(!run_next(&mut k, 1));
    assert!(k.current.is_none());
}

#[test]
fn set_priority_below_two_is_refused() {
    let mut k = kernel();
    assert_eq!(sys_set_priority(&mut k, 1), -1);
    assert_eq!(sys_set_priority(&mut k, -3), -1);
    assert_eq!(k.current.as_ref().unwrap().inner.pass, BIG_STRIDE / 16);
    assert_eq!(sys_set_priority(&mut k, 5), 5);
    let t = k.current.as_ref().unwrap();
    assert_eq!(t.inner.stride, 5);
    assert_eq!(t.inner.pass, 2000);
}

#[test]
fn fork_copies_address_space_and_returns_zero_in_child() {
    let mut k = kernel();
    assert_eq!(sys_mmap(&mut k, 0x10_000, PAGE_SIZE, 3), 0);
    let p1 = find_process(&k.processes, 1).unwrap();
    k.processes[p1].inner.memory_set.write_user_bytes(0x10_010, &vec![9, 8, 7]);
    k.current.as_mut().unwrap().inner.trap_cx.x[10] = 77;
    k.current.as_mut().unwrap().inner.trap_cx.x[11] = 5;
    let child = sys_fork(&mut k);
    assert_eq!(child, 2);
    let c = proc_of(&k, 2);
    assert_eq!(c.inner.parent, Some(1));
    assert_eq!(c.inner.memory_set.read_user_bytes(0x10_010, 3), vec![9, 8, 7]);
    assert_eq!(proc_of(&k, 1).inner.children, vec![2]);
    let t = k.manager.ready_queue.last().unwrap();
    assert_eq!(t.pid, 2);
    assert_eq!(t.inner.trap_cx.x[10], 0);
    assert_eq!(t.inner.trap_cx.x[11], 5);
    assert_eq!(k.next_pid, 3);
}

#[test]
fn waitpid_states() {
    let mut k = kernel();
    assert_eq!(sys_mmap(&mut k, 0x10_000, PAGE_SIZE, 3), 0);
    let code_ptr = 0x10_000 + PAGE_SIZE - 2;
    assert_eq!(sys_mmap(&mut k, 0x11_000, PAGE_SIZE, 3), 0);
    let child = sys_fork(&mut k);
    assert_eq!(child, 2);
    assert_eq!(sys_waitpid(&mut k, child as isize, code_ptr), -2);
    // the child runs, sleeps, wakes up and exits with 7
    sys_yield(&mut k);
    assert!(run_next(&mut k, 1));
    assert_eq!(current_pid(&k), 2);
    assert_eq!(sys_sleep(&mut k, 10, 1), 0);
    assert!(run_next(&mut k, 2));
    assert_eq!(current_pid(&k), 1);
    assert_eq!(sys_waitpid(&mut k, child as isize, code_ptr), -2);
    check_timer(&mut k, 11);
    assert!(k.timers.is_empty());
    sys_yield(&mut k);
    assert!(run_next(&mut k, 11));
    assert_eq!(current_pid(&k), 2);
    sys_exit(&mut k, 7);
    assert!(proc_of(&k, 2).inner.is_zombie);
    assert!(pid2process(&k.processes, 2).is_none());
    assert!(run_next(&mut k, 12));
    assert_eq!(current_pid(&k), 1);
    assert_eq!(sys_waitpid(&mut k, child as isize, code_ptr), child);
    assert_eq!(read_i32(&k, 1, code_ptr), 7);
    assert!(find_process(&k.processes, 2).is_none());
    assert_eq!(sys_waitpid(&mut k, child as isize, code_ptr), -1);
}

#[test]
fn waitpid_any_child_and_negative_code() {
    let mut k = kernel();
    assert_eq!(sys_mmap(&mut k, 0x10_000, PAGE_SIZE, 3), 0);
    assert_eq!(sys_waitpid(&mut k, -1, 0x10_000), -1);
    let a = sys_fork(&mut k);
    let b = sys_fork(&mut k);
    assert_eq!((a, b), (2, 3));
    let ib = find_process(&k.processes, 3).unwrap();
    k.processes[ib].inner.is_zombie = true;
    k.processes[ib].inner.exit_code = -5;
    assert_eq!(sys_waitpid(&mut k, 7, 0x10_000), -1);
    assert_eq!(sys_waitpid(&mut k, -1, 0x10_000), 3);
    assert_eq!(read_i32(&k, 1, 0x10_000), -5);
    assert_eq!(sys_waitpid(&mut k, -1, 0x10_000), -2);
    assert_eq!(proc_of(&k, 1).inner.children, vec![2]);
}

#[test]
fn exit_of_main_thread_hands_children_to_init() {
    let mut k = kernel();
    let a = sys_fork(&mut k);
    let b = sys_fork(&mut k);
    assert_eq!(sys_mmap(&mut k, 0x10_000, PAGE_SIZE, 3), 0);
    sys_exit(&mut k, 3);
    let p = proc_of(&k, 1);
    assert!(p.inner.is_zombie);
    assert_eq!(p.inner.exit_code, 3);
    assert!(p.inner.children.is_empty());
    assert!(p.inner.memory_set.pages.is_empty());
    assert_eq!(proc_of(&k, INIT_PID).inner.children, vec![1, a as usize, b as usize]);
    assert_eq!(proc_of(&k, 2).inner.parent, Some(INIT_PID));
    assert_eq!(proc_of(&k, 3).inner.parent, Some(INIT_PID));
    let stopped = k.manager.stop_task.as_ref().unwrap();
    assert_eq!(stopped.inner.exit_code, Some(3));
    assert!(stopped.inner.res.is_none());
    assert!(k.current.is_none());
    assert_eq!(k.manager.ready_queue.len(), 2);
}

#[test]
fn exit_of_main_thread_drops_its_other_threads() {
    let mut k = kernel();
    let p1 = find_process(&k.processes, 1).unwrap();
    k.processes[p1].inner.tasks.push(true);
    k.manager.add(TaskControlBlock::new(1, 1, 0x8000_0000, 5));
    k.manager.add(TaskControlBlock::new(0, 0, 0x8000_0000, 6));
    sys_exit(&mut k, 0);
    assert_eq!(k.manager.ready_queue.len(), 1);
    assert_eq!(k.manager.ready_queue[0].pid, 0);
    assert!(proc_of(&k, 1).inner.tasks.is_empty());
}

#[test]
fn exit_of_other_thread_frees_its_slot_only() {
    let mut k = kernel();
    let p1 = find_process(&k.processes, 1).unwrap();
    k.processes[p1].inner.tasks.push(true);
    k.current = Some(TaskControlBlock::new(1, 1, 0x8000_0000, 5));
    sys_exit(&mut k, 4);
    let p = proc_of(&k, 1);
    assert!(!p.inner.is_zombie);
    assert_eq!(p.inner.tasks, vec![true, false]);
    assert_eq!(k.manager.stop_task.as_ref().unwrap().inner.exit_code, Some(4));
}

#[test]
fn kill_sets_signal_of_live_process() {
    let mut k = kernel();
    assert_eq!(sys_kill(&mut k, 1, 1 << 11), 0);
    assert_eq!(sys_kill(&mut k, 1, 1 << 2), 0);
    assert_eq!(proc_of(&k, 1).inner.signals, (1 << 11) | (1 << 2));
    assert_eq!(sys_kill(&mut k, 42, 1 << 2), -1);
    let p1 = find_process(&k.processes, 1).unwrap();
    k.processes[p1].inner.is_zombie = true;
    assert_eq!(sys_kill(&mut k, 1, 1 << 2), -1);
}

#[test]
fn kill_refuses_unknown_signal_bits() {
    let mut k = kernel();
    assert_eq!(sys_kill(&mut k, 1, 1 << 9), -1);
    assert_eq!(sys_kill(&mut k, 1, (1 << 4) | 1), -1);
    assert_eq!(proc_of(&k, 1).inner.signals, 0);
    assert_eq!(sys_kill(&mut k, 1, 0x954), 0);
    assert_eq!(proc_of(&k, 1).inner.signals, 0x954);
}

#[test]
fn spawn_does_not_copy_the_parent_address_space() {
    let mut k = kernel();
    assert_eq!(sys_mmap(&mut k, 0x100_000, 64 * PAGE_SIZE, 3), 0);
    assert_eq!(sys_spawn(&mut k, None, 0x1000, 0x8000), -1);
    let mut program = MemorySet::new(55);
    program.insert_framed_area(0x1000, 0x2000, 2 | 8 | 16);
    let child = sys_spawn(&mut k, Some(program), 0x1000, 0x8000);
    assert_eq!(child, 2);
    let c = proc_of(&k, 2);
    assert_eq!(c.inner.memory_set.pages.len(), 1);
    assert_eq!(c.inner.parent, Some(1));
    assert_eq!(proc_of(&k, 1).inner.memory_set.pages.len(), 64);
    let t = k.manager.ready_queue.last().unwrap();
    assert_eq!(t.pid, 2);
    assert_eq!(t.inner.trap_cx.sepc, 0x1000);
    assert_eq!(t.inner.trap_cx.x[2], 0x8000);
    assert_eq!(t.inner.trap_cx.x[10], 0);
}

#[test]
fn task_info_reports_counts_and_time() {
    let mut k = kernel();
    assert_eq!(sys_mmap(&mut k, 0x10_000, 2 * PAGE_SIZE, 3), 0);
    {
        let t = k.current.as_mut().unwrap();
        t.inner.set_first_schedule_time(100);
        t.inc_syscall_times(169);
        t.inc_syscall_times(169);
        t.inc_syscall_times(410);
    }
    let ptr = 0x10_000 + PAGE_SIZE - 10;
    assert_eq!(sys_task_info(&mut k, ptr, 350), 0);
    let b = proc_of(&k, 1).inner.memory_set.read_user_bytes(ptr, TASK_INFO_SIZE);
    assert_eq!(b[0], 1);
    let count = |id: usize| u32::from_le_bytes([b[4 + 4 * id], b[5 + 4 * id], b[6 + 4 * id], b[7 + 4 * id]]);
    assert_eq!(count(169), 2);
    assert_eq!(count(410), 1);
    assert_eq!(count(0), 0);
    let t = 4 + 4 * MAX_SYSCALL_NUM + 4;
    let mut time = [0u8; 8];
    time.copy_from_slice(&b[t..t + 8]);
    assert_eq!(u64::from_le_bytes(time), 250);
}

#[test]
fn time_val_bytes() {
    let tv = TimeVal::from_us(1_000_001);
    assert_eq!((tv.sec, tv.usec), (1, 1));
    let b = tv.to_bytes();
    assert_eq!(b, vec![1, 0, 0, 0, 0, 0, 0, 0, 1, 0, 0, 0, 0, 0, 0, 0]);
}
