use task_core::manager::TaskManager;
use task_core::mm::MemorySet;
use task_core::process::{Kernel, ProcessControlBlock};
use task_core::syscall_process::{read_exec_args, sys_exec, sys_mmap};
use task_core::process::TimerCondVar;
use task_core::task::TaskControlBlock;

fn kernel() -> Kernel {
    let user = ProcessControlBlock::new(1, None, MemorySet::new(101));
    Kernel {
        processes: vec![user],
        manager: TaskManager::new(),
        current: Some(TaskControlBlock::new(1, 0, 0x8000_0000, 1)),
        timers: Vec::new(),
        next_pid: 2,
        next_kstack: 2,
    }
}

fn word(v: usize) -> Vec<u8> {
    (v as u64).to_le_bytes().to_vec()
}

fn stack_program() -> MemorySet {
    let mut ms = MemorySet::new(77);
    ms.insert_framed_area(0x7000, 0x8000, 2 | 4 | 16);
    ms
}

#[test]
fn exec_arguments_are_read_from_user_memory() {
    let mut k = kernel();
    assert_eq!(sys_mmap(&mut k, 0x10_000, 0x2000, 3), 0);
    let ms = &mut k.processes[0].inner.memory_set;
    ms.write_user_bytes(0x10_ffe, &b"prog\0".to_vec());
    ms.write_user_bytes(0x10_010, &b"a1\0".to_vec());
    ms.write_user_bytes(0x10_020, &b"bb\0".to_vec());
    let mut list = word(0x10_010);
    list.extend(word(0x10_020));
    list.extend(word(0));
    ms.write_user_bytes(0x10_100, &list);
    assert_eq!(ms.translated_word(0x10_108), 0x10_020);
    assert_eq!(ms.translated_str(0x10_ffe), b"prog".to_vec());
    let (path, args) = read_exec_args(&k, 0x10_ffe, 0x10_100);
    assert_eq!(path, b"prog".to_vec());
    assert_eq!(args, vec![b"a1".to_vec(), b"bb".to_vec()]);
}

#[test]
fn exec_with_no_program_fails() {
    let mut k = kernel();
    assert_eq!(sys_exec(&mut k, None, 0x1000, 0x8000, &vec![]), -1);
    assert_eq!(k.processes[0].inner.memory_set.root_ppn, 101);
}

#[test]
fn exec_pushes_arguments_on_the_new_stack() {
    let mut k = kernel();
    let args = vec![b"a1".to_vec(), b"bb".to_vec()];
    assert_eq!(sys_exec(&mut k, Some(stack_program()), 0x1000, 0x8000, &args), 2);
    let ms = &k.processes[0].inner.memory_set;
    assert_eq!(ms.root_ppn, 77);
    let base = 0x8000 - 24;
    assert_eq!(ms.translated_word(base), 0x7fe5);
    assert_eq!(ms.translated_word(base + 8), 0x7fe2);
    assert_eq!(ms.translated_word(base + 16), 0);
    assert_eq!(ms.translated_str(0x7fe5), b"a1".to_vec());
    assert_eq!(ms.translated_str(0x7fe2), b"bb".to_vec());
    let t = k.current.as_ref().unwrap();
    assert_eq!(t.inner.trap_cx.sepc, 0x1000);
    assert_eq!(t.inner.trap_cx.x[2], 0x7fe0);
    assert_eq!(t.inner.trap_cx.x[10], 2);
    assert_eq!(t.inner.trap_cx.x[11], base);
    assert_eq!(t.inner.trap_cx.x[1], 0);
}

#[test]
fn exec_without_arguments() {
    let mut k = kernel();
    assert_eq!(sys_exec(&mut k, Some(stack_program()), 0x2000, 0x8000, &vec![]), 0);
    let ms = &k.processes[0].inner.memory_set;
    assert_eq!(ms.translated_word(0x8000 - 8), 0);
    let t = k.current.as_ref().unwrap();
    assert_eq!(t.inner.trap_cx.x[2], 0x8000 - 8);
    assert_eq!(t.inner.trap_cx.x[11], 0x8000 - 8);
}

#[test]
fn exec_keeps_only_the_calling_thread() {
    let mut k = kernel();
    k.processes[0].inner.tasks = vec![true, true, true];
    k.current = Some(TaskControlBlock::new(1, 2, 0x8000_0000, 3));
    k.manager.add(TaskControlBlock::new(1, 0, 0x8000_0000, 1));
    k.manager.add(TaskControlBlock::new(7, 0, 0x8000_0000, 4));
    k.timers.push(TimerCondVar { expire_ms: 50, task: TaskControlBlock::new(1, 1, 0x8000_0000, 2) });
    k.timers.push(TimerCondVar { expire_ms: 60, task: TaskControlBlock::new(7, 1, 0x8000_0000, 5) });
    assert_eq!(sys_exec(&mut k, Some(stack_program()), 0x1000, 0x8000, &vec![b"x".to_vec()]), 1);
    assert_eq!(k.processes[0].inner.tasks, vec![true]);
    assert_eq!(k.manager.ready_queue.len(), 1);
    assert_eq!(k.manager.ready_queue[0].pid, 7);
    assert_eq!(k.timers.len(), 1);
    assert_eq!(k.timers[0].task.pid, 7);
    let t = k.current.as_ref().unwrap();
    assert_eq!(t.inner.res.as_ref().unwrap().tid, 0);
    assert_eq!(t.kstack, 3);
}
