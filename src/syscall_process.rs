//! Process, memory and time syscalls of the running thread.
use vstd::prelude::*;
use crate::abi::{
    le_bytes, lemma_le_bytes_len, lemma_task_info_size, push_le, task_info_bytes, time_val_bytes,
    TaskInfo, TimeVal, TASK_INFO_SIZE,
};
use crate::config::{MAX_SYSCALL_NUM, MIN_PRIORITY, PAGE_SIZE, SIGNAL_FLAGS};
use crate::manager::wakeup_task;
use crate::mm::{vpn_ceil, vpn_of, vpn_range, MemorySet, PTE_V};
use crate::mmap::{mmap_page, munmap_page, perm_of_port};
use crate::process::{
    find_process, lemma_wf_adopt, lemma_wf_orphans, lemma_wf_reap, lemma_wf_one_changed, lemma_find_proc_absent, lemma_find_proc_bounds, lemma_find_proc_unique,
    live_index, pid2process, pids_unique, proc_index, ready, remove_from_pid2process,
    same_but_memory, Kernel, ProcessControlBlock, ProcessControlBlockInner, TimerCondVar, INIT_PID,
};
use crate::task::{TaskControlBlock, TaskStatus, TrapContext};

verus! {

/// yield syscall: the caller goes back to the ready queue.
pub fn sys_yield(k: &mut Kernel) -> (r: isize)
    requires
        old(k).current.is_some(),
    ensures
        old(k).wf() ==> final(k).wf(),
        r == 0,
        final(k).current.is_none(),
        final(k).manager.ready_queue@ == old(k).manager.ready_queue@.push(ready(old(k).cur())),
        final(k).manager.stop_task == old(k).manager.stop_task,
        final(k).processes == old(k).processes,
        final(k).timers == old(k).timers,
        final(k).next_pid == old(k).next_pid,
        final(k).next_kstack == old(k).next_kstack,
{
    let mut task = k.current.take().unwrap();
    task.inner.task_status = TaskStatus::Ready;
    k.manager.add(task);
    0
}

/// getpid syscall: the pid of the caller's process.
pub fn sys_getpid(k: &Kernel) -> (r: isize)
    requires
        k.current.is_some(),
        k.cur().pid <= isize::MAX,
    ensures
        r == k.cur().pid,
{
    k.current.as_ref().unwrap().pid as isize
}

/// set priority syscall: refused with -1 below 2; otherwise the caller's
/// stride becomes `prio`, its pass `BIG_STRIDE / prio`, and `prio` is returned.
pub fn sys_set_priority(k: &mut Kernel, prio: isize) -> (r: isize)
    requires
        old(k).current.is_some(),
    ensures
        old(k).wf() ==> final(k).wf(),
        r == if prio < 2 { -1isize } else { prio },
        prio < 2 ==> *final(k) == *old(k),
        prio >= 2 ==> (final(k).current matches Some(t) && t.inner.stride == prio as usize
            && t.inner.pass == crate::config::BIG_STRIDE / (prio as usize)
            && t.inner.task_status == old(k).cur().inner.task_status
            && t.inner.task_info == old(k).cur().inner.task_info
            && t.inner.res == old(k).cur().inner.res
            && t.pid == old(k).cur().pid),
        final(k).processes == old(k).processes,
        final(k).manager == old(k).manager,
        final(k).timers == old(k).timers,
{
    if prio < MIN_PRIORITY as isize {
        return -1;
    }
    match &mut k.current {
        Some(t) => t.set_priority(prio as usize),
        None => {},
    }
    prio
}

/// get time syscall: writes the time `time_us` (microseconds since boot, read
/// by the caller at entry) as a `TimeVal` to user address `ts` of the caller's
/// process, piece by piece where it crosses pages.
pub fn sys_get_time(k: &mut Kernel, ts: usize, _tz: usize, time_us: usize) -> (r: isize)
    requires
        old(k).running(),
        old(k).cur_proc().inner.memory_set.wf(),
        ts + 16 <= usize::MAX,
        old(k).cur_proc().inner.memory_set.range_mapped(ts as int, 16),
    ensures
        old(k).wf() ==> final(k).wf(),
        r == 0,
        final(k).only_proc_changed(old(k), old(k).cur_idx()),
        same_but_memory(old(k).cur_proc(), final(k).processes@[old(k).cur_idx()]),
        final(k).processes@[old(k).cur_idx()].inner.memory_set.wrote(
            &old(k).cur_proc().inner.memory_set,
            ts as int,
            time_val_bytes((time_us / 1_000_000) as nat, (time_us % 1_000_000) as nat),
        ),
{
    let i = k.current_process_index();
    let results = TimeVal::from_us(time_us);
    let bytes = results.to_bytes();
    proof {
        lemma_le_bytes_len(results.sec as nat, 8);
        lemma_le_bytes_len(results.usec as nat, 8);
    }
    k.processes[i].inner.memory_set.write_user_bytes(ts, &bytes);
    proof {
        if old(k).wf() {
            lemma_wf_one_changed(old(k), k, old(k).cur_idx());
        }
    }
    0
}

/// The calls of each syscall id recorded in `info`, as the record lists them.
pub open spec fn counts_of(info: crate::task::TaskInfo) -> Seq<u32> {
    Seq::new(MAX_SYSCALL_NUM as nat, |id: int| info.count_of(id as u32) as u32)
}

/// task info syscall: writes the caller's task information (status running,
/// calls per syscall id, ms since its first dispatch as of `now_ms`) to user
/// address `ti` of its process.
pub fn sys_task_info(k: &mut Kernel, ti: usize, now_ms: usize) -> (r: isize)
    requires
        old(k).running(),
        old(k).cur().inner.task_info.wf(),
        old(k).cur().inner.task_info.first_schedule_time matches Some(f) && f <= now_ms,
        old(k).cur_proc().inner.memory_set.wf(),
        ti + TASK_INFO_SIZE <= usize::MAX,
        old(k).cur_proc().inner.memory_set.range_mapped(ti as int, TASK_INFO_SIZE as int),
    ensures
        old(k).wf() ==> final(k).wf(),
        r == 0,
        final(k).only_proc_changed(old(k), old(k).cur_idx()),
        same_but_memory(old(k).cur_proc(), final(k).processes@[old(k).cur_idx()]),
        final(k).processes@[old(k).cur_idx()].inner.memory_set.wrote(
            &old(k).cur_proc().inner.memory_set,
            ti as int,
            task_info_bytes(
                TaskStatus::Running,
                counts_of(old(k).cur().inner.task_info),
                (now_ms - old(k).cur().inner.task_info.first_schedule_time.unwrap()) as nat,
            ),
        ),
{
    let i = k.current_process_index();
    let info = k.current.as_ref().unwrap().get_task_info();
    let first = info.first_schedule_time.unwrap();
    let time = now_ms - first;
    let mut syscall_times: Vec<u32> = Vec::new();
    let mut id: usize = 0;
    while id < MAX_SYSCALL_NUM
        invariant
            id <= MAX_SYSCALL_NUM,
            info.syscall_times@ == old(k).cur().inner.task_info.syscall_times@,
            syscall_times@ == counts_of(old(k).cur().inner.task_info).take(id as int),
        decreases MAX_SYSCALL_NUM - id,
    {
        let c: u32 = match info.syscall_times.get(&(id as u32)) {
            Some(v) => *v,
            None => 0,
        };
        syscall_times.push(c);
        assert(syscall_times@ =~= counts_of(old(k).cur().inner.task_info).take(id + 1));
        id = id + 1;
    }
    assert(syscall_times@ =~= counts_of(old(k).cur().inner.task_info));
    let record = TaskInfo { status: TaskStatus::Running, syscall_times, time };
    let bytes = record.to_bytes();
    proof {
        lemma_task_info_size(record.status, record.syscall_times@, record.time as nat);
    }
    k.processes[i].inner.memory_set.write_user_bytes(ti, &bytes);
    proof {
        if old(k).wf() {
            lemma_wf_one_changed(old(k), k, old(k).cur_idx());
        }
    }
    0
}


/// The mmap arguments are refused: `start` is not page aligned, or the range
/// is not empty and `port` holds bits other than R, W, X or none of them.
pub open spec fn mmap_args_bad(start: usize, len: usize, port: usize) -> bool {
    start % PAGE_SIZE != 0 || (len != 0 && (port & !7usize != 0 || port & 7usize == 0))
}

/// mmap syscall: maps `[start, start + len)` in the caller's process with the
/// permissions of `port` (R=1, W=2, X=4) and the user bit. An empty range
/// succeeds with nothing done. Refused with -1 for bad arguments or when a
/// page of the range is mapped already.
pub fn sys_mmap(k: &mut Kernel, start: usize, len: usize, port: usize) -> (r: isize)
    requires
        old(k).running(),
        old(k).cur_proc().inner.memory_set.wf(),
        start + len <= usize::MAX - PAGE_SIZE,
    ensures
        old(k).wf() ==> final(k).wf(),
        ({
            let i = old(k).cur_idx();
            let m = old(k).cur_proc().inner.memory_set;
            let f = final(k).processes@[i].inner.memory_set;
            let lo = vpn_of(start as int);
            let hi = vpn_ceil(start + len);
            let done = !mmap_args_bad(start, len, port) && len != 0 && m.none_mapped(lo, hi);
            &&& r == if mmap_args_bad(start, len, port) || (len != 0 && !m.none_mapped(lo, hi)) { -1isize } else { 0isize }
            &&& final(k).only_proc_changed(old(k), i)
            &&& same_but_memory(old(k).cur_proc(), final(k).processes@[i])
            &&& f.wf()
            &&& f.root_ppn == m.root_ppn
            &&& !done ==> f.pages@ == m.pages@
            &&& done ==> f.fresh_range(&m, lo, hi, perm_of_port(port) | PTE_V)
        }),
{
    if start % PAGE_SIZE != 0 {
        return -1;
    }
    if len == 0 {
        return 0;
    }
    if port & !0b111 != 0 || port & 0b111 == 0 {
        return -1;
    }
    let i = k.current_process_index();
    if !mmap_page(&mut k.processes[i].inner.memory_set, start, len, port) {
        proof {
            if old(k).wf() {
                lemma_wf_one_changed(old(k), k, old(k).cur_idx());
            }
        }
        return -1;
    }
    proof {
        if old(k).wf() {
            lemma_wf_one_changed(old(k), k, old(k).cur_idx());
        }
    }
    0
}

/// munmap syscall: unmaps `[start, start + len)`, `len` rounded up to whole
/// pages, in the caller's process. Refused with -1, and nothing unmapped,
/// when `start` is not page aligned or a page of the range is not mapped.
pub fn sys_munmap(k: &mut Kernel, start: usize, len: usize) -> (r: isize)
    requires
        old(k).running(),
        old(k).cur_proc().inner.memory_set.wf(),
        start + len <= usize::MAX - 2 * PAGE_SIZE,
    ensures
        old(k).wf() ==> final(k).wf(),
        ({
            let i = old(k).cur_idx();
            let m = old(k).cur_proc().inner.memory_set;
            let f = final(k).processes@[i].inner.memory_set;
            let lo = vpn_of(start as int);
            let hi = vpn_of(start as int) + (len + PAGE_SIZE - 1) / (PAGE_SIZE as int);
            let done = start % PAGE_SIZE == 0 && m.all_mapped(lo, hi);
            &&& r == if done { 0isize } else { -1isize }
            &&& final(k).only_proc_changed(old(k), i)
            &&& same_but_memory(old(k).cur_proc(), final(k).processes@[i])
            &&& f.wf()
            &&& f.root_ppn == m.root_ppn
            &&& !done ==> f.pages@ == m.pages@
            &&& done ==> f.pages@ == m.pages@.remove_keys(vpn_range(lo, hi))
        }),
{
    if start % PAGE_SIZE != 0 {
        return -1;
    }
    let pages = (len + PAGE_SIZE - 1) / PAGE_SIZE;
    let rounded = pages * PAGE_SIZE;
    proof {
        vstd::arithmetic::div_mod::lemma_fundamental_div_mod((len + PAGE_SIZE - 1) as int, PAGE_SIZE as int);
        vstd::arithmetic::div_mod::lemma_fundamental_div_mod(start as int, PAGE_SIZE as int);
        vstd::arithmetic::div_mod::lemma_mod_multiples_basic(pages as int, PAGE_SIZE as int);
        vstd::arithmetic::div_mod::lemma_hoist_over_denominator(
            rounded as int,
            (start / PAGE_SIZE) as int,
            PAGE_SIZE as nat,
        );
        vstd::arithmetic::div_mod::lemma_div_multiples_vanish(pages as int, PAGE_SIZE as int);
    }
    let i = k.current_process_index();
    if !munmap_page(&mut k.processes[i].inner.memory_set, start, rounded) {
        proof {
            if old(k).wf() {
                lemma_wf_one_changed(old(k), k, old(k).cur_idx());
            }
        }
        return -1;
    }
    proof {
        if old(k).wf() {
            lemma_wf_one_changed(old(k), k, old(k).cur_idx());
        }
    }
    0
}

/// kill syscall: adds the signals of `signal` to the pending signals of the
/// live process `pid`. -1 when no live process has that pid, or when
/// `signal` holds a bit that names no signal.
pub fn sys_kill(k: &mut Kernel, pid: usize, signal: u32) -> (r: isize)
    ensures
        old(k).wf() ==> final(k).wf(),
        ({
            let i = live_index(old(k).processes@, pid);
            let ok = i >= 0 && signal & !SIGNAL_FLAGS == 0;
            &&& r == if ok { 0isize } else { -1isize }
            &&& !ok ==> *final(k) == *old(k)
            &&& ok ==> final(k).only_proc_changed(old(k), i)
                && final(k).processes@[i] == (crate::process::ProcessControlBlock {
                    inner: crate::process::ProcessControlBlockInner {
                        signals: old(k).processes@[i].inner.signals | signal,
                        ..old(k).processes@[i].inner
                    },
                    ..old(k).processes@[i]
                })
        }),
{
    match pid2process(&k.processes, pid) {
        Some(i) => {
            if signal & !SIGNAL_FLAGS != 0 {
                return -1;
            }
            let s = k.processes[i].inner.signals;
            k.processes[i].inner.signals = s | signal;
            proof {
                if old(k).wf() {
                    lemma_wf_one_changed(old(k), k, i as int);
                }
            }
            0
        },
        None => -1,
    }
}

/// The first thread of the child made by `fork`: ready, thread id 0, fresh
/// accounting, and the parent's registers except that `x10`, the syscall's
/// return value, is 0.
pub open spec fn forked_thread(t: TaskControlBlock, parent: TaskControlBlock, pid: usize) -> bool {
    &&& t.pid == pid
    &&& t.tid() == Some(0usize)
    &&& t.inner.task_status == TaskStatus::Ready
    &&& t.inner.exit_code.is_none()
    &&& t.inner.task_info.first_schedule_time.is_none()
    &&& t.inner.task_info.syscall_times@ == Map::<u32, u32>::empty()
    &&& t.inner.stride == 0
    &&& t.inner.pass == crate::config::BIG_STRIDE / 16
    &&& t.inner.trap_cx.x@ == parent.inner.trap_cx.x@.update(10, 0usize)
    &&& t.inner.trap_cx.sepc == parent.inner.trap_cx.sepc
}

/// The child process made by `fork` of `parent`: a copy of its address space,
/// one thread slot, no children, no synchronization objects.
pub open spec fn forked_process(c: ProcessControlBlock, parent: ProcessControlBlock, pid: usize) -> bool {
    &&& c.pid == pid
    &&& !c.inner.is_zombie
    &&& c.inner.memory_set.pages@ == parent.inner.memory_set.pages@
    &&& c.inner.memory_set.root_ppn == pid
    &&& c.inner.parent == Some(parent.pid)
    &&& c.inner.children@.len() == 0
    &&& c.inner.exit_code == 0
    &&& c.inner.signals == 0
    &&& c.inner.tasks@ == seq![true]
    &&& c.inner.mutex_list@.len() == 0
    &&& c.inner.semaphore_list@.len() == 0
    &&& c.inner.condvar_list@.len() == 0
    &&& c.inner.deadlock_detect.is_none()
}

/// fork syscall: creates a child process with a copy of the caller's address
/// space and one ready thread that returns 0; links it as a child of the
/// caller's process and returns its pid.
pub fn sys_fork(k: &mut Kernel) -> (r: isize)
    requires
        old(k).running(),
        old(k).next_pid < isize::MAX,
        old(k).next_kstack < usize::MAX,
        proc_index(old(k).processes@, old(k).next_pid) < 0,
    ensures
        old(k).wf() ==> final(k).wf(),
        ({
            let i = old(k).cur_idx();
            let n = old(k).processes@.len();
            let p = old(k).cur_proc();
            let pid = old(k).next_pid;
            &&& r == pid
            &&& final(k).next_pid == pid + 1
            &&& final(k).next_kstack == old(k).next_kstack + 1
            &&& final(k).current == old(k).current
            &&& final(k).timers == old(k).timers
            &&& final(k).manager.stop_task == old(k).manager.stop_task
            &&& final(k).processes@.len() == n + 1
            &&& forall|j: int| 0 <= j < n && j != i ==> #[trigger] final(k).processes@[j] == old(k).processes@[j]
            &&& final(k).processes@[i].pid == p.pid
            &&& final(k).processes@[i].inner.children@ == p.inner.children@.push(pid)
            &&& final(k).processes@[i].inner == (ProcessControlBlockInner {
                children: final(k).processes@[i].inner.children,
                ..p.inner
            })
            &&& forked_process(final(k).processes@[n as int], p, pid)
            &&& final(k).manager.ready_queue@.len() == old(k).manager.ready_queue@.len() + 1
            &&& final(k).manager.ready_queue@.drop_last() == old(k).manager.ready_queue@
            &&& forked_thread(final(k).manager.ready_queue@.last(), old(k).cur(), pid)
        }),
{
    let i = k.current_process_index();
    let pid = k.next_pid;
    k.next_pid = pid + 1;
    let kstack = k.next_kstack;
    k.next_kstack = kstack + 1;
    let parent_pid = k.processes[i].pid;
    let memory_set = k.processes[i].inner.memory_set.deep_copy(pid);
    let mut tasks: Vec<bool> = Vec::new();
    tasks.push(true);
    let child = ProcessControlBlock {
        pid,
        inner: ProcessControlBlockInner {
            is_zombie: false,
            memory_set,
            parent: Some(parent_pid),
            children: Vec::new(),
            exit_code: 0,
            signals: 0,
            tasks,
            mutex_list: Vec::new(),
            semaphore_list: Vec::new(),
            condvar_list: Vec::new(),
            deadlock_detect: None,
        },
    };
    assert(child.inner.tasks@ =~= seq![true]);
    let cur = k.current.as_ref().unwrap();
    let ustack_base = cur.inner.res.as_ref().unwrap().ustack_base;
    let mut x = cur.inner.trap_cx.x;
    x[10] = 0;
    let sepc = cur.inner.trap_cx.sepc;
    let mut thread = TaskControlBlock::new(pid, 0, ustack_base, kstack);
    thread.inner.trap_cx = TrapContext { x, sepc };
    k.processes[i].inner.children.push(pid);
    k.processes.push(child);
    k.manager.add(thread);
    assert(k.manager.ready_queue@.drop_last() =~= old(k).manager.ready_queue@);
    proof {
        if old(k).wf() {
            lemma_wf_adopt(old(k), k, i as int);
        }
    }
    pid as isize
}


/// Child pid `c` is one that `waitpid(pid, ..)` waits for: -1 means any.
pub open spec fn pid_matches(pid: isize, c: usize) -> bool {
    pid == -1 || (pid >= 0 && pid as usize == c)
}

/// Child `c` matches `pid` and has exited.
pub open spec fn zombie_match(ps: Seq<ProcessControlBlock>, pid: isize, c: usize) -> bool {
    pid_matches(pid, c) && proc_index(ps, c) >= 0 && ps[proc_index(ps, c)].inner.is_zombie
}

/// Position `j` holds the first child that matches `pid` and has exited.
pub open spec fn first_zombie(ps: Seq<ProcessControlBlock>, kids: Seq<usize>, pid: isize, j: int) -> bool {
    &&& 0 <= j < kids.len()
    &&& zombie_match(ps, pid, kids[j])
    &&& forall|j2: int| 0 <= j2 < j ==> !zombie_match(ps, pid, #[trigger] kids[j2])
}

/// Some child matches `pid`.
pub open spec fn has_match(kids: Seq<usize>, pid: isize) -> bool {
    exists|j: int| 0 <= j < kids.len() && pid_matches(pid, #[trigger] kids[j])
}

/// Some child matches `pid` and has exited.
pub open spec fn has_zombie(ps: Seq<ProcessControlBlock>, kids: Seq<usize>, pid: isize) -> bool {
    exists|j: int| 0 <= j < kids.len() && zombie_match(ps, pid, #[trigger] kids[j])
}

/// waitpid syscall: -1 when no child matches `pid` (-1 meaning any child);
/// -2 when one matches but none has exited. Otherwise the first exited match
/// is reaped: unlinked from the caller's process and dropped from the process
/// table; its exit code is written as a little-endian `i32` to user address
/// `exit_code_ptr`, and its pid is returned.
pub fn sys_waitpid(k: &mut Kernel, pid: isize, exit_code_ptr: usize) -> (r: isize)
    requires
        old(k).running(),
        old(k).wf(),
        exit_code_ptr + 4 <= usize::MAX,
        forall|j: int| 0 <= j < old(k).cur_proc().inner.children@.len()
            ==> #[trigger] old(k).cur_proc().inner.children@[j] <= isize::MAX,
        has_zombie(old(k).processes@, old(k).cur_proc().inner.children@, pid)
            ==> old(k).cur_proc().inner.memory_set.range_mapped(exit_code_ptr as int, 4),
    ensures
        old(k).wf() ==> final(k).wf(),
        ({
            let ps = old(k).processes@;
            let pi = old(k).cur_idx();
            let p = old(k).cur_proc();
            let kids = p.inner.children@;
            &&& !has_match(kids, pid) ==> r == -1 && *final(k) == *old(k)
            &&& has_match(kids, pid) && !has_zombie(ps, kids, pid) ==> r == -2 && *final(k) == *old(k)
            &&& forall|j: int| #[trigger] first_zombie(ps, kids, pid, j) ==> {
                let c = kids[j];
                let ci = proc_index(ps, c);
                let rest = ps.remove(ci);
                let pi2 = if pi < ci { pi } else { pi - 1 };
                let q = final(k).processes@[pi2];
                &&& r == c as isize
                &&& final(k).manager == old(k).manager
                &&& final(k).current == old(k).current
                &&& final(k).timers == old(k).timers
                &&& final(k).next_pid == old(k).next_pid
                &&& final(k).processes@.len() == rest.len()
                &&& forall|j2: int| 0 <= j2 < rest.len() && j2 != pi2 ==> #[trigger] final(k).processes@[j2] == rest[j2]
                &&& proc_index(final(k).processes@, c) < 0
                &&& live_index(final(k).processes@, c) < 0
                &&& !has_match(q.inner.children@, c as isize)
                &&& q.pid == p.pid
                &&& q.inner.children@ == kids.remove(j)
                &&& q.inner == (ProcessControlBlockInner {
                    children: q.inner.children,
                    memory_set: q.inner.memory_set,
                    ..p.inner
                })
                &&& q.inner.memory_set.wrote(
                    &p.inner.memory_set,
                    exit_code_ptr as int,
                    le_bytes(ps[ci].inner.exit_code as u32 as nat, 4),
                )
            }
        }),
{
    let pi = k.current_process_index();
    let ghost ps = old(k).processes@;
    let ghost kids = old(k).cur_proc().inner.children@;
    proof {
        assert(ps[pi as int] == ps[pi as int]);
        assert(kids.no_duplicates());
        assert(ps[pi as int].inner.memory_set.wf());
        assert forall|j: int| 0 <= j < kids.len() implies proc_index(ps, #[trigger] kids[j]) >= 0
            && kids[j] != ps[pi as int].pid by {
            let b = choose|b: int| 0 <= b < ps.len() && ps[b].pid == kids[j] && ps[b].inner.parent == Some(ps[pi as int].pid);
            lemma_find_proc_unique(ps, b);
        }
    }
    let n = k.processes[pi].inner.children.len();
    let mut any = false;
    let mut found: Option<usize> = None;
    let mut j: usize = 0;
    while j < n
        invariant_except_break
            found.is_none(),
            any == exists|j2: int| 0 <= j2 < j && pid_matches(pid, #[trigger] kids[j2]),
        invariant
            *k == *old(k),
            pi == old(k).cur_idx(),
            pi < ps.len(),
            ps == k.processes@,
            kids == k.processes@[pi as int].inner.children@,
            n == kids.len(),
            j <= n,
            forall|j2: int| 0 <= j2 < kids.len() ==> proc_index(ps, #[trigger] kids[j2]) >= 0,
            forall|j2: int| 0 <= j2 < j ==> !zombie_match(ps, pid, #[trigger] kids[j2]),
        ensures
            *k == *old(k),
            found matches Some(f) ==> first_zombie(ps, kids, pid, f as int) && any,
            found is None ==> j == n && (any == has_match(kids, pid)) && !has_zombie(ps, kids, pid),
        decreases n - j,
    {
        let c = k.processes[pi].inner.children[j];
        if pid == -1 || (pid >= 0 && pid as usize == c) {
            any = true;
            proof { lemma_find_proc_bounds(ps, c, ps.len() as int); }
            let ci = find_process(&k.processes, c).unwrap();
            if k.processes[ci].inner.is_zombie {
                found = Some(j);
                break;
            }
        }
        j = j + 1;
    }
    if !any {
        return -1;
    }
    match found {
        None => -2,
        Some(jj) => {
            let c = k.processes[pi].inner.children[jj];
            proof { lemma_find_proc_bounds(ps, c, ps.len() as int); }
            let ci = find_process(&k.processes, c).unwrap();
            let exit_code = k.processes[ci].inner.exit_code;
            k.processes[pi].inner.children.remove(jj);
            let mut bytes: Vec<u8> = Vec::new();
            let code_bits = #[verifier::truncate] (exit_code as u32);
            push_le(&mut bytes, code_bits as u64, 4);
            proof {
                lemma_le_bytes_len(code_bits as nat, 4);
                assert(bytes@ =~= le_bytes(exit_code as u32 as nat, 4));
            }
            k.processes[pi].inner.memory_set.write_user_bytes(exit_code_ptr, &bytes);
            let ghost mid = k.processes@;
            proof {
                assert(mid[ci as int].pid == c);
                assert forall|a: int, b: int| 0 <= a < mid.len() && 0 <= b < mid.len() && a != b implies mid[a].pid != mid[b].pid by {
                    assert(mid[a].pid == ps[a].pid && mid[b].pid == ps[b].pid);
                }
                lemma_find_proc_unique(mid, ci as int);
            }
            let _child = remove_from_pid2process(&mut k.processes, c);
            proof {
                assert forall|a: int| 0 <= a < k.processes@.len() implies (#[trigger] k.processes@[a]).pid != c by {
                    if a < ci {
                        assert(k.processes@[a] == mid[a]);
                    } else {
                        assert(k.processes@[a] == mid[a + 1]);
                    }
                }
                lemma_find_proc_absent(k.processes@, c, k.processes@.len() as int);
                lemma_reaped_once(kids, jj as int);
                assert forall|j: int| #[trigger] first_zombie(ps, kids, pid, j) implies j == jj by {
                    if j < jj {
                        assert(!zombie_match(ps, pid, kids[j]));
                    } else if j > jj {
                        assert(!zombie_match(ps, pid, kids[jj as int]));
                    }
                }
                if old(k).wf() {
                    assert(ci != pi);
                    assert forall|j: int| 0 <= j < k.processes@.len() && j != (if pi < ci { pi as int } else { pi - 1 })
                        implies #[trigger] k.processes@[j] == ps.remove(ci as int)[j] by {
                        if j < ci {
                            assert(k.processes@[j] == mid[j]);
                        } else {
                            assert(k.processes@[j] == mid[j + 1]);
                        }
                    }
                    let pi2 = if pi < ci { pi as int } else { pi - 1 };
                    assert(k.processes@[pi2] == mid[pi as int]);
                    lemma_wf_reap(old(k), k, pi as int, ci as int, jj as int);
                }
            }
            c as isize
        },
    }
}

/// A reaped child is reaped once: with distinct children, the child at `j` is
/// no longer among the children once removed, so waiting for its pid again
/// finds no child and returns -1.
pub proof fn lemma_reaped_once(kids: Seq<usize>, j: int)
    requires
        kids.no_duplicates(),
        0 <= j < kids.len(),
        kids[j] <= isize::MAX,
    ensures
        !has_match(kids.remove(j), kids[j] as isize),
{
    let rest = kids.remove(j);
    assert forall|m: int| 0 <= m < rest.len() implies !pid_matches(kids[j] as isize, #[trigger] rest[m]) by {
        if m < j {
            assert(rest[m] == kids[m]);
        } else {
            assert(rest[m] == kids[m + 1]);
        }
    }
}


/// Holds of the threads of other processes than `pid`.
pub open spec fn not_of(pid: usize) -> spec_fn(TaskControlBlock) -> bool {
    |t: TaskControlBlock| t.pid != pid
}

/// Holds of the sleepers of other processes than `pid`.
pub open spec fn sleeper_not_of(pid: usize) -> spec_fn(TimerCondVar) -> bool {
    |t: TimerCondVar| t.task.pid != pid
}

/// `t` after exiting with `code`: exit code recorded, thread id released.
pub open spec fn exited(t: TaskControlBlock, code: i32) -> TaskControlBlock {
    TaskControlBlock {
        inner: crate::task::TaskControlBlockInner { exit_code: Some(code), res: None, ..t.inner },
        ..t
    }
}

/// What `exit` leaves of process `a` when its main thread exits with `code`:
/// a zombie with the exit code, no children, no threads, no mapped page.
pub open spec fn zombie_of(a: ProcessControlBlock, b: ProcessControlBlock, code: i32) -> bool {
    &&& b.pid == a.pid
    &&& b.inner.is_zombie
    &&& b.inner.exit_code == code
    &&& b.inner.children@.len() == 0
    &&& b.inner.tasks@.len() == 0
    &&& b.inner.memory_set.pages@ == Map::<usize, crate::mm::Page>::empty()
    &&& b.inner.memory_set.root_ppn == a.inner.memory_set.root_ppn
    &&& b.inner.parent == a.inner.parent
    &&& b.inner.signals == a.inner.signals
    &&& b.inner.mutex_list == a.inner.mutex_list
    &&& b.inner.semaphore_list == a.inner.semaphore_list
    &&& b.inner.condvar_list == a.inner.condvar_list
    &&& b.inner.deadlock_detect == a.inner.deadlock_detect
}

/// Keeps the threads of `queue` that belong to other processes than `pid`.
fn drop_threads_of(queue: Vec<TaskControlBlock>, pid: usize) -> (r: Vec<TaskControlBlock>)
    ensures
        r@ == queue@.filter(not_of(pid)),
{
    let mut rest = queue;
    let ghost all = rest@;
    let mut kept: Vec<TaskControlBlock> = Vec::new();
    let n = rest.len();
    let mut i: usize = 0;
    while i < n
        invariant
            n == all.len(),
            i <= n,
            rest@ == all.subrange(i as int, n as int),
            kept@ == all.take(i as int).filter(not_of(pid)),
        decreases n - i,
    {
        let t = rest.remove(0);
        proof {
            assert(t == all[i as int]);
            assert(rest@ =~= all.subrange(i + 1, n as int));
            assert(all.take(i + 1) =~= all.take(i as int).push(t));
            all.take(i as int).lemma_filter_push(t, not_of(pid));
        }
        if t.pid != pid {
            kept.push(t);
        }
        i = i + 1;
    }
    assert(all.take(n as int) =~= all);
    kept
}

/// Keeps the sleepers of `timers` that belong to other processes than `pid`.
fn drop_sleepers_of(timers: Vec<TimerCondVar>, pid: usize) -> (r: Vec<TimerCondVar>)
    ensures
        r@ == timers@.filter(sleeper_not_of(pid)),
{
    let mut rest = timers;
    let ghost all = rest@;
    let mut kept: Vec<TimerCondVar> = Vec::new();
    let n = rest.len();
    let mut i: usize = 0;
    while i < n
        invariant
            n == all.len(),
            i <= n,
            rest@ == all.subrange(i as int, n as int),
            kept@ == all.take(i as int).filter(sleeper_not_of(pid)),
        decreases n - i,
    {
        let t = rest.remove(0);
        proof {
            assert(t == all[i as int]);
            assert(rest@ =~= all.subrange(i + 1, n as int));
            assert(all.take(i + 1) =~= all.take(i as int).push(t));
            all.take(i as int).lemma_filter_push(t, sleeper_not_of(pid));
        }
        if t.task.pid != pid {
            kept.push(t);
        }
        i = i + 1;
    }
    assert(all.take(n as int) =~= all);
    kept
}

/// exit syscall: the caller exits with `exit_code` and releases its thread
/// id; it is kept as the stopping thread until its kernel stack is out of
/// use. When it is the main thread (tid 0), its process becomes a zombie
/// holding the exit code: its children are handed to the initial process,
/// its other threads leave the ready queue and the sleepers, and its pages
/// are unmapped. The parent reaps it with `waitpid`.
pub fn sys_exit(k: &mut Kernel, exit_code: i32)
    requires
        old(k).running(),
        pids_unique(old(k).processes@),
        old(k).cur_proc().pid != INIT_PID,
        proc_index(old(k).processes@, INIT_PID) >= 0,
        old(k).cur_tid() == 0 ==> {
            let kids = old(k).cur_proc().inner.children@;
            &&& kids.no_duplicates()
            &&& !kids.contains(INIT_PID)
            &&& !kids.contains(old(k).cur_proc().pid)
            &&& forall|j: int| 0 <= j < kids.len() ==> proc_index(old(k).processes@, #[trigger] kids[j]) >= 0
        },
    ensures
        old(k).wf() ==> final(k).wf(),
        ({
            let ps = old(k).processes@;
            let pi = old(k).cur_idx();
            let p = old(k).cur_proc();
            let tid = old(k).cur_tid();
            let ii = proc_index(ps, INIT_PID);
            let kids = p.inner.children@;
            &&& final(k).current.is_none()
            &&& final(k).manager.stop_task == Some(exited(old(k).cur(), exit_code))
            &&& final(k).next_pid == old(k).next_pid
            &&& final(k).next_kstack == old(k).next_kstack
            &&& final(k).processes@.len() == ps.len()
            &&& tid != 0 ==> final(k).manager.ready_queue@ == old(k).manager.ready_queue@
                && final(k).timers == old(k).timers
                && (forall|j: int| 0 <= j < ps.len() && j != pi ==> #[trigger] final(k).processes@[j] == ps[j])
                && final(k).processes@[pi].inner == (ProcessControlBlockInner {
                    tasks: final(k).processes@[pi].inner.tasks,
                    ..p.inner
                })
                && final(k).processes@[pi].pid == p.pid
                && final(k).processes@[pi].inner.tasks@ == if tid < p.inner.tasks@.len() {
                    p.inner.tasks@.update(tid as int, false)
                } else {
                    p.inner.tasks@
                }
            &&& tid == 0 ==> final(k).manager.ready_queue@ == old(k).manager.ready_queue@.filter(not_of(p.pid))
                && final(k).timers@ == old(k).timers@.filter(sleeper_not_of(p.pid))
                && zombie_of(p, final(k).processes@[pi], exit_code)
                && final(k).processes@[ii].pid == INIT_PID
                && final(k).processes@[ii].inner.children@ == ps[ii].inner.children@ + kids
                && final(k).processes@[ii].inner == (ProcessControlBlockInner {
                    children: final(k).processes@[ii].inner.children,
                    ..ps[ii].inner
                })
                && (forall|j: int| 0 <= j < ps.len() && j != pi && j != ii && kids.contains(ps[j].pid)
                    ==> #[trigger] final(k).processes@[j] == (ProcessControlBlock {
                        inner: ProcessControlBlockInner { parent: Some(INIT_PID), ..ps[j].inner },
                        ..ps[j]
                    }))
                && (forall|j: int| 0 <= j < ps.len() && j != pi && j != ii && !kids.contains(ps[j].pid)
                    ==> #[trigger] final(k).processes@[j] == ps[j])
        }),
{
    let pi = k.current_process_index();
    let mut task = k.current.take().unwrap();
    let tid = task.inner.res.as_ref().unwrap().tid;
    let pid = task.pid;
    task.inner.exit_code = Some(exit_code);
    task.inner.res = None;
    let ghost ps = old(k).processes@;
    if tid != 0 {
        if tid < k.processes[pi].inner.tasks.len() {
            k.processes[pi].inner.tasks.set(tid, false);
        }
        k.manager.add_stop(task);
        proof {
            if old(k).wf() {
                lemma_wf_one_changed(old(k), k, pi as int);
            }
        }
        return;
    }
    proof { lemma_find_proc_bounds(ps, INIT_PID, ps.len() as int); }
    let ii = find_process(&k.processes, INIT_PID).unwrap();
    let mut kids: Vec<usize> = Vec::new();
    std::mem::swap(&mut kids, &mut k.processes[pi].inner.children);
    let ghost kids_s = kids@;
    assert(kids_s == ps[pi as int].inner.children@);
    let ghost mid = k.processes@;
    let n = kids.len();
    let mut j: usize = 0;
    while j < n
        invariant
            n == kids_s.len(),
            kids@ == kids_s,
            j <= n,
            pi < ps.len(),
            ii < ps.len(),
            pi != ii,
            ps[ii as int].pid == INIT_PID,
            pids_unique(ps),
            kids_s.no_duplicates(),
            !kids_s.contains(INIT_PID),
            forall|j2: int| 0 <= j2 < kids_s.len() ==> proc_index(ps, #[trigger] kids_s[j2]) >= 0,
            !kids_s.contains(ps[pi as int].pid),
            k.processes@.len() == ps.len(),
            mid.len() == ps.len(),
            forall|a: int| 0 <= a < ps.len() ==> (#[trigger] k.processes@[a]).pid == ps[a].pid,
            k.processes@[pi as int] == mid[pi as int],
            k.processes@[ii as int].inner.children@ == ps[ii as int].inner.children@ + kids_s.take(j as int),
            k.processes@[ii as int].inner == (ProcessControlBlockInner {
                children: k.processes@[ii as int].inner.children,
                ..ps[ii as int].inner
            }),
            forall|a: int| 0 <= a < ps.len() && a != pi && a != ii && kids_s.take(j as int).contains(ps[a].pid)
                ==> #[trigger] k.processes@[a] == (ProcessControlBlock {
                    inner: ProcessControlBlockInner { parent: Some(INIT_PID), ..ps[a].inner },
                    ..ps[a]
                }),
            forall|a: int| 0 <= a < ps.len() && a != pi && a != ii && !kids_s.take(j as int).contains(ps[a].pid)
                ==> #[trigger] k.processes@[a] == ps[a],
            k.current.is_none(),
            k.next_pid == old(k).next_pid,
            k.next_kstack == old(k).next_kstack,
            k.manager == old(k).manager,
            k.timers == old(k).timers,
        decreases n - j,
    {
        let c = kids[j];
        proof { lemma_find_proc_bounds(k.processes@, c, k.processes@.len() as int); }
        let ghost before = k.processes@;
        proof {
            crate::process::lemma_proc_index_same_pids(k.processes@, ps, c, ps.len() as int);
            assert(proc_index(ps, c) >= 0);
            lemma_find_proc_bounds(ps, c, ps.len() as int);
            let ci0 = proc_index(ps, c);
            assert(before[ci0].pid == c);
        }
        let ci = find_process(&k.processes, c).unwrap();
        proof {
            assert(ps[ci as int].pid == c);
            lemma_find_proc_unique(ps, ci as int);
            assert(ci != pi);
            assert(ci != ii);
            assert(!kids_s.take(j as int).contains(c)) by {
                if kids_s.take(j as int).contains(c) {
                    let q = choose|q: int| 0 <= q < j && kids_s.take(j as int)[q] == c;
                    assert(kids_s[q] == kids_s[j as int]);
                }
            }
        }
        k.processes[ci].inner.parent = Some(INIT_PID);
        k.processes[ii].inner.children.push(c);
        proof {
            let t1 = kids_s.take(j + 1);
            assert(t1 =~= kids_s.take(j as int).push(c));
            assert(k.processes@[ii as int].inner.children@ =~= ps[ii as int].inner.children@ + t1);
            assert forall|a: int| 0 <= a < ps.len() && a != pi && a != ii && t1.contains(ps[a].pid)
                implies #[trigger] k.processes@[a] == (ProcessControlBlock {
                    inner: ProcessControlBlockInner { parent: Some(INIT_PID), ..ps[a].inner },
                    ..ps[a]
                }) by {
                if a != ci {
                    let q = choose|q: int| 0 <= q < t1.len() && t1[q] == ps[a].pid;
                    if q == j {
                        lemma_find_proc_unique(ps, a);
                    } else {
                        assert(kids_s.take(j as int).contains(ps[a].pid)) by {
                            assert(kids_s.take(j as int)[q] == ps[a].pid);
                        }
                    }
                }
            }
            assert forall|a: int| 0 <= a < ps.len() && a != pi && a != ii && !t1.contains(ps[a].pid)
                implies #[trigger] k.processes@[a] == ps[a] by {
                if a == ci {
                    assert(t1[j as int] == c);
                } else {
                    if kids_s.take(j as int).contains(ps[a].pid) {
                        let q = choose|q: int| 0 <= q < j && kids_s.take(j as int)[q] == ps[a].pid;
                        assert(t1[q] == ps[a].pid);
                    }
                }
            }
        }
        j = j + 1;
    }
    proof { assert(kids_s.take(n as int) =~= kids_s); }
    k.processes[pi].inner.is_zombie = true;
    k.processes[pi].inner.exit_code = exit_code;
    k.processes[pi].inner.tasks = Vec::new();
    k.processes[pi].inner.memory_set.pages = std::collections::BTreeMap::new();
    let mut queue: Vec<TaskControlBlock> = Vec::new();
    std::mem::swap(&mut queue, &mut k.manager.ready_queue);
    k.manager.ready_queue = drop_threads_of(queue, pid);
    let mut timers: Vec<TimerCondVar> = Vec::new();
    std::mem::swap(&mut timers, &mut k.timers);
    k.timers = drop_sleepers_of(timers, pid);
    k.manager.add_stop(task);
    proof {
        if old(k).wf() {
            assert(k.processes@[pi as int].inner.memory_set.wf());
            lemma_wf_orphans(old(k), k, pi as int, ii as int);
        }
    }
}


/// The first thread of a process made by `spawn`: ready, thread id 0, fresh
/// accounting, all registers zero but the program counter at `entry`.
pub open spec fn spawned_thread(t: TaskControlBlock, pid: usize, entry: usize, sp: usize) -> bool {
    &&& t.pid == pid
    &&& t.tid() == Some(0usize)
    &&& t.inner.task_status == TaskStatus::Ready
    &&& t.inner.exit_code.is_none()
    &&& t.inner.task_info.first_schedule_time.is_none()
    &&& t.inner.task_info.syscall_times@ == Map::<u32, u32>::empty()
    &&& t.inner.stride == 0
    &&& t.inner.pass == crate::config::BIG_STRIDE / 16
    &&& t.inner.trap_cx.x@ == Seq::new(32, |i: int| if i == 2 { sp } else { 0usize })
    &&& t.inner.trap_cx.sepc == entry
}

/// spawn syscall: creates a child of the caller's process straight from a
/// loaded program, its address space `program` (none when no program has the
/// requested name), entry point `entry` and user stack top `ustack_top`,
/// without copying the caller's address space. Returns the child's pid, or -1
/// when there is no program.
pub fn sys_spawn(k: &mut Kernel, program: Option<MemorySet>, entry: usize, ustack_top: usize) -> (r: isize)
    requires
        old(k).running(),
        old(k).next_pid < isize::MAX,
        old(k).next_kstack < usize::MAX,
        proc_index(old(k).processes@, old(k).next_pid) < 0,
        program matches Some(ms) ==> ms.wf(),
    ensures
        old(k).wf() ==> final(k).wf(),
        ({
            let i = old(k).cur_idx();
            let n = old(k).processes@.len();
            let p = old(k).cur_proc();
            let pid = old(k).next_pid;
            &&& program.is_none() ==> r == -1 && *final(k) == *old(k)
            &&& program matches Some(ms) ==> {
                &&& r == pid
                &&& final(k).next_pid == pid + 1
                &&& final(k).next_kstack == old(k).next_kstack + 1
                &&& final(k).current == old(k).current
                &&& final(k).timers == old(k).timers
                &&& final(k).manager.stop_task == old(k).manager.stop_task
                &&& final(k).processes@.len() == n + 1
                &&& forall|j: int| 0 <= j < n && j != i ==> #[trigger] final(k).processes@[j] == old(k).processes@[j]
                &&& final(k).processes@[i].pid == p.pid
                &&& final(k).processes@[i].inner.children@ == p.inner.children@.push(pid)
                &&& final(k).processes@[i].inner == (ProcessControlBlockInner {
                    children: final(k).processes@[i].inner.children,
                    ..p.inner
                })
                &&& final(k).processes@[n as int].pid == pid
                &&& final(k).processes@[n as int].inner.memory_set == ms
                &&& final(k).processes@[n as int].inner.parent == Some(p.pid)
                &&& !final(k).processes@[n as int].inner.is_zombie
                &&& final(k).processes@[n as int].inner.children@.len() == 0
                &&& final(k).processes@[n as int].inner.tasks@ == seq![true]
                &&& final(k).processes@[n as int].inner.mutex_list@.len() == 0
                &&& final(k).processes@[n as int].inner.semaphore_list@.len() == 0
                &&& final(k).processes@[n as int].inner.condvar_list@.len() == 0
                &&& final(k).processes@[n as int].inner.deadlock_detect.is_none()
                &&& final(k).manager.ready_queue@.drop_last() == old(k).manager.ready_queue@
                &&& final(k).manager.ready_queue@.len() == old(k).manager.ready_queue@.len() + 1
                &&& spawned_thread(final(k).manager.ready_queue@.last(), pid, entry, ustack_top)
            }
        }),
{
    let memory_set = match program {
        Some(ms) => ms,
        None => {
            return -1;
        },
    };
    let i = k.current_process_index();
    let pid = k.next_pid;
    k.next_pid = pid + 1;
    let kstack = k.next_kstack;
    k.next_kstack = kstack + 1;
    let parent_pid = k.processes[i].pid;
    let mut tasks: Vec<bool> = Vec::new();
    tasks.push(true);
    assert(tasks@ =~= seq![true]);
    let child = ProcessControlBlock {
        pid,
        inner: ProcessControlBlockInner {
            is_zombie: false,
            memory_set,
            parent: Some(parent_pid),
            children: Vec::new(),
            exit_code: 0,
            signals: 0,
            tasks,
            mutex_list: Vec::new(),
            semaphore_list: Vec::new(),
            condvar_list: Vec::new(),
            deadlock_detect: None,
        },
    };
    let ustack_base = k.current.as_ref().unwrap().inner.res.as_ref().unwrap().ustack_base;
    let mut thread = TaskControlBlock::new(pid, 0, ustack_base, kstack);
    thread.inner.trap_cx.sepc = entry;
    thread.inner.trap_cx.x[2] = ustack_top;
    assert(thread.inner.trap_cx.x@ =~= Seq::new(32, |i: int| if i == 2 { ustack_top } else { 0usize }));
    k.processes[i].inner.children.push(pid);
    k.processes.push(child);
    k.manager.add(thread);
    assert(k.manager.ready_queue@.drop_last() =~= old(k).manager.ready_queue@);
    proof {
        if old(k).wf() {
            lemma_wf_adopt(old(k), k, i as int);
        }
    }
    pid as isize
}

/// Dispatches the next thread when none runs: the ready thread of smallest
/// stride leaves the queue with its stride advanced by its pass, becomes the
/// running thread and, on its first dispatch, records `now_ms` as its first
/// schedule time. False when no thread is ready.
pub fn run_next(k: &mut Kernel, now_ms: usize) -> (r: bool)
    requires
        old(k).current.is_none(),
        old(k).manager.strides_bounded(),
        now_ms > 0,
    ensures
        old(k).wf() ==> final(k).wf(),
        r == (old(k).manager.ready_queue@.len() > 0),
        final(k).processes == old(k).processes,
        final(k).timers == old(k).timers,
        final(k).manager.stop_task == old(k).manager.stop_task,
        !r ==> final(k).current.is_none() && final(k).manager.ready_queue@ == old(k).manager.ready_queue@,
        r ==> exists|idx: int| #![trigger crate::manager::is_first_min(old(k).manager.ready_queue@, idx)] {
            let t = old(k).manager.ready_queue@[idx];
            &&& crate::manager::is_first_min(old(k).manager.ready_queue@, idx)
            &&& final(k).manager.ready_queue@ == old(k).manager.ready_queue@.remove(idx)
            &&& final(k).current matches Some(c)
            &&& c.pid == t.pid
            &&& c.inner.res == t.inner.res
            &&& c.inner.trap_cx == t.inner.trap_cx
            &&& c.inner.task_status == TaskStatus::Running
            &&& c.inner.stride == t.inner.stride + t.inner.pass
            &&& c.inner.pass == t.inner.pass
            &&& c.inner.pending_mutex == t.inner.pending_mutex
            &&& c.inner.exit_code == t.inner.exit_code
            &&& c.inner.task_info.syscall_times@ == t.inner.task_info.syscall_times@
            &&& c.inner.task_info.first_schedule_time == if t.inner.task_info.first_schedule_time.is_some() {
                t.inner.task_info.first_schedule_time
            } else {
                Some(now_ms)
            }
        },
{
    let ghost q0 = k.manager.ready_queue@;
    match k.manager.fetch() {
        Some(t) => {
            let ghost idx = choose|idx: int|
                crate::manager::is_first_min(q0, idx) && crate::manager::advanced(q0[idx], t)
                    && k.manager.ready_queue@ == q0.remove(idx);
            let mut t = t;
            t.inner.task_status = TaskStatus::Running;
            t.inner.set_first_schedule_time(now_ms);
            k.current = Some(t);
            assert(crate::manager::is_first_min(q0, idx));
            true
        },
        None => false,
    }
}

/// Wakes every sleeper whose time has come by `now_ms`: each is made ready,
/// in the order they went to sleep; the others keep sleeping.
pub fn check_timer(k: &mut Kernel, now_ms: usize)
    ensures
        old(k).wf() ==> final(k).wf(),
        final(k).processes == old(k).processes,
        final(k).current == old(k).current,
        final(k).manager.stop_task == old(k).manager.stop_task,
        final(k).timers@ == old(k).timers@.filter(|t: TimerCondVar| t.expire_ms > now_ms),
        final(k).manager.ready_queue@ == old(k).manager.ready_queue@ + old(k).timers@.filter(
            |t: TimerCondVar| t.expire_ms <= now_ms,
        ).map_values(|t: TimerCondVar| ready(t.task)),
{
    let mut rest: Vec<TimerCondVar> = Vec::new();
    std::mem::swap(&mut rest, &mut k.timers);
    let ghost all = rest@;
    let ghost q0 = k.manager.ready_queue@;
    let ghost later = |t: TimerCondVar| t.expire_ms > now_ms;
    let ghost due = |t: TimerCondVar| t.expire_ms <= now_ms;
    let mut kept: Vec<TimerCondVar> = Vec::new();
    let n = rest.len();
    let mut i: usize = 0;
    while i < n
        invariant
            n == all.len(),
            i <= n,
            all == old(k).timers@,
            q0 == old(k).manager.ready_queue@,
            later == (|t: TimerCondVar| t.expire_ms > now_ms),
            due == (|t: TimerCondVar| t.expire_ms <= now_ms),
            rest@ == all.subrange(i as int, n as int),
            kept@ == all.take(i as int).filter(later),
            k.manager.ready_queue@ == q0 + all.take(i as int).filter(due).map_values(|t: TimerCondVar| ready(t.task)),
            k.processes == old(k).processes,
            k.current == old(k).current,
            k.manager.stop_task == old(k).manager.stop_task,
            k.next_pid == old(k).next_pid,
        decreases n - i,
    {
        let t = rest.remove(0);
        proof {
            assert(t == all[i as int]);
            assert(rest@ =~= all.subrange(i + 1, n as int));
            assert(all.take(i + 1) =~= all.take(i as int).push(t));
            all.take(i as int).lemma_filter_push(t, later);
            all.take(i as int).lemma_filter_push(t, due);
        }
        if t.expire_ms <= now_ms {
            let ghost before = k.manager.ready_queue@;
            wakeup_task(&mut k.manager, t.task);
            proof {
                let f = all.take(i as int).filter(due);
                assert(f.push(t).map_values(|t: TimerCondVar| ready(t.task)) =~= f.map_values(
                    |t: TimerCondVar| ready(t.task),
                ).push(ready(t.task)));
            }
        } else {
            kept.push(t);
        }
        i = i + 1;
    }
    proof {
        assert(all.take(n as int) =~= all);
    }
    k.timers = kept;
}


/// The argument list at user address `args` in `ms`: `n` words, each
/// pointing to a zero-terminated string, then a zero word.
pub open spec fn arg_list_len(ms: MemorySet, args: int, n: int) -> bool {
    &&& 0 <= n
    &&& args + 8 * (n + 1) <= usize::MAX
    &&& ms.range_mapped(args, 8 * (n + 1))
    &&& ms.word_at(args + 8 * n) as usize == 0
    &&& forall|i: int| 0 <= i < n ==> {
        let w = #[trigger] ms.word_at(args + 8 * i) as usize;
        &&& w != 0
        &&& ms.c_string_at(w as int)
    }
}

/// Reads what `exec` is given in the caller's address space: the program
/// path at `path`, and the argument strings listed at `args` up to the zero
/// word.
pub fn read_exec_args(k: &Kernel, path: usize, args: usize) -> (r: (Vec<u8>, Vec<Vec<u8>>))
    requires
        k.running(),
        k.cur_proc().inner.memory_set.wf(),
        k.cur_proc().inner.memory_set.c_string_at(path as int),
        exists|n: int| arg_list_len(k.cur_proc().inner.memory_set, args as int, n),
    ensures
        ({
            let ms = k.cur_proc().inner.memory_set;
            &&& ms.c_string_len(path as int, r.0@.len() as int)
            &&& r.0@ == ms.bytes_at(path as int, r.0@.len())
            &&& arg_list_len(ms, args as int, r.1@.len() as int)
            &&& forall|i: int| 0 <= i < r.1@.len() ==> {
                let w = ms.word_at(args + 8 * i) as usize;
                &&& ms.c_string_len(w as int, (#[trigger] r.1@[i])@.len() as int)
                &&& r.1@[i]@ == ms.bytes_at(w as int, r.1@[i]@.len())
            }
        }),
{
    let i = k.current_process_index();
    let ms = &k.processes[i].inner.memory_set;
    let name = ms.translated_str(path);
    let ghost n = choose|n: int| arg_list_len(*ms, args as int, n);
    let mut list: Vec<Vec<u8>> = Vec::new();
    let mut j: usize = 0;
    loop
        invariant
            ms.wf(),
            arg_list_len(*ms, args as int, n),
            *ms == k.cur_proc().inner.memory_set,
            ms.c_string_len(path as int, name@.len() as int),
            name@ == ms.bytes_at(path as int, name@.len()),
            0 <= j <= n,
            list@.len() == j,
            forall|i2: int| 0 <= i2 < j ==> {
                let w = ms.word_at(args + 8 * i2) as usize;
                &&& ms.c_string_len(w as int, (#[trigger] list@[i2])@.len() as int)
                &&& list@[i2]@ == ms.bytes_at(w as int, list@[i2]@.len())
            },
        decreases n - j,
    {
        let w = ms.translated_word(args + 8 * j);
        if w == 0 {
            proof {
                if (j as int) < n {
                    assert(ms.word_at(args + 8 * j) as usize != 0);
                }
            }
            return (name, list);
        }
        proof {
            if (j as int) == n {
                assert(ms.word_at(args + 8 * n) as usize == 0);
            }
        }
        let s = ms.translated_str(w);
        list.push(s);
        j = j + 1;
    }
}

/// Bytes the first `i` argument strings take with their zero bytes.
pub open spec fn args_size(args: Seq<Seq<u8>>, i: int) -> int
    decreases i,
{
    if i <= 0 {
        0
    } else {
        args_size(args, i - 1) + args[i - 1].len() + 1
    }
}

/// Where the argument pointers start below the stack top `top`.
pub open spec fn argv_base(top: int, argc: int) -> int {
    top - 8 * (argc + 1)
}

/// Where argument string `i` starts.
pub open spec fn arg_addr(top: int, args: Seq<Seq<u8>>, i: int) -> int {
    argv_base(top, args.len() as int) - args_size(args, i + 1)
}

/// The user stack pointer once the arguments are pushed, 8-byte aligned.
pub open spec fn exec_sp(top: int, args: Seq<Seq<u8>>) -> int {
    let bottom = argv_base(top, args.len() as int) - args_size(args, args.len() as int);
    bottom - bottom % 8
}

/// Bytes below the stack top that the arguments take, at most.
pub open spec fn exec_stack_need(args: Seq<Seq<u8>>) -> int {
    8 * (args.len() + 1) + args_size(args, args.len() as int) + 8
}

/// The argument strings as plain sequences.
pub open spec fn arg_seqs(args: Seq<Vec<u8>>) -> Seq<Seq<u8>> {
    args.map_values(|a: Vec<u8>| a@)
}

proof fn lemma_args_size_mono(args: Seq<Seq<u8>>, a: int, b: int)
    requires
        0 <= a <= b,
    ensures
        args_size(args, a) + (b - a) <= args_size(args, b),
    decreases b,
{
    if a < b {
        lemma_args_size_mono(args, a, b - 1);
    }
}


/// Where the pointer to argument `j` is stored.
pub open spec fn arg_slot(top: int, argc: int, j: int) -> int {
    argv_base(top, argc) + 8 * j
}

/// `f` is `ms` with the arguments `a` pushed below `top`: the argument
/// strings, each with its zero byte, stacked downwards from the pointer
/// array; the array holds their addresses and ends with a zero word; every
/// other byte is kept.
pub open spec fn args_pushed(f: MemorySet, ms: MemorySet, top: int, a: Seq<Seq<u8>>) -> bool {
    let n = a.len() as int;
    &&& f.wf()
    &&& f.root_ppn == ms.root_ppn
    &&& f.same_mapping(&ms)
    &&& f.bytes_at(arg_slot(top, n, n), 8) == le_bytes(0, 8)
    &&& forall|j: int| 0 <= j < n ==> f.bytes_at(arg_slot(top, n, j), 8) == le_bytes(#[trigger] arg_addr(top, a, j) as nat, 8)
    &&& forall|j: int| 0 <= j < n ==> f.bytes_at(#[trigger] arg_addr(top, a, j), a[j].len()) == a[j]
        && f.byte_at(arg_addr(top, a, j) + a[j].len()) == 0
    &&& forall|va: int|
        (va < argv_base(top, n) - args_size(a, n) || va >= top) && ms.mapped(vpn_of(va))
            ==> #[trigger] f.byte_at(va) == ms.byte_at(va)
}

/// Eight little-endian bytes of `v`.
fn word_bytes(v: usize) -> (r: Vec<u8>)
    ensures
        r@ == le_bytes(v as nat, 8),
        r@.len() == 8,
{
    let mut out: Vec<u8> = Vec::new();
    push_le(&mut out, v as u64, 8);
    proof {
        lemma_le_bytes_len(v as nat, 8);
        assert(out@ =~= le_bytes(v as nat, 8));
    }
    out
}

/// Pushes the arguments below the stack top `top` of `ms`, as `exec` hands
/// them to the new program, and returns the 8-byte aligned stack pointer
/// below them.
#[verifier::rlimit(40)]
pub fn push_args(ms: &mut MemorySet, top: usize, args: &Vec<Vec<u8>>) -> (sp: usize)
    requires
        old(ms).wf(),
        exec_stack_need(arg_seqs(args@)) <= top,
        old(ms).range_mapped(top - exec_stack_need(arg_seqs(args@)), exec_stack_need(arg_seqs(args@))),
    ensures
        args_pushed(*final(ms), *old(ms), top as int, arg_seqs(args@)),
        sp == exec_sp(top as int, arg_seqs(args@)),
{
    let ghost a = arg_seqs(args@);
    let ghost ms0 = *ms;
    let n = args.len();
    proof {
        lemma_args_size_mono(a, 0, n as int);
    }
    let base = top - 8 * (n + 1);
    let zero = word_bytes(0);
    ms.write_user_bytes(base + 8 * n, &zero);
    let mut sp = base;
    let mut i: usize = 0;
    while i < n
        invariant
            a == arg_seqs(args@),
            n == a.len(),
            base == argv_base(top as int, n as int),
            exec_stack_need(a) <= top,
            0 <= i <= n,
            sp == base - args_size(a, i as int),
            args_size(a, n as int) + 8 <= base,
            ms0.range_mapped(top - exec_stack_need(a), exec_stack_need(a)),
            ms0.wf(),
            ms.wf(),
            ms.root_ppn == ms0.root_ppn,
            ms.same_mapping(&ms0),
            ms.bytes_at(arg_slot(top as int, n as int, n as int), 8) == le_bytes(0, 8),
            forall|j: int| 0 <= j < i ==> ms.bytes_at(arg_slot(top as int, n as int, j), 8) == le_bytes(#[trigger] arg_addr(top as int, a, j) as nat, 8),
            forall|j: int| 0 <= j < i ==> ms.bytes_at(#[trigger] arg_addr(top as int, a, j), a[j].len()) == a[j]
                && ms.byte_at(arg_addr(top as int, a, j) + a[j].len()) == 0,
            forall|va: int|
                (va < sp || (base + 8 * i <= va < base + 8 * n) || va >= top) && ms0.mapped(vpn_of(va))
                    ==> #[trigger] ms.byte_at(va) == ms0.byte_at(va),
        decreases n - i,
    {
        proof {
            lemma_args_size_mono(a, i + 1, n as int);
            lemma_args_size_mono(a, 0, i as int);
        }
        let len = args[i].len();
        sp = sp - (len + 1);
        let slot = word_bytes(sp);
        let ghost m1 = *ms;
        proof {
            let lo = top - exec_stack_need(a);
            assert(a[i as int] == args@[i as int]@);
            assert(a[i as int].len() == len);
            assert(args_size(a, i + 1) == args_size(a, i as int) + len + 1);
            assert(lo == base - args_size(a, n as int) - 8);
            assert(sp == base - args_size(a, i + 1));
            crate::mm::lemma_range_mapped_within(*ms, ms0, lo, exec_stack_need(a), base + 8 * i, 8);
            crate::mm::lemma_range_mapped_within(*ms, ms0, lo, exec_stack_need(a), sp as int, len as int);
            crate::mm::lemma_range_mapped_within(*ms, ms0, lo, exec_stack_need(a), sp + len, 1);
        }
        ms.write_user_bytes(base + 8 * i, &slot);
        let ghost m2 = *ms;
        ms.write_user_bytes(sp, &args[i]);
        let ghost m3 = *ms;
        let nul = word_bytes(0);
        let mut z: Vec<u8> = Vec::new();
        z.push(nul[0]);
        ms.write_user_bytes(sp + len, &z);
        proof {
            assert(a[i as int] == args@[i as int]@);
            assert(sp == arg_addr(top as int, a, i as int));
            assert(z@[0] == 0) by {
                assert(le_bytes(0, 8)[0] == 0);
            }
            // earlier slots and strings lie outside the three new writes
            assert forall|j: int| 0 <= j < i + 1 implies ms.bytes_at(arg_slot(top as int, n as int, j), 8) == le_bytes(#[trigger] arg_addr(top as int, a, j) as nat, 8) by {
                if j < i {
                    assert(m1.bytes_at(arg_slot(top as int, n as int, j), 8) == le_bytes(arg_addr(top as int, a, j) as nat, 8));
                }
                assert(ms.bytes_at(arg_slot(top as int, n as int, j), 8) =~= le_bytes(arg_addr(top as int, a, j) as nat, 8));
            }
            assert(ms.bytes_at(arg_slot(top as int, n as int, n as int), 8) =~= le_bytes(0, 8));
            assert forall|j: int| 0 <= j < i + 1 implies ms.bytes_at(#[trigger] arg_addr(top as int, a, j), a[j].len()) == a[j]
                && ms.byte_at(arg_addr(top as int, a, j) + a[j].len()) == 0 by {
                let aj = arg_addr(top as int, a, j);
                let lo = top - exec_stack_need(a);
                lemma_args_size_mono(a, j + 1, n as int);
                lemma_args_size_mono(a, 0, j);
                assert(args_size(a, j + 1) == args_size(a, j) + a[j].len() + 1);
                if j < i {
                    lemma_args_size_mono(a, j + 1, i as int);
                    assert(m1.bytes_at(aj, a[j].len()) == a[j]);
                }
                assert forall|k: int| 0 <= k <= a[j].len() implies ms.byte_at(aj + k) == a[j].push(0u8)[k] by {
                    let va = aj + k;
                    assert(lo <= va < lo + exec_stack_need(a));
                    assert(ms0.mapped(vpn_of(va)));
                    assert(m1.mapped(vpn_of(va)));
                    if j < i {
                        if k < a[j].len() {
                            assert(m1.bytes_at(aj, a[j].len())[k] == a[j][k]);
                        } else {
                            assert(m1.byte_at(aj + a[j].len()) == 0);
                        }
                        assert(m2.byte_at(va) == m1.byte_at(va));
                        assert(m3.byte_at(va) == m2.byte_at(va));
                        assert(ms.byte_at(va) == m3.byte_at(va));
                    } else if k < a[j].len() {
                        assert(m3.byte_at(sp + k) == args@[i as int]@[k]);
                        assert(ms.byte_at(va) == m3.byte_at(va));
                    } else {
                        assert(ms.byte_at(sp + len + 0) == z@[0]);
                    }
                }
                assert(ms.byte_at(aj + a[j].len()) == a[j].push(0u8)[a[j].len() as int]);
                assert(ms.bytes_at(aj, a[j].len()) =~= a[j]) by {
                    assert forall|k: int| 0 <= k < a[j].len() implies ms.bytes_at(aj, a[j].len())[k] == a[j][k] by {
                        assert(ms.byte_at(aj + k) == a[j].push(0u8)[k]);
                    }
                }
            }
        }
        i = i + 1;
    }
    proof {
        assert(ms.bytes_at(arg_slot(top as int, n as int, n as int), 8) == le_bytes(0, 8));
    }
    sp - sp % 8
}


/// Registers a program starts with: the stack pointer (`x2`), the argument
/// count (`x10`) and the address of the argument pointers (`x11`); all others
/// zero.
pub open spec fn exec_regs(sp: int, argc: int, argv: int) -> Seq<usize> {
    Seq::new(
        32,
        |r: int|
            if r == 2 {
                sp as usize
            } else if r == 10 {
                argc as usize
            } else if r == 11 {
                argv as usize
            } else {
                0usize
            },
    )
}

/// exec syscall: the caller's process takes the address space `program` of
/// the loaded program (none when no program has the requested name: -1 and
/// nothing changes) and keeps its main thread only: the caller becomes that
/// thread (tid 0), every other thread slot is freed, and the process's other
/// threads leave the ready queue and the sleepers. The arguments are pushed
/// on the user stack below `ustack_top`, and the caller resumes at `entry`
/// with the stack pointer below them, the argument count in `x10` and the
/// argument pointers in `x11`. Returns the argument count, which the return
/// path leaves in `x10`.
pub fn sys_exec(
    k: &mut Kernel,
    program: Option<MemorySet>,
    entry: usize,
    ustack_top: usize,
    args: &Vec<Vec<u8>>,
) -> (r: isize)
    requires
        old(k).running(),
        args@.len() < isize::MAX,
        program matches Some(ms) ==> {
            let a = arg_seqs(args@);
            &&& ms.wf()
            &&& exec_stack_need(a) <= ustack_top
            &&& ms.range_mapped(ustack_top - exec_stack_need(a), exec_stack_need(a))
        },
    ensures
        old(k).wf() ==> final(k).wf(),
        program.is_none() ==> r == -1 && *final(k) == *old(k),
        program matches Some(ms) ==> {
            let a = arg_seqs(args@);
            let argc = a.len() as int;
            let top = ustack_top as int;
            let i = old(k).cur_idx();
            let p = old(k).cur_proc();
            let q = final(k).processes@[i];
            let c = old(k).cur();
            let t = final(k).current.unwrap();
            &&& r == argc
            &&& final(k).processes@.len() == old(k).processes@.len()
            &&& forall|j: int| 0 <= j < old(k).processes@.len() && j != i ==> #[trigger] final(k).processes@[j] == old(k).processes@[j]
            &&& final(k).next_pid == old(k).next_pid
            &&& final(k).next_kstack == old(k).next_kstack
            &&& q == (ProcessControlBlock {
                inner: ProcessControlBlockInner {
                    memory_set: q.inner.memory_set,
                    tasks: q.inner.tasks,
                    ..p.inner
                },
                ..p
            })
            &&& q.inner.tasks@ == seq![true]
            &&& args_pushed(q.inner.memory_set, ms, top, a)
            &&& final(k).manager.stop_task == old(k).manager.stop_task
            &&& final(k).manager.ready_queue@ == old(k).manager.ready_queue@.filter(not_of(c.pid))
            &&& final(k).timers@ == old(k).timers@.filter(sleeper_not_of(c.pid))
            &&& final(k).current.is_some()
            &&& t.pid == c.pid
            &&& t.kstack == c.kstack
            &&& t.inner == (crate::task::TaskControlBlockInner {
                trap_cx: t.inner.trap_cx,
                res: t.inner.res,
                ..c.inner
            })
            &&& t.inner.res == Some(
                crate::task::TaskUserRes { tid: 0, ustack_base: c.inner.res.unwrap().ustack_base },
            )
            &&& t.inner.trap_cx.sepc == entry
            &&& t.inner.trap_cx.x@ == exec_regs(exec_sp(top, a), argc, argv_base(top, argc))
        },
{
    let mut ms = match program {
        Some(ms) => ms,
        None => {
            return -1;
        },
    };
    let i = k.current_process_index();
    let pid = k.current.as_ref().unwrap().pid;
    let ustack_base = k.current.as_ref().unwrap().inner.res.as_ref().unwrap().ustack_base;
    proof {
        lemma_args_size_mono(arg_seqs(args@), 0, args@.len() as int);
        assert(arg_seqs(args@).len() == args@.len());
    }
    let sp = push_args(&mut ms, ustack_top, args);
    k.processes[i].inner.memory_set = ms;
    let mut tasks: Vec<bool> = Vec::new();
    tasks.push(true);
    assert(tasks@ =~= seq![true]);
    k.processes[i].inner.tasks = tasks;
    let mut queue: Vec<TaskControlBlock> = Vec::new();
    std::mem::swap(&mut queue, &mut k.manager.ready_queue);
    k.manager.ready_queue = drop_threads_of(queue, pid);
    let mut timers: Vec<TimerCondVar> = Vec::new();
    std::mem::swap(&mut timers, &mut k.timers);
    k.timers = drop_sleepers_of(timers, pid);
    let argc = args.len();
    let base = ustack_top - 8 * (argc + 1);
    let mut x = [0usize; 32];
    x[2] = sp;
    x[10] = argc;
    x[11] = base;
    match &mut k.current {
        Some(t) => {
            t.inner.trap_cx = TrapContext { x, sepc: entry };
            t.inner.res = Some(crate::task::TaskUserRes { tid: 0, ustack_base });
        },
        None => {},
    }
    proof {
        assert(x@ =~= exec_regs(sp as int, argc as int, base as int));
        if old(k).wf() {
            lemma_wf_one_changed(old(k), k, i as int);
        }
    }
    argc as isize
}

} // verus!
