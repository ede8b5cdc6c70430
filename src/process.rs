//! Processes and the kernel state that ties processes, threads and the
//! scheduler together.
use vstd::prelude::*;
use crate::dead_lock::DeadLockDetect;
use crate::manager::TaskManager;
use crate::mm::MemorySet;
use crate::sync::{Condvar, Mutex, Semaphore};
use crate::task::{TaskControlBlock, TaskStatus};

verus! {

/// Pid of the initial process, which adopts the children of exiting processes.
pub const INIT_PID: usize = 0;

/// Mutable part of a process control block.
pub struct ProcessControlBlockInner {
    /// The process has exited and waits to be reaped by its parent
    pub is_zombie: bool,
    /// Address space
    pub memory_set: MemorySet,
    /// Pid of the parent (a back-reference)
    pub parent: Option<usize>,
    /// Pids of the children, which the process reaps
    pub children: Vec<usize>,
    /// Exit code, once exited
    pub exit_code: i32,
    /// Pending signals
    pub signals: u32,
    /// Thread slots: slot `tid` is true while thread `tid` exists
    pub tasks: Vec<bool>,
    /// Mutexes by id
    pub mutex_list: Vec<Mutex>,
    /// Semaphores by id
    pub semaphore_list: Vec<Semaphore>,
    /// Condition variables by id; free slots are reused
    pub condvar_list: Vec<Option<Condvar>>,
    /// Deadlock detectors for mutexes and for semaphores, while enabled
    pub deadlock_detect: Option<(DeadLockDetect, DeadLockDetect)>,
}

/// Process control block.
pub struct ProcessControlBlock {
    /// Process id
    pub pid: usize,
    /// Mutable part
    pub inner: ProcessControlBlockInner,
}

/// A sleeping thread and the time (ms) at which it wakes.
pub struct TimerCondVar {
    /// Wake-up time in ms
    pub expire_ms: usize,
    /// The sleeping thread
    pub task: TaskControlBlock,
}

/// The whole kernel state: every process not yet reaped, the ready queue,
/// the running thread and the sleeping threads.
pub struct Kernel {
    /// Processes by pid, live ones and zombies awaiting their parent
    pub processes: Vec<ProcessControlBlock>,
    /// Ready queue
    pub manager: TaskManager,
    /// The running thread
    pub current: Option<TaskControlBlock>,
    /// Sleeping threads
    pub timers: Vec<TimerCondVar>,
    /// Next pid to hand out
    pub next_pid: usize,
    /// Next kernel stack to hand out
    pub next_kstack: usize,
}

/// Index of the last process of `ps[..n]` with pid `pid`, or -1.
pub open spec fn find_proc(ps: Seq<ProcessControlBlock>, pid: usize, n: int) -> int
    decreases n,
{
    if n <= 0 {
        -1
    } else if ps[n - 1].pid == pid {
        n - 1
    } else {
        find_proc(ps, pid, n - 1)
    }
}

pub proof fn lemma_find_proc_bounds(ps: Seq<ProcessControlBlock>, pid: usize, n: int)
    ensures
        -1 <= find_proc(ps, pid, n),
        find_proc(ps, pid, n) < n || find_proc(ps, pid, n) == -1,
        find_proc(ps, pid, n) >= 0 ==> ps[find_proc(ps, pid, n)].pid == pid,
    decreases n,
{
    if n > 0 {
        lemma_find_proc_bounds(ps, pid, n - 1);
    }
}

/// Index in `ps` of the process with pid `pid`, or -1.
pub open spec fn proc_index(ps: Seq<ProcessControlBlock>, pid: usize) -> int {
    find_proc(ps, pid, ps.len() as int)
}

/// Only the pid picks the process: same pids, same lookup.
pub proof fn lemma_proc_index_same_pids(a: Seq<ProcessControlBlock>, b: Seq<ProcessControlBlock>, pid: usize, n: int)
    requires
        n <= a.len(),
        n <= b.len(),
        forall|i: int| 0 <= i < n ==> (#[trigger] a[i]).pid == b[i].pid,
    ensures
        find_proc(a, pid, n) == find_proc(b, pid, n),
    decreases n,
{
    if n > 0 {
        lemma_find_proc_bounds(a, pid, n - 1);
        lemma_proc_index_same_pids(a, b, pid, n - 1);
    }
}

/// Finds the process with pid `pid` in the table.
pub fn find_process(processes: &Vec<ProcessControlBlock>, pid: usize) -> (r: Option<usize>)
    ensures
        r.is_none() <==> proc_index(processes@, pid) < 0,
        r matches Some(i) ==> i == proc_index(processes@, pid) && i < processes@.len()
            && processes@[i as int].pid == pid,
{
    let mut i = processes.len();
    proof { lemma_find_proc_bounds(processes@, pid, i as int); }
    while i > 0
        invariant
            i <= processes@.len(),
            find_proc(processes@, pid, i as int) == proc_index(processes@, pid),
        decreases i,
    {
        if processes[i - 1].pid == pid {
            proof { lemma_find_proc_bounds(processes@, pid, i as int); }
            return Some(i - 1);
        }
        i = i - 1;
    }
    None
}

impl Kernel {
    /// The running thread.
    pub open spec fn cur(&self) -> TaskControlBlock {
        self.current.unwrap()
    }

    /// Thread id of the running thread.
    pub open spec fn cur_tid(&self) -> usize {
        self.cur().tid().unwrap()
    }

    /// Index of the running thread's process.
    pub open spec fn cur_idx(&self) -> int {
        proc_index(self.processes@, self.cur().pid)
    }

    /// The running thread's process.
    pub open spec fn cur_proc(&self) -> ProcessControlBlock {
        self.processes@[self.cur_idx()]
    }

    /// A thread runs, holds its thread id, and its process is in the table.
    pub open spec fn running(&self) -> bool {
        &&& self.current.is_some()
        &&& self.cur().tid().is_some()
        &&& 0 <= self.cur_idx() < self.processes@.len()
    }

    /// Index of the running thread's process.
    pub fn current_process_index(&self) -> (r: usize)
        requires
            self.running(),
        ensures
            r == self.cur_idx(),
            r < self.processes@.len(),
            self.processes@[r as int].pid == self.cur().pid,
    {
        let pid = self.current.as_ref().unwrap().pid;
        proof { lemma_find_proc_bounds(self.processes@, pid, self.processes@.len() as int); }
        find_process(&self.processes, pid).unwrap()
    }

    /// Thread id of the running thread.
    pub fn current_tid(&self) -> (r: usize)
        requires
            self.running(),
        ensures
            r == self.cur_tid(),
    {
        self.current.as_ref().unwrap().inner.res.as_ref().unwrap().tid
    }
}


/// `t` marked blocked.
pub open spec fn blocked(t: TaskControlBlock) -> TaskControlBlock {
    TaskControlBlock {
        inner: crate::task::TaskControlBlockInner { task_status: TaskStatus::Blocked, ..t.inner },
        ..t
    }
}

/// `t` made ready with a pending acquire of mutex `id`.
pub open spec fn retrying(t: TaskControlBlock, id: usize) -> TaskControlBlock {
    TaskControlBlock {
        inner: crate::task::TaskControlBlockInner {
            task_status: TaskStatus::Ready,
            pending_mutex: Some(id),
            ..t.inner
        },
        ..t
    }
}

/// `t` handed a unit of resource `r` while blocked, its grant pending.
pub open spec fn handed(t: TaskControlBlock, r: crate::task::ResourceId) -> TaskControlBlock {
    TaskControlBlock {
        inner: crate::task::TaskControlBlockInner { pending_grant: Some(r), ..t.inner },
        ..t
    }
}

/// `t` marked ready.
pub open spec fn ready(t: TaskControlBlock) -> TaskControlBlock {
    TaskControlBlock {
        inner: crate::task::TaskControlBlockInner { task_status: TaskStatus::Ready, ..t.inner },
        ..t
    }
}

/// Deadlock detection is on in `p`.
pub open spec fn detecting(p: ProcessControlBlock) -> bool {
    p.inner.deadlock_detect.is_some()
}

/// The mutex-class detector of `p`.
pub open spec fn mutex_detector(p: ProcessControlBlock) -> DeadLockDetect {
    p.inner.deadlock_detect.unwrap().0
}

/// The semaphore-class detector of `p`.
pub open spec fn sem_detector(p: ProcessControlBlock) -> DeadLockDetect {
    p.inner.deadlock_detect.unwrap().1
}

/// `b` is `a` with at most its synchronization objects changed.
pub open spec fn same_but_sync(a: ProcessControlBlock, b: ProcessControlBlock) -> bool {
    &&& b.pid == a.pid
    &&& b.inner.is_zombie == a.inner.is_zombie
    &&& b.inner.memory_set == a.inner.memory_set
    &&& b.inner.parent == a.inner.parent
    &&& b.inner.children == a.inner.children
    &&& b.inner.exit_code == a.inner.exit_code
    &&& b.inner.signals == a.inner.signals
    &&& b.inner.tasks == a.inner.tasks
}

/// Two detectors hold the same numbers.
pub open spec fn same_counts(a: DeadLockDetect, b: DeadLockDetect) -> bool {
    &&& a.available@ == b.available@
    &&& a.alloc_rows() == b.alloc_rows()
    &&& a.need_rows() == b.need_rows()
    &&& a.wf() == b.wf()
}

impl Kernel {
    /// Every process but the one at `i` is kept, and so are the ready queue,
    /// the running thread and the sleepers.
    pub open spec fn only_proc_changed(&self, prev: &Kernel, i: int) -> bool {
        &&& self.processes@.len() == prev.processes@.len()
        &&& forall|j: int| 0 <= j < prev.processes@.len() && j != i ==> #[trigger] self.processes@[j] == prev.processes@[j]
        &&& self.manager == prev.manager
        &&& self.current == prev.current
        &&& self.timers == prev.timers
        &&& self.next_pid == prev.next_pid
        &&& self.next_kstack == prev.next_kstack
    }

    /// Every process but the one at `i` is kept, and so are the sleepers.
    pub open spec fn others_kept(&self, prev: &Kernel, i: int) -> bool {
        &&& self.processes@.len() == prev.processes@.len()
        &&& forall|j: int| 0 <= j < prev.processes@.len() && j != i ==> #[trigger] self.processes@[j] == prev.processes@[j]
        &&& self.timers == prev.timers
        &&& self.next_pid == prev.next_pid
        &&& self.next_kstack == prev.next_kstack
    }
}


/// `b` is `a` with at most its address space changed.
pub open spec fn same_but_memory(a: ProcessControlBlock, b: ProcessControlBlock) -> bool {
    b == ProcessControlBlock {
        inner: ProcessControlBlockInner { memory_set: b.inner.memory_set, ..a.inner },
        ..a
    }
}


/// Index of the live (not zombie) process with pid `pid`, or -1.
pub open spec fn live_index(ps: Seq<ProcessControlBlock>, pid: usize) -> int {
    let i = proc_index(ps, pid);
    if i >= 0 && !ps[i].inner.is_zombie {
        i
    } else {
        -1
    }
}

/// Looks up a live process by pid; an exited process is no longer found.
pub fn pid2process(processes: &Vec<ProcessControlBlock>, pid: usize) -> (r: Option<usize>)
    ensures
        r.is_none() <==> live_index(processes@, pid) < 0,
        r matches Some(i) ==> i == live_index(processes@, pid) && i < processes@.len(),
{
    match find_process(processes, pid) {
        Some(i) => {
            if processes[i].inner.is_zombie {
                None
            } else {
                Some(i)
            }
        },
        None => None,
    }
}

/// Adds a process to the table.
pub fn insert_into_pid2process(processes: &mut Vec<ProcessControlBlock>, process: ProcessControlBlock)
    ensures
        final(processes)@ == old(processes)@.push(process),
{
    processes.push(process);
}

/// Takes the process with pid `pid` out of the table.
pub fn remove_from_pid2process(processes: &mut Vec<ProcessControlBlock>, pid: usize) -> (r: ProcessControlBlock)
    requires
        proc_index(old(processes)@, pid) >= 0,
    ensures
        r == old(processes)@[proc_index(old(processes)@, pid)],
        r.pid == pid,
        final(processes)@ == old(processes)@.remove(proc_index(old(processes)@, pid)),
{
    proof { lemma_find_proc_bounds(processes@, pid, processes@.len() as int); }
    let i = find_process(processes, pid).unwrap();
    processes.remove(i)
}


/// No two processes of the table share a pid.
pub open spec fn pids_unique(ps: Seq<ProcessControlBlock>) -> bool {
    forall|a: int, b: int| 0 <= a < ps.len() && 0 <= b < ps.len() && a != b ==> ps[a].pid != ps[b].pid
}

/// A pid that no process of `ps[..n]` has is not found.
pub proof fn lemma_find_proc_absent(ps: Seq<ProcessControlBlock>, pid: usize, n: int)
    requires
        n <= ps.len(),
        forall|a: int| 0 <= a < n ==> (#[trigger] ps[a]).pid != pid,
    ensures
        find_proc(ps, pid, n) == -1,
    decreases n,
{
    if n > 0 {
        lemma_find_proc_absent(ps, pid, n - 1);
    }
}

/// With unique pids, the process at `a` is the one found under its pid.
pub proof fn lemma_find_proc_unique(ps: Seq<ProcessControlBlock>, a: int)
    requires
        pids_unique(ps),
        0 <= a < ps.len(),
    ensures
        proc_index(ps, ps[a].pid) == a,
{
    lemma_find_proc_at(ps, ps[a].pid, a, ps.len() as int);
}

proof fn lemma_find_proc_at(ps: Seq<ProcessControlBlock>, pid: usize, a: int, n: int)
    requires
        pids_unique(ps),
        0 <= a < n <= ps.len(),
        ps[a].pid == pid,
    ensures
        find_proc(ps, pid, n) == a,
    decreases n,
{
    if n - 1 > a {
        lemma_find_proc_at(ps, pid, a, n - 1);
    }
}


impl TaskControlBlock {
    /// Token of the page table of the thread's process.
    pub fn get_user_token(&self, process: &ProcessControlBlock) -> (r: usize)
        requires
            process.pid == self.pid,
        ensures
            r == process.inner.memory_set.root_ppn,
    {
        process.inner.memory_set.token()
    }
}


impl ProcessControlBlock {
    /// A live process with address space `memory_set`, one thread slot (the
    /// main thread, tid 0), no children and no synchronization objects.
    pub fn new(pid: usize, parent: Option<usize>, memory_set: MemorySet) -> (r: Self)
        ensures
            r.pid == pid,
            r.inner.parent == parent,
            r.inner.memory_set == memory_set,
            !r.inner.is_zombie,
            r.inner.children@.len() == 0,
            r.inner.exit_code == 0,
            r.inner.signals == 0,
            r.inner.tasks@ == seq![true],
            r.inner.mutex_list@.len() == 0,
            r.inner.semaphore_list@.len() == 0,
            r.inner.condvar_list@.len() == 0,
            r.inner.deadlock_detect.is_none(),
    {
        let mut tasks: Vec<bool> = Vec::new();
        tasks.push(true);
        assert(tasks@ =~= seq![true]);
        ProcessControlBlock {
            pid,
            inner: ProcessControlBlockInner {
                is_zombie: false,
                memory_set,
                parent,
                children: Vec::new(),
                exit_code: 0,
                signals: 0,
                tasks,
                mutex_list: Vec::new(),
                semaphore_list: Vec::new(),
                condvar_list: Vec::new(),
                deadlock_detect: None,
            },
        }
    }
}


/// Every child listed by a process is another process of the table whose
/// parent is that process, never the initial one, and no child is listed
/// twice.
pub open spec fn family_ok(ps: Seq<ProcessControlBlock>) -> bool {
    &&& forall|a: int, j: int|
        0 <= a < ps.len() && 0 <= j < ps[a].inner.children@.len() ==> {
            let c = #[trigger] ps[a].inner.children@[j];
            &&& c != INIT_PID
            &&& c != ps[a].pid
            &&& exists|b: int| 0 <= b < ps.len() && ps[b].pid == c && ps[b].inner.parent == Some(ps[a].pid)
        }
    &&& forall|a: int| 0 <= a < ps.len() ==> (#[trigger] ps[a]).inner.children@.no_duplicates()
}

impl Kernel {
    /// Pids are unique and below the next one handed out, the children lists
    /// agree with the parents, and every address space is well formed.
    pub open spec fn wf(&self) -> bool {
        &&& pids_unique(self.processes@)
        &&& family_ok(self.processes@)
        &&& forall|j: int| 0 <= j < self.processes@.len() ==> (#[trigger] self.processes@[j]).pid < self.next_pid
        &&& forall|j: int| 0 <= j < self.processes@.len() ==> (#[trigger] self.processes@[j]).inner.memory_set.wf()
    }
}

/// Changing one process, keeping its pid and a well-formed address space,
/// keeps the kernel well formed.
pub proof fn lemma_wf_one_changed(prev: &Kernel, k: &Kernel, i: int)
    requires
        prev.wf(),
        0 <= i < prev.processes@.len(),
        k.processes@.len() == prev.processes@.len(),
        forall|j: int| 0 <= j < prev.processes@.len() && j != i ==> #[trigger] k.processes@[j] == prev.processes@[j],
        k.processes@[i].pid == prev.processes@[i].pid,
        k.processes@[i].inner.parent == prev.processes@[i].inner.parent,
        k.processes@[i].inner.children == prev.processes@[i].inner.children,
        k.processes@[i].inner.memory_set.wf(),
        k.next_pid == prev.next_pid,
    ensures
        k.wf(),
{
    lemma_family_frame(prev.processes@, k.processes@);
    assert forall|a: int, b: int| 0 <= a < k.processes@.len() && 0 <= b < k.processes@.len() && a != b implies k.processes@[a].pid != k.processes@[b].pid by {
        assert(k.processes@[a].pid == prev.processes@[a].pid);
        assert(k.processes@[b].pid == prev.processes@[b].pid);
    }
    assert forall|j: int| 0 <= j < k.processes@.len() implies (#[trigger] k.processes@[j]).pid < k.next_pid by {
        assert(k.processes@[j].pid == prev.processes@[j].pid);
    }
}

/// A pid at or above `next_pid` is in no process of a well-formed kernel.
pub proof fn lemma_next_pid_fresh(k: &Kernel)
    requires
        k.wf(),
    ensures
        proc_index(k.processes@, k.next_pid) < 0,
{
    lemma_find_proc_absent(k.processes@, k.next_pid, k.processes@.len() as int);
}


/// Changing processes without touching their pids, parents and children
/// keeps the children lists in agreement.
pub proof fn lemma_family_frame(prev: Seq<ProcessControlBlock>, ps: Seq<ProcessControlBlock>)
    requires
        family_ok(prev),
        ps.len() == prev.len(),
        forall|a: int| 0 <= a < ps.len() ==> (#[trigger] ps[a]).pid == prev[a].pid
            && ps[a].inner.parent == prev[a].inner.parent && ps[a].inner.children == prev[a].inner.children,
    ensures
        family_ok(ps),
{
    assert forall|a: int, j: int| 0 <= a < ps.len() && 0 <= j < ps[a].inner.children@.len() implies {
        let c = #[trigger] ps[a].inner.children@[j];
        &&& c != INIT_PID
        &&& c != ps[a].pid
        &&& exists|b: int| 0 <= b < ps.len() && ps[b].pid == c && ps[b].inner.parent == Some(ps[a].pid)
    } by {
        assert(ps[a] == ps[a]);
        assert(prev[a].inner.children@[j] == ps[a].inner.children@[j]);
        let b = choose|b: int| 0 <= b < prev.len() && prev[b].pid == prev[a].inner.children@[j] && prev[b].inner.parent == Some(prev[a].pid);
        assert(ps[b].pid == prev[b].pid);
    }
    assert forall|a: int| 0 <= a < ps.len() implies (#[trigger] ps[a]).inner.children@.no_duplicates() by {
        assert(prev[a].inner.children@.no_duplicates());
    }
}


/// Adding a child process with the next pid, linked to its parent at `i`,
/// keeps the kernel well formed.
pub proof fn lemma_wf_adopt(prev: &Kernel, k: &Kernel, i: int)
    requires
        prev.wf(),
        0 <= i < prev.processes@.len(),
        k.processes@.len() == prev.processes@.len() + 1,
        forall|j: int| 0 <= j < prev.processes@.len() && j != i ==> #[trigger] k.processes@[j] == prev.processes@[j],
        k.processes@[i].pid == prev.processes@[i].pid,
        k.processes@[i].inner.parent == prev.processes@[i].inner.parent,
        k.processes@[i].inner.children@ == prev.processes@[i].inner.children@.push(prev.next_pid),
        k.processes@[i].inner.memory_set.wf(),
        k.processes@[prev.processes@.len() as int].pid == prev.next_pid,
        k.processes@[prev.processes@.len() as int].inner.parent == Some(prev.processes@[i].pid),
        k.processes@[prev.processes@.len() as int].inner.children@.len() == 0,
        k.processes@[prev.processes@.len() as int].inner.memory_set.wf(),
        k.next_pid == prev.next_pid + 1,
    ensures
        k.wf(),
{
    let ps = prev.processes@;
    let ns = k.processes@;
    let n = ps.len() as int;
    assert(ps[i].pid < prev.next_pid);
    assert forall|a: int, b: int| 0 <= a < ns.len() && 0 <= b < ns.len() && a != b implies ns[a].pid != ns[b].pid by {
        if a < n && b < n {
            assert(ns[a].pid == ps[a].pid && ns[b].pid == ps[b].pid);
        } else if a < n {
            assert(ns[a].pid == ps[a].pid);
        } else {
            assert(ns[b].pid == ps[b].pid);
        }
    }
    assert forall|j: int| 0 <= j < ns.len() implies (#[trigger] ns[j]).pid < k.next_pid by {
        if j < n {
            assert(ns[j].pid == ps[j].pid);
        }
    }
    assert forall|j: int| 0 <= j < ns.len() implies (#[trigger] ns[j]).inner.memory_set.wf() by {
        if j < n && j != i {
            assert(ns[j] == ps[j]);
        }
    }
    assert forall|a: int, j: int| 0 <= a < ns.len() && 0 <= j < ns[a].inner.children@.len() implies {
        let c = #[trigger] ns[a].inner.children@[j];
        &&& c != INIT_PID
        &&& c != ns[a].pid
        &&& exists|b: int| 0 <= b < ns.len() && ns[b].pid == c && ns[b].inner.parent == Some(ns[a].pid)
    } by {
        if a < n {
            if a == i && j == ps[i].inner.children@.len() {
                assert(ns[a].inner.children@[j] == prev.next_pid);
                assert(ns[n].pid == prev.next_pid);
            } else {
                assert(ns[a].inner.children@[j] == ps[a].inner.children@[j]);
                assert(ns[a].pid == ps[a].pid);
                let b = choose|b: int| 0 <= b < ps.len() && ps[b].pid == ps[a].inner.children@[j] && ps[b].inner.parent == Some(ps[a].pid);
                assert(ns[b].pid == ps[b].pid && ns[b].inner.parent == ps[b].inner.parent);
            }
        }
    }
    assert forall|a: int| 0 <= a < ns.len() implies (#[trigger] ns[a]).inner.children@.no_duplicates() by {
        if a < n && a != i {
            assert(ns[a] == ps[a]);
        } else if a == i {
            let old_kids = ps[i].inner.children@;
            assert(ps[i] == ps[i]);
            assert(old_kids.no_duplicates());
            assert forall|j: int| 0 <= j < old_kids.len() implies #[trigger] old_kids[j] != prev.next_pid by {
                let b = choose|b: int| 0 <= b < ps.len() && ps[b].pid == old_kids[j] && ps[b].inner.parent == Some(ps[i].pid);
                assert(ps[b].pid < prev.next_pid);
            }
            let nk = ns[i].inner.children@;
            assert forall|u: int, v: int| 0 <= u < nk.len() && 0 <= v < nk.len() && u != v implies nk[u] != nk[v] by {
                if u < old_kids.len() && v < old_kids.len() {
                    assert(nk[u] == old_kids[u] && nk[v] == old_kids[v]);
                } else if u < old_kids.len() {
                    assert(nk[u] == old_kids[u]);
                } else if v < old_kids.len() {
                    assert(nk[v] == old_kids[v]);
                }
            }
        }
    }
}


/// Reaping child `jj` of the process at `pi` (unlinking it and dropping its
/// process, at `ci`, from the table) keeps the kernel well formed.
pub proof fn lemma_wf_reap(prev: &Kernel, k: &Kernel, pi: int, ci: int, jj: int)
    requires
        prev.wf(),
        0 <= pi < prev.processes@.len(),
        0 <= ci < prev.processes@.len(),
        pi != ci,
        0 <= jj < prev.processes@[pi].inner.children@.len(),
        prev.processes@[ci].pid == prev.processes@[pi].inner.children@[jj],
        k.processes@.len() == prev.processes@.len() - 1,
        forall|j: int| 0 <= j < k.processes@.len() && j != (if pi < ci { pi } else { pi - 1 })
            ==> #[trigger] k.processes@[j] == prev.processes@.remove(ci)[j],
        ({
            let q = k.processes@[if pi < ci { pi } else { pi - 1 }];
            &&& q.pid == prev.processes@[pi].pid
            &&& q.inner.parent == prev.processes@[pi].inner.parent
            &&& q.inner.children@ == prev.processes@[pi].inner.children@.remove(jj)
            &&& q.inner.memory_set.wf()
        }),
        k.next_pid == prev.next_pid,
    ensures
        k.wf(),
{
    let ps = prev.processes@;
    let ns = k.processes@;
    let rest = ps.remove(ci);
    let pi2 = if pi < ci { pi } else { pi - 1 };
    let kids = ps[pi].inner.children@;
    let c = kids[jj];
    assert(ps[pi] == ps[pi]);
    assert(kids.no_duplicates());
    // the reaped child's parent is the process at pi
    let b2 = choose|b: int| 0 <= b < ps.len() && ps[b].pid == kids[jj] && ps[b].inner.parent == Some(ps[pi].pid);
    assert(b2 == ci);
    assert forall|a2: int| 0 <= a2 < ns.len() implies (#[trigger] ns[a2]).pid == ps[if a2 < ci { a2 } else { a2 + 1 }].pid
        && ns[a2].inner.parent == ps[if a2 < ci { a2 } else { a2 + 1 }].inner.parent by {
        if a2 != pi2 {
            assert(ns[a2] == rest[a2]);
        }
    }
    assert forall|a: int, b: int| 0 <= a < ns.len() && 0 <= b < ns.len() && a != b implies ns[a].pid != ns[b].pid by {
        assert(ns[a].pid == ps[if a < ci { a } else { a + 1 }].pid);
        assert(ns[b].pid == ps[if b < ci { b } else { b + 1 }].pid);
    }
    assert forall|j: int| 0 <= j < ns.len() implies (#[trigger] ns[j]).pid < k.next_pid by {
        assert(ns[j].pid == ps[if j < ci { j } else { j + 1 }].pid);
    }
    assert forall|j: int| 0 <= j < ns.len() implies (#[trigger] ns[j]).inner.memory_set.wf() by {
        if j != pi2 {
            assert(ns[j] == rest[j]);
            assert(ps[if j < ci { j } else { j + 1 }] == rest[j]);
        }
    }
    assert forall|a2: int, j: int| 0 <= a2 < ns.len() && 0 <= j < ns[a2].inner.children@.len() implies {
        let cc = #[trigger] ns[a2].inner.children@[j];
        &&& cc != INIT_PID
        &&& cc != ns[a2].pid
        &&& exists|b: int| 0 <= b < ns.len() && ns[b].pid == cc && ns[b].inner.parent == Some(ns[a2].pid)
    } by {
        let a = if a2 < ci { a2 } else { a2 + 1 };
        let cc = ns[a2].inner.children@[j];
        let m = if a2 == pi2 { if j < jj { j } else { j + 1 } } else { j };
        if a2 == pi2 {
            assert(a == pi);
            assert(cc == kids[m]);
        } else {
            assert(ns[a2] == rest[a2]);
            assert(rest[a2] == ps[a]);
            assert(cc == ps[a].inner.children@[m]);
        }
        assert(cc == ps[a].inner.children@[m]);
        let b = choose|b: int| 0 <= b < ps.len() && ps[b].pid == ps[a].inner.children@[m] && ps[b].inner.parent == Some(ps[a].pid);
        if b == ci {
            assert(ps[a].pid == ps[pi].pid);
            assert(a == pi);
            assert(kids[m] == kids[jj]);
        }
        let b1 = if b < ci { b } else { b - 1 };
        assert(ns[b1].pid == ps[b].pid);
        assert(ns[b1].inner.parent == ps[b].inner.parent);
    }
    assert forall|a2: int| 0 <= a2 < ns.len() implies (#[trigger] ns[a2]).inner.children@.no_duplicates() by {
        if a2 != pi2 {
            assert(ns[a2] == rest[a2]);
            let a = if a2 < ci { a2 } else { a2 + 1 };
            assert(rest[a2] == ps[a]);
        } else {
            let nk = kids.remove(jj);
            assert forall|u: int, v: int| 0 <= u < nk.len() && 0 <= v < nk.len() && u != v implies nk[u] != nk[v] by {
                let u1 = if u < jj { u } else { u + 1 };
                let v1 = if v < jj { v } else { v + 1 };
                assert(nk[u] == kids[u1] && nk[v] == kids[v1]);
            }
        }
    }
}


/// The main thread of the process at `pi` exiting (its children handed to
/// the initial process at `ii`, its own list emptied, its pages unmapped)
/// keeps the kernel well formed.
pub proof fn lemma_wf_orphans(prev: &Kernel, k: &Kernel, pi: int, ii: int)
    requires
        prev.wf(),
        0 <= pi < prev.processes@.len(),
        0 <= ii < prev.processes@.len(),
        pi != ii,
        prev.processes@[ii].pid == INIT_PID,
        k.processes@.len() == prev.processes@.len(),
        k.next_pid == prev.next_pid,
        k.processes@[pi].pid == prev.processes@[pi].pid,
        k.processes@[pi].inner.parent == prev.processes@[pi].inner.parent,
        k.processes@[pi].inner.children@.len() == 0,
        k.processes@[pi].inner.memory_set.wf(),
        k.processes@[ii].pid == INIT_PID,
        k.processes@[ii].inner.parent == prev.processes@[ii].inner.parent,
        k.processes@[ii].inner.children@ == prev.processes@[ii].inner.children@ + prev.processes@[pi].inner.children@,
        k.processes@[ii].inner.memory_set == prev.processes@[ii].inner.memory_set,
        forall|j: int| 0 <= j < prev.processes@.len() && j != pi && j != ii && prev.processes@[pi].inner.children@.contains(prev.processes@[j].pid)
            ==> #[trigger] k.processes@[j] == (ProcessControlBlock {
                inner: ProcessControlBlockInner { parent: Some(INIT_PID), ..prev.processes@[j].inner },
                ..prev.processes@[j]
            }),
        forall|j: int| 0 <= j < prev.processes@.len() && j != pi && j != ii && !prev.processes@[pi].inner.children@.contains(prev.processes@[j].pid)
            ==> #[trigger] k.processes@[j] == prev.processes@[j],
    ensures
        k.wf(),
{
    let ps = prev.processes@;
    let ns = k.processes@;
    let kids = ps[pi].inner.children@;
    let ik = ps[ii].inner.children@;
    assert(ps[pi] == ps[pi]);
    assert(ps[ii] == ps[ii]);
    // a kid's process has the exiting process as parent
    assert forall|b: int| 0 <= b < ps.len() && #[trigger] kids.contains(ps[b].pid) implies ps[b].inner.parent == Some(ps[pi].pid) by {
        let m = choose|m: int| 0 <= m < kids.len() && kids[m] == ps[b].pid;
        let w = choose|w: int| 0 <= w < ps.len() && ps[w].pid == kids[m] && ps[w].inner.parent == Some(ps[pi].pid);
    }
    assert forall|a: int| 0 <= a < ns.len() implies (#[trigger] ns[a]).pid == ps[a].pid by {
        if a != pi && a != ii {
            if kids.contains(ps[a].pid) {
            } else {
            }
        }
    }
    assert forall|a: int, b: int| 0 <= a < ns.len() && 0 <= b < ns.len() && a != b implies ns[a].pid != ns[b].pid by {
        assert(ns[a].pid == ps[a].pid && ns[b].pid == ps[b].pid);
    }
    assert forall|j: int| 0 <= j < ns.len() implies (#[trigger] ns[j]).pid < k.next_pid by {
        assert(ns[j].pid == ps[j].pid);
    }
    assert forall|j: int| 0 <= j < ns.len() implies (#[trigger] ns[j]).inner.memory_set.wf() by {
        if j != pi && j != ii {
            if kids.contains(ps[j].pid) {
            } else {
            }
        }
    }
    // the parent a process has after the exit, when its pid is not INIT
    assert forall|b: int| 0 <= b < ps.len() && b != ii && !kids.contains(ps[b].pid) implies (#[trigger] ns[b]).inner.parent == ps[b].inner.parent by {}
    assert forall|a: int, j: int| 0 <= a < ns.len() && 0 <= j < ns[a].inner.children@.len() implies {
        let cc = #[trigger] ns[a].inner.children@[j];
        &&& cc != INIT_PID
        &&& cc != ns[a].pid
        &&& exists|b: int| 0 <= b < ns.len() && ns[b].pid == cc && ns[b].inner.parent == Some(ns[a].pid)
    } by {
        let cc = ns[a].inner.children@[j];
        if a == ii {
            if j < ik.len() {
                assert(cc == ik[j]);
                let b = choose|b: int| 0 <= b < ps.len() && ps[b].pid == ik[j] && ps[b].inner.parent == Some(ps[ii].pid);
                if kids.contains(ps[b].pid) {
                    assert(ps[b].inner.parent == Some(ps[pi].pid));
                }
                assert(b != ii);
                assert(ns[b].pid == ps[b].pid);
                assert(ns[b].inner.parent == ps[b].inner.parent);
            } else {
                let m = j - ik.len();
                assert(cc == kids[m]);
                let b = choose|b: int| 0 <= b < ps.len() && ps[b].pid == kids[m] && ps[b].inner.parent == Some(ps[pi].pid);
                assert(b != pi);
                assert(b != ii);
                assert(kids.contains(ps[b].pid));
                assert(ns[b].inner.parent == Some(INIT_PID));
                assert(ns[b].pid == ps[b].pid);
            }
        } else if a != pi {
            assert(ns[a].inner.children == ps[a].inner.children);
            assert(cc == ps[a].inner.children@[j]);
            let b = choose|b: int| 0 <= b < ps.len() && ps[b].pid == ps[a].inner.children@[j] && ps[b].inner.parent == Some(ps[a].pid);
            if kids.contains(ps[b].pid) {
                assert(ps[b].inner.parent == Some(ps[pi].pid));
                assert(a == pi);
            }
            assert(b != ii);
            assert(ns[b].pid == ps[b].pid);
            assert(ns[b].inner.parent == ps[b].inner.parent);
        }
    }
    assert forall|a: int| 0 <= a < ns.len() implies (#[trigger] ns[a]).inner.children@.no_duplicates() by {
        if a == ii {
            let nk = ik + kids;
            assert(ik.no_duplicates() && kids.no_duplicates());
            assert forall|u: int, v: int| 0 <= u < nk.len() && 0 <= v < nk.len() && u != v implies nk[u] != nk[v] by {
                if u < ik.len() && v < ik.len() {
                } else if u >= ik.len() && v >= ik.len() {
                } else {
                    let (x, y) = if u < ik.len() { (u, v - ik.len()) } else { (v, u - ik.len()) };
                    if ik[x] == kids[y] {
                        let b1 = choose|b: int| 0 <= b < ps.len() && ps[b].pid == ik[x] && ps[b].inner.parent == Some(ps[ii].pid);
                        let b2 = choose|b: int| 0 <= b < ps.len() && ps[b].pid == kids[y] && ps[b].inner.parent == Some(ps[pi].pid);
                        assert(b1 == b2);
                        assert(ps[pi].pid == ps[ii].pid);
                    }
                }
            }
        } else if a != pi {
            assert(ns[a].inner.children == ps[a].inner.children);
        }
    }
}

} // verus!
