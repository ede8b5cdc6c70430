//! Thread control blocks and per-task accounting.
use vstd::prelude::*;
use std::collections::BTreeMap;
use crate::config::{BIG_STRIDE, MAX_SYSCALL_NUM};

verus! {

broadcast use vstd::laws_cmp::group_laws_cmp;

/// The execution status of a thread
#[derive(Clone, Copy, Debug, PartialEq, Eq, Structural)]
pub enum TaskStatus {
    /// ready to run
    Ready,
    /// running
    Running,
    /// blocked
    Blocked,
}

/// A synchronization resource of a process: a mutex or a semaphore, by id.
#[derive(Clone, Copy, Debug, PartialEq, Eq, Structural)]
pub enum ResourceId {
    /// Mutex with this id
    Mutex(usize),
    /// Semaphore with this id
    Semaphore(usize),
}

/// Task information, used for `sys_task_info`
pub struct TaskInfo {
    /// The first time (in ms, never 0) the task was scheduled
    pub first_schedule_time: Option<usize>,
    /// The number of times each syscall is called
    pub syscall_times: BTreeMap<u32, u32>,
}

impl TaskInfo {
    /// A first schedule time, once recorded, is not zero; only counted ids are keys.
    pub open spec fn wf(&self) -> bool {
        &&& (self.first_schedule_time matches Some(t) ==> t > 0)
        &&& forall|k: u32| #[trigger] self.syscall_times@.contains_key(k) ==> k < MAX_SYSCALL_NUM
    }

    /// How often syscall `id` was counted.
    pub open spec fn count_of(&self, id: u32) -> nat {
        if self.syscall_times@.contains_key(id) {
            self.syscall_times@[id] as nat
        } else {
            0
        }
    }

    /// Nothing recorded yet.
    pub fn new() -> (r: Self)
        ensures
            r.wf(),
            r.first_schedule_time.is_none(),
            r.syscall_times@ == Map::<u32, u32>::empty(),
    {
        TaskInfo { first_schedule_time: None, syscall_times: BTreeMap::new() }
    }

    /// A copy of the record.
    pub fn snapshot(&self) -> (r: Self)
        ensures
            r.first_schedule_time == self.first_schedule_time,
            r.syscall_times@ == self.syscall_times@,
    {
        TaskInfo {
            first_schedule_time: self.first_schedule_time,
            syscall_times: self.syscall_times.clone(),
        }
    }

    /// Records the first dispatch at `time`; later dispatches change nothing.
    pub fn set_first_schedule_time(&mut self, time: usize)
        requires
            time > 0,
        ensures
            dispatched_at(*old(self), *final(self), time),
            (old(self).first_schedule_time matches Some(t0) ==> t0 <= time) ==> (final(self).first_schedule_time matches Some(f) && f <= time),
            final(self).syscall_times@ == old(self).syscall_times@,
            old(self).first_schedule_time.is_some() ==> final(self).first_schedule_time
                == old(self).first_schedule_time,
            old(self).first_schedule_time.is_none() ==> final(self).first_schedule_time
                == Some(time),
    {
        if self.first_schedule_time.is_none() {
            self.first_schedule_time = Some(time);
        }
    }

    /// Counts one more call of syscall `syscall_id`.
    pub fn inc_syscall_times(&mut self, syscall_id: usize)
        requires
            syscall_id < MAX_SYSCALL_NUM,
            old(self).count_of(syscall_id as u32) < u32::MAX,
        ensures
            final(self).first_schedule_time == old(self).first_schedule_time,
            final(self).syscall_times@ == old(self).syscall_times@.insert(
                syscall_id as u32,
                (old(self).count_of(syscall_id as u32) + 1) as u32,
            ),
            final(self).count_of(syscall_id as u32) == old(self).count_of(syscall_id as u32) + 1,
            forall|k: u32| k != syscall_id ==> #[trigger] final(self).count_of(k) == old(self).count_of(k),
            old(self).wf() ==> final(self).wf(),
    {
        let id = syscall_id as u32;
        let count: u32 = match self.syscall_times.get(&id) {
            Some(c) => *c,
            None => 0,
        };
        self.syscall_times.insert(id, count + 1);
    }
}

/// Resources a thread holds in its process: its id and user stack.
pub struct TaskUserRes {
    /// Thread id within the process (slot index)
    pub tid: usize,
    /// Base address of the process's user stacks
    pub ustack_base: usize,
}

/// The saved user registers of a thread.
pub struct TrapContext {
    /// General purpose registers; `x[10]` carries a syscall's return value
    pub x: [usize; 32],
    /// Program counter to return to
    pub sepc: usize,
}

/// Mutable part of a thread control block.
pub struct TaskControlBlockInner {
    /// Thread id and user stack, released when the thread exits
    pub res: Option<TaskUserRes>,
    /// Saved user registers
    pub trap_cx: TrapContext,
    /// Execution status
    pub task_status: TaskStatus,
    /// Set when the thread exits
    pub exit_code: Option<i32>,
    /// Task information
    pub task_info: TaskInfo,
    /// Stride scheduling: virtual time consumed
    pub stride: usize,
    /// Stride scheduling: increment per dispatch
    pub pass: usize,
    /// The mutex this thread must take (again) once dispatched: a spin mutex
    /// it yielded on, or the mutex it gave up in a condition-variable wait
    pub pending_mutex: Option<usize>,
    /// A unit handed to this thread while it was blocked, whose acquisition
    /// the deadlock detector records once the thread runs again
    pub pending_grant: Option<ResourceId>,
}

impl TaskControlBlockInner {
    /// The saved user registers.
    pub fn get_trap_cx(&mut self) -> (r: &mut TrapContext)
        ensures
            *r == old(self).trap_cx,
            final(self).trap_cx == *final(r),
            final(self).res == old(self).res,
            final(self).task_status == old(self).task_status,
            final(self).exit_code == old(self).exit_code,
            final(self).task_info == old(self).task_info,
            final(self).stride == old(self).stride,
            final(self).pass == old(self).pass,
    {
        &mut self.trap_cx
    }

    /// The execution status.
    pub fn get_status(&self) -> (r: TaskStatus)
        ensures
            r == self.task_status,
    {
        self.task_status
    }

    /// Records the first dispatch at `time`, used for `sys_task_info`.
    pub fn set_first_schedule_time(&mut self, time: usize)
        requires
            time > 0,
        ensures
            final(self).task_info.syscall_times@ == old(self).task_info.syscall_times@,
            old(self).task_info.first_schedule_time.is_some() ==> final(self).task_info.first_schedule_time
                == old(self).task_info.first_schedule_time,
            old(self).task_info.first_schedule_time.is_none() ==> final(self).task_info.first_schedule_time
                == Some(time),
            final(self).stride == old(self).stride,
            final(self).pass == old(self).pass,
            final(self).task_status == old(self).task_status,
            final(self).res == old(self).res,
            final(self).trap_cx == old(self).trap_cx,
            final(self).exit_code == old(self).exit_code,
            final(self).pending_mutex == old(self).pending_mutex,
            final(self).pending_grant == old(self).pending_grant,
            (old(self).task_info.first_schedule_time matches Some(t0) ==> t0 <= time) ==> (final(self).task_info.first_schedule_time matches Some(f) && f <= time),
    {
        self.task_info.set_first_schedule_time(time);
    }
}

/// Thread control block.
pub struct TaskControlBlock {
    /// Pid of the owning process (a back-reference that owns nothing)
    pub pid: usize,
    /// Identifier of the kernel stack
    pub kstack: usize,
    /// Mutable part
    pub inner: TaskControlBlockInner,
}

impl TaskControlBlock {
    /// The pass is at most `BIG_STRIDE / 2`, as `BIG_STRIDE / priority` is for
    /// every priority of at least 2, and the task information is well formed.
    pub open spec fn wf(&self) -> bool {
        &&& self.inner.pass <= BIG_STRIDE / 2
        &&& self.inner.task_info.wf()
    }

    /// Thread id, or none once the thread has released its resources.
    pub open spec fn tid(&self) -> Option<usize> {
        match self.inner.res {
            Some(res) => Some(res.tid),
            None => None,
        }
    }

    /// A ready thread `tid` of process `pid` that has not run yet.
    pub fn new(pid: usize, tid: usize, ustack_base: usize, kstack: usize) -> (r: Self)
        ensures
            r.wf(),
            r.pid == pid,
            r.kstack == kstack,
            r.tid() == Some(tid),
            r.inner.task_status == TaskStatus::Ready,
            r.inner.exit_code.is_none(),
            r.inner.task_info.first_schedule_time.is_none(),
            r.inner.task_info.syscall_times@ == Map::<u32, u32>::empty(),
            r.inner.stride == 0,
            r.inner.pass == BIG_STRIDE / 16,
            r.inner.pending_mutex.is_none(),
            r.inner.pending_grant.is_none(),
            r.inner.trap_cx.x@ == Seq::new(32, |i: int| 0usize),
    {
        TaskControlBlock {
            pid,
            kstack,
            inner: TaskControlBlockInner {
                res: Some(TaskUserRes { tid, ustack_base }),
                trap_cx: TrapContext { x: [0usize; 32], sepc: 0 },
                task_status: TaskStatus::Ready,
                exit_code: None,
                task_info: TaskInfo::new(),
                stride: 0,
                pass: BIG_STRIDE / 16,
                pending_mutex: None,
                pending_grant: None,
            },
        }
    }

    /// Exclusive access to the mutable part.
    pub fn inner_exclusive_access(&mut self) -> (r: &mut TaskControlBlockInner)
        ensures
            *r == old(self).inner,
            final(self).inner == *final(r),
            final(self).pid == old(self).pid,
            final(self).kstack == old(self).kstack,
    {
        &mut self.inner
    }

    /// Counts one more call of `syscall_id`, used for `sys_task_info`.
    pub fn inc_syscall_times(&mut self, syscall_id: usize)
        requires
            syscall_id < MAX_SYSCALL_NUM,
            old(self).inner.task_info.count_of(syscall_id as u32) < u32::MAX,
        ensures
            final(self).inner.task_info.count_of(syscall_id as u32) == old(self).inner.task_info.count_of(syscall_id as u32) + 1,
            forall|k: u32| k != syscall_id ==> #[trigger] final(self).inner.task_info.count_of(k) == old(self).inner.task_info.count_of(k),
            final(self).inner.task_info.first_schedule_time == old(self).inner.task_info.first_schedule_time,
            final(self).inner.stride == old(self).inner.stride,
            final(self).inner.pass == old(self).inner.pass,
            final(self).inner.task_status == old(self).inner.task_status,
            final(self).inner.res == old(self).inner.res,
            final(self).pid == old(self).pid,
            old(self).wf() ==> final(self).wf(),
    {
        self.inner.task_info.inc_syscall_times(syscall_id);
    }

    /// A copy of the task information, used for `sys_task_info`.
    pub fn get_task_info(&self) -> (r: TaskInfo)
        ensures
            r.first_schedule_time == self.inner.task_info.first_schedule_time,
            r.syscall_times@ == self.inner.task_info.syscall_times@,
    {
        self.inner.task_info.snapshot()
    }

    /// Sets the priority, used for `sys_set_priority`: the stride is reset to
    /// `prio` and the pass becomes `BIG_STRIDE / prio`.
    pub fn set_priority(&mut self, prio: usize)
        requires
            prio >= 2,
        ensures
            final(self).inner.stride == prio,
            final(self).inner.pass == BIG_STRIDE / prio,
            final(self).inner.task_status == old(self).inner.task_status,
            final(self).inner.task_info == old(self).inner.task_info,
            final(self).inner.res == old(self).inner.res,
            final(self).inner.exit_code == old(self).inner.exit_code,
            final(self).pid == old(self).pid,
            old(self).wf() ==> final(self).wf(),
    {
        self.inner.stride = prio;
        self.inner.pass = BIG_STRIDE / prio;
        assert(10000usize / prio <= 5000usize) by (nonlinear_arith)
            requires
                prio >= 2,
        ;
    }
}


/// `b` is `a` after a dispatch at `time`: the first schedule time is set if
/// it was not, and kept otherwise.
pub open spec fn dispatched_at(a: TaskInfo, b: TaskInfo, time: usize) -> bool {
    &&& b.syscall_times@ == a.syscall_times@
    &&& a.first_schedule_time.is_some() ==> b.first_schedule_time == a.first_schedule_time
    &&& a.first_schedule_time.is_none() ==> b.first_schedule_time == Some(time)
}

/// Over successive dispatches at times `t1 <= t2`, the first schedule time is
/// set by the first one, is no later than it, and is then read unchanged: it
/// never decreases and never goes back to none.
pub proof fn lemma_first_schedule_time_stable(a: TaskInfo, b: TaskInfo, c: TaskInfo, t1: usize, t2: usize)
    requires
        dispatched_at(a, b, t1),
        dispatched_at(b, c, t2),
        t1 <= t2,
        a.first_schedule_time matches Some(f) ==> f <= t1,
    ensures
        b.first_schedule_time matches Some(f) && f <= t1,
        c.first_schedule_time == b.first_schedule_time,
        c.first_schedule_time.unwrap() <= t2,
{
}

} // verus!
