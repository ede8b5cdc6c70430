//! Per-task accounting for a kernel that runs one task per program slot.
use vstd::prelude::*;
use crate::config::{MAX_APP_NUM, MAX_SYSCALL_NUM};
use crate::task::TaskInfo;

verus! {

/// Task information of every program slot.
pub struct TaskInfoManager {
    /// One record per slot
    pub task_infos: Vec<TaskInfo>,
}

/// Read access to the task information of one slot.
pub struct TaskInfoGuard<'a> {
    /// The record of the slot
    pub info: &'a TaskInfo,
    /// The slot
    pub task_id: usize,
}

impl<'a> TaskInfoGuard<'a> {
    /// The record behind the guard.
    pub fn as_ref(&self) -> (r: &TaskInfo)
        ensures
            *r == *self.info,
    {
        self.info
    }
}

impl TaskInfoManager {
    /// One well-formed record per slot.
    pub open spec fn wf(&self) -> bool {
        &&& self.task_infos@.len() == MAX_APP_NUM
        &&& forall|i: int| 0 <= i < MAX_APP_NUM ==> (#[trigger] self.task_infos@[i]).wf()
    }

    /// Empty records for every slot.
    pub fn new() -> (r: Self)
        ensures
            r.wf(),
            forall|i: int|
                0 <= i < MAX_APP_NUM ==> (#[trigger] r.task_infos@[i]).first_schedule_time.is_none()
                    && r.task_infos@[i].syscall_times@ == Map::<u32, u32>::empty(),
    {
        let mut task_infos: Vec<TaskInfo> = Vec::new();
        let mut i: usize = 0;
        while i < MAX_APP_NUM
            invariant
                i <= MAX_APP_NUM,
                task_infos@.len() == i,
                forall|k: int|
                    0 <= k < i ==> (#[trigger] task_infos@[k]).wf()
                        && task_infos@[k].first_schedule_time.is_none()
                        && task_infos@[k].syscall_times@ == Map::<u32, u32>::empty(),
            decreases MAX_APP_NUM - i,
        {
            task_infos.push(TaskInfo::new());
            i = i + 1;
        }
        TaskInfoManager { task_infos }
    }

    /// The record of slot `task_id`.
    pub fn get_task_info(&self, task_id: usize) -> (r: TaskInfoGuard<'_>)
        requires
            self.wf(),
            task_id < MAX_APP_NUM,
        ensures
            *r.info == self.task_infos@[task_id as int],
            r.task_id == task_id,
    {
        TaskInfoGuard { info: &self.task_infos[task_id], task_id }
    }

    /// Records the first dispatch of slot `task_id` at `time`.
    pub fn set_first_schedule_time(&mut self, task_id: usize, time: usize)
        requires
            old(self).wf(),
            task_id < MAX_APP_NUM,
            time > 0,
        ensures
            final(self).wf(),
            forall|i: int| 0 <= i < MAX_APP_NUM && i != task_id ==> #[trigger] final(self).task_infos@[i] == old(self).task_infos@[i],
            final(self).task_infos@[task_id as int].syscall_times@ == old(self).task_infos@[task_id as int].syscall_times@,
            old(self).task_infos@[task_id as int].first_schedule_time.is_some() ==> final(self).task_infos@[task_id as int].first_schedule_time
                == old(self).task_infos@[task_id as int].first_schedule_time,
            old(self).task_infos@[task_id as int].first_schedule_time.is_none() ==> final(self).task_infos@[task_id as int].first_schedule_time
                == Some(time),
            (old(self).task_infos@[task_id as int].first_schedule_time matches Some(t0) ==> t0 <= time)
                ==> (final(self).task_infos@[task_id as int].first_schedule_time matches Some(f) && f <= time),
    {
        self.task_infos[task_id].set_first_schedule_time(time);
    }

    /// Counts one more call of `syscall_id` by slot `task_id`.
    pub fn inc_syscall_times(&mut self, task_id: usize, syscall_id: usize)
        requires
            old(self).wf(),
            task_id < MAX_APP_NUM,
            syscall_id < MAX_SYSCALL_NUM,
            old(self).task_infos@[task_id as int].count_of(syscall_id as u32) < u32::MAX,
        ensures
            final(self).wf(),
            forall|i: int| 0 <= i < MAX_APP_NUM && i != task_id ==> #[trigger] final(self).task_infos@[i] == old(self).task_infos@[i],
            final(self).task_infos@[task_id as int].first_schedule_time == old(self).task_infos@[task_id as int].first_schedule_time,
            final(self).task_infos@[task_id as int].count_of(syscall_id as u32) == old(self).task_infos@[task_id as int].count_of(syscall_id as u32) + 1,
            forall|k: u32| k != syscall_id ==> #[trigger] final(self).task_infos@[task_id as int].count_of(k) == old(self).task_infos@[task_id as int].count_of(k),
    {
        self.task_infos[task_id].inc_syscall_times(syscall_id);
    }
}

/// The task information of the current task `current_task_id`.
pub fn get_task_info(manager: &TaskInfoManager, current_task_id: usize) -> (r: TaskInfoGuard<'_>)
    requires
        manager.wf(),
        current_task_id < MAX_APP_NUM,
    ensures
        *r.info == manager.task_infos@[current_task_id as int],
        r.task_id == current_task_id,
{
    manager.get_task_info(current_task_id)
}

/// Records that the current task was dispatched at `now_ms`, if it is its first time.
pub fn set_first_schedule_time(manager: &mut TaskInfoManager, current_task_id: usize, now_ms: usize)
    requires
        old(manager).wf(),
        current_task_id < MAX_APP_NUM,
        now_ms > 0,
    ensures
        final(manager).wf(),
        forall|i: int| 0 <= i < MAX_APP_NUM && i != current_task_id ==> #[trigger] final(manager).task_infos@[i] == old(manager).task_infos@[i],
        old(manager).task_infos@[current_task_id as int].first_schedule_time.is_some() ==> final(manager).task_infos@[current_task_id as int].first_schedule_time
            == old(manager).task_infos@[current_task_id as int].first_schedule_time,
        old(manager).task_infos@[current_task_id as int].first_schedule_time.is_none() ==> final(manager).task_infos@[current_task_id as int].first_schedule_time
            == Some(now_ms),
        (old(manager).task_infos@[current_task_id as int].first_schedule_time matches Some(t0) ==> t0 <= now_ms)
            ==> (final(manager).task_infos@[current_task_id as int].first_schedule_time matches Some(f) && f <= now_ms),
        final(manager).task_infos@[current_task_id as int].syscall_times@ == old(manager).task_infos@[current_task_id as int].syscall_times@,
{
    manager.set_first_schedule_time(current_task_id, now_ms);
}

/// Counts one more call of `syscall_id` by the current task.
pub fn inc_syscall_times(manager: &mut TaskInfoManager, current_task_id: usize, syscall_id: usize)
    requires
        old(manager).wf(),
        current_task_id < MAX_APP_NUM,
        syscall_id < MAX_SYSCALL_NUM,
        old(manager).task_infos@[current_task_id as int].count_of(syscall_id as u32) < u32::MAX,
    ensures
        final(manager).wf(),
        forall|i: int| 0 <= i < MAX_APP_NUM && i != current_task_id ==> #[trigger] final(manager).task_infos@[i] == old(manager).task_infos@[i],
        final(manager).task_infos@[current_task_id as int].first_schedule_time == old(manager).task_infos@[current_task_id as int].first_schedule_time,
        final(manager).task_infos@[current_task_id as int].count_of(syscall_id as u32) == old(manager).task_infos@[current_task_id as int].count_of(syscall_id as u32) + 1,
        forall|k: u32| k != syscall_id ==> #[trigger] final(manager).task_infos@[current_task_id as int].count_of(k) == old(manager).task_infos@[current_task_id as int].count_of(k),
{
    manager.inc_syscall_times(current_task_id, syscall_id);
}

} // verus!
