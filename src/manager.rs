//! The stride scheduler's ready queue.
use vstd::prelude::*;
use crate::task::{TaskControlBlock, TaskStatus};

verus! {

/// `b` is `a` after one dispatch: its stride advanced by its pass.
pub open spec fn advanced(a: TaskControlBlock, b: TaskControlBlock) -> bool {
    b == (TaskControlBlock {
        inner: crate::task::TaskControlBlockInner {
            stride: (a.inner.stride + a.inner.pass) as usize,
            ..a.inner
        },
        ..a
    })
}

/// `a` and `b` are the same thread: same process, same thread id.
pub open spec fn same_task(a: TaskControlBlock, b: TaskControlBlock) -> bool {
    a.pid == b.pid && a.tid() == b.tid()
}

/// Holds of the threads other than `task`.
pub open spec fn other_than(task: TaskControlBlock) -> spec_fn(TaskControlBlock) -> bool {
    |t: TaskControlBlock| !same_task(t, task)
}

/// Position `idx` holds the first thread of smallest stride in `q`.
pub open spec fn is_first_min(q: Seq<TaskControlBlock>, idx: int) -> bool {
    &&& 0 <= idx < q.len()
    &&& forall|k: int| 0 <= k < q.len() ==> q[idx].inner.stride <= #[trigger] q[k].inner.stride
    &&& forall|k: int| 0 <= k < idx ==> q[idx].inner.stride < #[trigger] q[k].inner.stride
}

/// The ready queue of the stride scheduler, and the last exited thread whose
/// kernel stack may still be in use.
pub struct TaskManager {
    /// Threads ready to run
    pub ready_queue: Vec<TaskControlBlock>,
    /// The last stopping thread
    pub stop_task: Option<TaskControlBlock>,
}

impl TaskManager {
    /// Every queued stride can still advance by its pass.
    pub open spec fn strides_bounded(&self) -> bool {
        forall|k: int|
            0 <= k < self.ready_queue@.len() ==> (#[trigger] self.ready_queue@[k]).inner.stride
                + self.ready_queue@[k].inner.pass <= usize::MAX
    }

    /// An empty ready queue.
    pub fn new() -> (r: Self)
        ensures
            r.ready_queue@ == Seq::<TaskControlBlock>::empty(),
            r.stop_task.is_none(),
    {
        TaskManager { ready_queue: Vec::new(), stop_task: None }
    }

    /// Puts a thread in the ready queue at its current stride.
    pub fn add(&mut self, task: TaskControlBlock)
        ensures
            final(self).ready_queue@ == old(self).ready_queue@.push(task),
            final(self).stop_task == old(self).stop_task,
    {
        self.ready_queue.push(task);
    }

    /// Takes out the thread of smallest stride (the first one among equals)
    /// and advances its stride by its pass.
    pub fn fetch(&mut self) -> (r: Option<TaskControlBlock>)
        requires
            old(self).strides_bounded(),
        ensures
            final(self).stop_task == old(self).stop_task,
            r.is_none() <==> old(self).ready_queue@.len() == 0,
            r.is_none() ==> final(self).ready_queue@ == old(self).ready_queue@,
            r matches Some(t) ==> exists|idx: int|
                is_first_min(old(self).ready_queue@, idx) && advanced(
                    old(self).ready_queue@[idx],
                    t,
                ) && final(self).ready_queue@ == old(self).ready_queue@.remove(idx),
    {
        let n = self.ready_queue.len();
        if n == 0 {
            return None;
        }
        let mut best: usize = 0;
        let mut i: usize = 1;
        while i < n
            invariant
                n == self.ready_queue@.len(),
                self.ready_queue@ == old(self).ready_queue@,
                0 <= best < i <= n,
                forall|k: int|
                    0 <= k < i ==> self.ready_queue@[best as int].inner.stride
                        <= #[trigger] self.ready_queue@[k].inner.stride,
                forall|k: int|
                    0 <= k < best ==> self.ready_queue@[best as int].inner.stride
                        < #[trigger] self.ready_queue@[k].inner.stride,
            decreases n - i,
        {
            if self.ready_queue[i].inner.stride < self.ready_queue[best].inner.stride {
                best = i;
            }
            i = i + 1;
        }
        let mut task = self.ready_queue.remove(best);
        task.inner.stride = task.inner.stride + task.inner.pass;
        assert(is_first_min(old(self).ready_queue@, best as int));
        Some(task)
    }

    /// Drops `task` from the ready queue (every entry of the same thread).
    pub fn remove(&mut self, task: &TaskControlBlock)
        ensures
            final(self).ready_queue@ == old(self).ready_queue@.filter(other_than(*task)),
            final(self).stop_task == old(self).stop_task,
    {
        let mut kept: Vec<TaskControlBlock> = Vec::new();
        let mut rest: Vec<TaskControlBlock> = Vec::new();
        std::mem::swap(&mut rest, &mut self.ready_queue);
        let ghost all = rest@;
        let n = rest.len();
        let mut i: usize = 0;
        while i < n
            invariant
                n == all.len(),
                i <= n,
                rest@ == all.subrange(i as int, n as int),
                kept@ == all.take(i as int).filter(other_than(*task)),
                self.stop_task == old(self).stop_task,
                all == old(self).ready_queue@,
            decreases n - i,
        {
            let t = rest.remove(0);
            proof {
                assert(t == all[i as int]);
                assert(rest@ =~= all.subrange(i + 1, n as int));
                assert(all.take(i + 1) =~= all.take(i as int).push(t));
                all.take(i as int).lemma_filter_push(t, other_than(*task));
            }
            let same = t.pid == task.pid && match (&t.inner.res, &task.inner.res) {
                (Some(a), Some(b)) => a.tid == b.tid,
                (None, None) => true,
                _ => false,
            };
            assert(same == same_task(t, *task));
            if !same {
                kept.push(t);
            }
            i = i + 1;
        }
        assert(all.take(n as int) =~= all);
        self.ready_queue = kept;
    }

    /// Keeps `task` until its kernel stack is no longer in use, replacing the
    /// previous one.
    pub fn add_stop(&mut self, task: TaskControlBlock)
        ensures
            final(self).ready_queue@ == old(self).ready_queue@,
            final(self).stop_task == Some(task),
    {
        self.stop_task = Some(task);
    }
}

/// Adds a thread to the ready queue.
pub fn add_task(manager: &mut TaskManager, task: TaskControlBlock)
    ensures
        final(manager).ready_queue@ == old(manager).ready_queue@.push(task),
        final(manager).stop_task == old(manager).stop_task,
{
    manager.add(task);
}

/// Marks a thread ready and adds it to the ready queue.
pub fn wakeup_task(manager: &mut TaskManager, task: TaskControlBlock)
    ensures
        final(manager).stop_task == old(manager).stop_task,
        final(manager).ready_queue@ == old(manager).ready_queue@.push(
            TaskControlBlock {
                inner: crate::task::TaskControlBlockInner {
                    task_status: TaskStatus::Ready,
                    ..task.inner
                },
                ..task
            },
        ),
{
    let mut task = task;
    task.inner.task_status = TaskStatus::Ready;
    manager.add(task);
}

/// Removes a thread from the ready queue.
pub fn remove_task(manager: &mut TaskManager, task: &TaskControlBlock)
    ensures
        final(manager).ready_queue@ == old(manager).ready_queue@.filter(other_than(*task)),
        final(manager).stop_task == old(manager).stop_task,
{
    manager.remove(task);
}

/// Takes the next thread to run out of the ready queue.
pub fn fetch_task(manager: &mut TaskManager) -> (r: Option<TaskControlBlock>)
    requires
        old(manager).strides_bounded(),
    ensures
        final(manager).stop_task == old(manager).stop_task,
        r.is_none() <==> old(manager).ready_queue@.len() == 0,
        r.is_none() ==> final(manager).ready_queue@ == old(manager).ready_queue@,
        r matches Some(t) ==> exists|idx: int|
            is_first_min(old(manager).ready_queue@, idx) && advanced(
                old(manager).ready_queue@[idx],
                t,
            ) && final(manager).ready_queue@ == old(manager).ready_queue@.remove(idx),
{
    manager.fetch()
}

/// Keeps an exited thread until its kernel stack is out of use.
pub fn add_stopping_task(manager: &mut TaskManager, task: TaskControlBlock)
    ensures
        final(manager).ready_queue@ == old(manager).ready_queue@,
        final(manager).stop_task == Some(task),
{
    manager.add_stop(task);
}


/// No two strides of `q` differ by more than `bound`.
pub open spec fn strides_within(q: Seq<TaskControlBlock>, bound: int) -> bool {
    forall|i: int, j: int|
        0 <= i < q.len() && 0 <= j < q.len() ==> #[trigger] q[i].inner.stride - #[trigger] q[j].inner.stride
            <= bound
}

/// Every pass of `q` is at most `bound`.
pub open spec fn passes_at_most(q: Seq<TaskControlBlock>, bound: int) -> bool {
    forall|i: int| 0 <= i < q.len() ==> #[trigger] q[i].inner.pass <= bound
}

/// Stride progress: dispatching the thread of smallest stride and putting it
/// back keeps every two strides within the largest pass of each other. As a
/// thread's stride grows by its pass at each dispatch, the numbers of
/// dispatches of two threads then stay in the inverse ratio of their passes,
/// that is in the ratio of their priorities, up to a constant.
pub proof fn lemma_stride_gap_kept(q: Seq<TaskControlBlock>, idx: int, t: TaskControlBlock, bound: int)
    requires
        strides_within(q, bound),
        passes_at_most(q, bound),
        is_first_min(q, idx),
        advanced(q[idx], t),
        q[idx].inner.stride + q[idx].inner.pass <= usize::MAX,
    ensures
        strides_within(q.remove(idx).push(t), bound),
        passes_at_most(q.remove(idx).push(t), bound),
{
    let r = q.remove(idx).push(t);
    assert forall|i: int| 0 <= i < r.len() implies #[trigger] r[i] == t || exists|k: int| 0 <= k < q.len() && q[k] == r[i] by {
        if i < r.len() - 1 {
            if i < idx {
                assert(q[i] == r[i]);
            } else {
                assert(q[i + 1] == r[i]);
            }
        }
    }
    assert forall|i: int, j: int| 0 <= i < r.len() && 0 <= j < r.len() implies #[trigger] r[i].inner.stride - #[trigger] r[j].inner.stride
        <= bound by {
        if r[i] != t {
            let a = choose|k: int| 0 <= k < q.len() && q[k] == r[i];
            if r[j] != t {
                let b = choose|k: int| 0 <= k < q.len() && q[k] == r[j];
                assert(q[a].inner.stride - q[b].inner.stride <= bound);
            } else {
                assert(q[a].inner.stride - q[idx].inner.stride <= bound);
            }
        } else if r[j] != t {
            let b = choose|k: int| 0 <= k < q.len() && q[k] == r[j];
            assert(q[idx].inner.stride <= q[b].inner.stride);
            assert(q[idx].inner.pass <= bound);
        } else {
            assert(q[idx].inner.stride - q[idx].inner.stride <= bound);
        }
    }
    assert forall|i: int| 0 <= i < r.len() implies #[trigger] r[i].inner.pass <= bound by {
        if r[i] != t {
            let a = choose|k: int| 0 <= k < q.len() && q[k] == r[i];
            assert(q[a].inner.pass <= bound);
        } else {
            assert(q[idx].inner.pass <= bound);
        }
    }
}

} // verus!
