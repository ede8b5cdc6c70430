//! Synchronization syscalls of the running thread, with the deadlock
//! detector's bookkeeping.
use vstd::prelude::*;
use crate::config::DEADLOCK_ERROR;
use crate::dead_lock::{bump, granted, safe_state, DeadLockDetect};
use crate::manager::wakeup_task;
use crate::process::{
    lemma_wf_one_changed,
    blocked, detecting, handed, mutex_detector, ready, same_but_sync, same_counts, sem_detector, retrying,
    Kernel, TimerCondVar,
};
use crate::sync::{Condvar, CondvarWaiter, Mutex, Semaphore};
use crate::task::{ResourceId, TaskStatus};

verus! {

/// mutex create syscall: appends an unlocked mutex and returns its id; with
/// detection on, the mutex class gains a resource of one unit.
pub fn sys_mutex_create(k: &mut Kernel, blocking: bool) -> (r: isize)
    requires
        old(k).running(),
        old(k).cur_proc().inner.mutex_list@.len() < isize::MAX,
        detecting(old(k).cur_proc()) ==> mutex_detector(old(k).cur_proc()).wf(),
    ensures
        old(k).wf() ==> final(k).wf(),
        ({
            let i = old(k).cur_idx();
            let p = old(k).cur_proc();
            let q = final(k).processes@[i];
            let n = p.inner.mutex_list@.len();
            &&& r == n
            &&& final(k).only_proc_changed(old(k), i)
            &&& same_but_sync(p, q)
            &&& q.inner.semaphore_list == p.inner.semaphore_list
            &&& q.inner.condvar_list == p.inner.condvar_list
            &&& q.inner.mutex_list@.len() == n + 1
            &&& q.inner.mutex_list@.take(n as int) == p.inner.mutex_list@
            &&& !q.inner.mutex_list@[n as int].locked
            &&& q.inner.mutex_list@[n as int].blocking == blocking
            &&& q.inner.mutex_list@[n as int].wait_queue@.len() == 0
            &&& detecting(q) == detecting(p)
            &&& detecting(p) ==> mutex_detector(q).added_resource(&mutex_detector(p), 1)
                && sem_detector(q) == sem_detector(p)
        }),
{
    let i = k.current_process_index();
    match &mut k.processes[i].inner.deadlock_detect {
        Some(pair) => {
            pair.0.add_resource(1);
        },
        None => {},
    }
    k.processes[i].inner.mutex_list.push(Mutex::new(blocking));
    assert(k.processes@[i as int].inner.mutex_list@.take(old(k).cur_proc().inner.mutex_list@.len() as int)
        =~= old(k).cur_proc().inner.mutex_list@);
    proof {
        if old(k).wf() {
            lemma_wf_one_changed(old(k), k, old(k).cur_idx());
        }
    }
    (k.processes[i].inner.mutex_list.len() - 1) as isize
}


/// A lock or down request of thread `tid` for resource `id` would leave the
/// state unsafe.
pub open spec fn request_unsafe(d: crate::dead_lock::DeadLockDetect, tid: int, id: int) -> bool {
    !safe_state(d.available@, d.alloc_rows(), bump(d.need_rows(), tid, id, 1))
}

/// The detector's counters leave room for thread `tid` to request and obtain
/// one unit of resource `id`, `free` telling whether it is obtained at once.
pub open spec fn room_to_acquire(d: crate::dead_lock::DeadLockDetect, tid: int, id: int, free: bool) -> bool {
    &&& d.wf()
    &&& 0 <= tid < d.threads()
    &&& 0 <= id < d.resources()
    &&& d.need_rows()[tid][id] < u32::MAX
    &&& free ==> d.alloc_rows()[tid][id] < u32::MAX && d.available@[id] > 0
}

/// mutex lock syscall. With detection on, the request is first checked:
/// if granting it could deadlock, nothing changes and `-0xdead` is returned.
/// Otherwise a free mutex is taken at once. A held blocking mutex queues the
/// caller, blocked, until an unlock hands the mutex over; a blocked caller's 0
/// is what its call returns when it runs again, and the detector records the
/// grant then (`complete_grant`). On a held spin mutex the caller yields and
/// tries again when dispatched (`mutex_retry`).
pub fn sys_mutex_lock(k: &mut Kernel, mutex_id: usize) -> (r: isize)
    requires
        old(k).running(),
        mutex_id < old(k).cur_proc().inner.mutex_list@.len(),
        detecting(old(k).cur_proc()) ==> room_to_acquire(
            mutex_detector(old(k).cur_proc()),
            old(k).cur_tid() as int,
            mutex_id as int,
            !old(k).cur_proc().inner.mutex_list@[mutex_id as int].locked,
        ),
    ensures
        old(k).wf() ==> final(k).wf(),
        ({
            let i = old(k).cur_idx();
            let p = old(k).cur_proc();
            let q = final(k).processes@[i];
            let tid = old(k).cur_tid() as int;
            let id = mutex_id as int;
            let m = p.inner.mutex_list@[id];
            let refused = detecting(p) && request_unsafe(mutex_detector(p), tid, id);
            let dm = mutex_detector(p);
            let dq = mutex_detector(q);
            let spins = !refused && m.locked && !m.blocking;
            &&& r == if refused { DEADLOCK_ERROR } else { 0 }
            &&& final(k).others_kept(old(k), i)
            &&& !spins ==> final(k).manager == old(k).manager
            &&& spins ==> final(k).manager.stop_task == old(k).manager.stop_task
                && final(k).manager.ready_queue@ == old(k).manager.ready_queue@.push(
                    retrying(old(k).cur(), mutex_id),
                )
            &&& same_but_sync(p, q)
            &&& q.inner.semaphore_list == p.inner.semaphore_list
            &&& q.inner.condvar_list == p.inner.condvar_list
            &&& detecting(q) == detecting(p)
            &&& detecting(p) ==> sem_detector(q) == sem_detector(p)
            &&& q.inner.mutex_list@.len() == p.inner.mutex_list@.len()
            &&& forall|j: int| 0 <= j < p.inner.mutex_list@.len() && j != id ==> #[trigger] q.inner.mutex_list@[j] == p.inner.mutex_list@[j]
            &&& refused ==> final(k).current == old(k).current && q.inner.mutex_list@[id] == m
                && same_counts(dq, dm)
            &&& !refused && !m.locked ==> final(k).current == old(k).current
                && q.inner.mutex_list@[id].locked
                && q.inner.mutex_list@[id].blocking == m.blocking
                && q.inner.mutex_list@[id].wait_queue == m.wait_queue
                && (detecting(p) ==> dq.wf() && dq.need_rows() == dm.need_rows()
                    && dq.alloc_rows() == bump(dm.alloc_rows(), tid, id, 1)
                    && dq.available@ == dm.available@.update(id, (dm.available@[id] - 1) as u32))
            &&& !refused && m.locked ==> final(k).current.is_none()
                && (detecting(p) ==> dq.wf() && dq.alloc_rows() == dm.alloc_rows()
                    && dq.available@ == dm.available@
                    && dq.need_rows() == bump(dm.need_rows(), tid, id, 1))
            &&& !refused && m.locked && m.blocking ==> q.inner.mutex_list@[id].locked
                && q.inner.mutex_list@[id].blocking == m.blocking
                && q.inner.mutex_list@[id].wait_queue@ == m.wait_queue@.push(blocked(old(k).cur()))
            &&& spins ==> q.inner.mutex_list@[id] == m
        }),
{
    let i = k.current_process_index();
    let tid = k.current_tid();
    let ghost p = old(k).cur_proc();
    match &mut k.processes[i].inner.deadlock_detect {
        Some(pair) => {
            pair.0.request(tid, mutex_id);
            if pair.0.detect() {
                pair.0.cancel(tid, mutex_id);
                proof {
                    assert(pair.0.need_rows() =~~= mutex_detector(p).need_rows());
                }
                proof {
                    if old(k).wf() {
                        lemma_wf_one_changed(old(k), k, old(k).cur_idx());
                    }
                }
                return DEADLOCK_ERROR;
            }
        },
        None => {},
    }
    if !k.processes[i].inner.mutex_list[mutex_id].locked {
        k.processes[i].inner.mutex_list[mutex_id].locked = true;
        match &mut k.processes[i].inner.deadlock_detect {
            Some(pair) => {
                pair.0.grant(tid, mutex_id);
                proof {
                    let d0 = mutex_detector(p);
                    let t = tid as int;
                    let id = mutex_id as int;
                    assert(bump(bump(d0.need_rows(), t, id, 1), t, id, -1) =~~= d0.need_rows());
                }
            },
            None => {},
        }
        proof {
            if old(k).wf() {
                lemma_wf_one_changed(old(k), k, old(k).cur_idx());
            }
        }
        0
    } else if k.processes[i].inner.mutex_list[mutex_id].blocking {
        let mut task = k.current.take().unwrap();
        task.inner.task_status = TaskStatus::Blocked;
        k.processes[i].inner.mutex_list[mutex_id].wait_queue.push(task);
        proof {
            if old(k).wf() {
                lemma_wf_one_changed(old(k), k, old(k).cur_idx());
            }
        }
        0
    } else {
        let mut task = k.current.take().unwrap();
        task.inner.task_status = TaskStatus::Ready;
        task.inner.pending_mutex = Some(mutex_id);
        k.manager.add(task);
        proof {
            if old(k).wf() {
                lemma_wf_one_changed(old(k), k, old(k).cur_idx());
            }
        }
        0
    }
}


/// The detector's counters leave room for thread `tid` to give back a unit of
/// resource `id` that it holds.
pub open spec fn room_to_release(d: crate::dead_lock::DeadLockDetect, tid: int, id: int) -> bool {
    &&& d.wf()
    &&& 0 <= tid < d.threads()
    &&& 0 <= id < d.resources()
    &&& d.alloc_rows()[tid][id] > 0
    &&& d.available@[id] < u32::MAX
}

/// mutex unlock syscall: the caller gives the mutex back. With detection on,
/// the detector records the release: the caller's allocation drops by one
/// and the unit is available again. For a blocking mutex the first waiter, if
/// any, is handed the mutex and made ready with a pending grant, which the
/// detector records once that thread runs again (`complete_grant`); otherwise,
/// and always for a spin mutex, the mutex is free.
pub fn sys_mutex_unlock(k: &mut Kernel, mutex_id: usize) -> (r: isize)
    requires
        old(k).running(),
        mutex_id < old(k).cur_proc().inner.mutex_list@.len(),
        old(k).cur_proc().inner.mutex_list@[mutex_id as int].locked,
        detecting(old(k).cur_proc()) ==> room_to_release(
            mutex_detector(old(k).cur_proc()),
            old(k).cur_tid() as int,
            mutex_id as int,
        ),
    ensures
        old(k).wf() ==> final(k).wf(),
        ({
            let i = old(k).cur_idx();
            let p = old(k).cur_proc();
            let q = final(k).processes@[i];
            let tid = old(k).cur_tid() as int;
            let id = mutex_id as int;
            let m = p.inner.mutex_list@[id];
            let dm = mutex_detector(p);
            let dq = mutex_detector(q);
            let released = bump(dm.alloc_rows(), tid, id, -1);
            let hands_over = m.blocking && m.wait_queue@.len() > 0;
            &&& r == 0
            &&& final(k).others_kept(old(k), i)
            &&& final(k).current == old(k).current
            &&& final(k).manager.stop_task == old(k).manager.stop_task
            &&& same_but_sync(p, q)
            &&& q.inner.semaphore_list == p.inner.semaphore_list
            &&& q.inner.condvar_list == p.inner.condvar_list
            &&& detecting(q) == detecting(p)
            &&& detecting(p) ==> sem_detector(q) == sem_detector(p)
            &&& q.inner.mutex_list@.len() == p.inner.mutex_list@.len()
            &&& forall|j: int| 0 <= j < p.inner.mutex_list@.len() && j != id ==> #[trigger] q.inner.mutex_list@[j] == p.inner.mutex_list@[j]
            &&& q.inner.mutex_list@[id].blocking == m.blocking
            &&& detecting(p) ==> dq.wf() && dq.need_rows() == dm.need_rows()
                && dq.alloc_rows() == released
                && dq.available@ == dm.available@.update(id, (dm.available@[id] + 1) as u32)
            &&& !hands_over ==> !q.inner.mutex_list@[id].locked
                && q.inner.mutex_list@[id].wait_queue == m.wait_queue
                && final(k).manager == old(k).manager
            &&& hands_over ==> q.inner.mutex_list@[id].locked
                && q.inner.mutex_list@[id].wait_queue@ == m.wait_queue@.subrange(1, m.wait_queue@.len() as int)
                && final(k).manager.ready_queue@ == old(k).manager.ready_queue@.push(
                    ready(handed(m.wait_queue@[0], ResourceId::Mutex(mutex_id))),
                )
        }),
{
    let i = k.current_process_index();
    let tid = k.current_tid();
    let ghost p = old(k).cur_proc();
    match &mut k.processes[i].inner.deadlock_detect {
        Some(pair) => {
            pair.0.release(tid, mutex_id);
        },
        None => {},
    }
    if k.processes[i].inner.mutex_list[mutex_id].blocking
        && k.processes[i].inner.mutex_list[mutex_id].wait_queue.len() > 0 {
        let mut waiter = k.processes[i].inner.mutex_list[mutex_id].wait_queue.remove(0);
        waiter.inner.pending_grant = Some(ResourceId::Mutex(mutex_id));
        wakeup_task(&mut k.manager, waiter);
    } else {
        k.processes[i].inner.mutex_list[mutex_id].locked = false;
    }
proof {
        if old(k).wf() {
            lemma_wf_one_changed(old(k), k, old(k).cur_idx());
        }
    }
        0
}


/// semaphore create syscall: appends a semaphore of `res_count` units and
/// returns its id; with detection on, the semaphore class gains a resource of
/// `res_count` units.
pub fn sys_semaphore_create(k: &mut Kernel, res_count: usize) -> (r: isize)
    requires
        old(k).running(),
        old(k).cur_proc().inner.semaphore_list@.len() < isize::MAX,
        res_count <= isize::MAX,
        detecting(old(k).cur_proc()) ==> sem_detector(old(k).cur_proc()).wf(),
    ensures
        old(k).wf() ==> final(k).wf(),
        ({
            let i = old(k).cur_idx();
            let p = old(k).cur_proc();
            let q = final(k).processes@[i];
            let n = p.inner.semaphore_list@.len();
            &&& r == n
            &&& final(k).only_proc_changed(old(k), i)
            &&& same_but_sync(p, q)
            &&& q.inner.mutex_list == p.inner.mutex_list
            &&& q.inner.condvar_list == p.inner.condvar_list
            &&& q.inner.semaphore_list@.len() == n + 1
            &&& q.inner.semaphore_list@.take(n as int) == p.inner.semaphore_list@
            &&& q.inner.semaphore_list@[n as int].count == res_count as isize
            &&& q.inner.semaphore_list@[n as int].wait_queue@.len() == 0
            &&& detecting(q) == detecting(p)
            &&& detecting(p) ==> sem_detector(q).added_resource(&sem_detector(p), res_count as u32)
                && mutex_detector(q) == mutex_detector(p)
        }),
{
    let i = k.current_process_index();
    match &mut k.processes[i].inner.deadlock_detect {
        Some(pair) => {
            let units = #[verifier::truncate] (res_count as u32);
            pair.1.add_resource(units);
        },
        None => {},
    }
    k.processes[i].inner.semaphore_list.push(Semaphore::new(res_count));
    assert(k.processes@[i as int].inner.semaphore_list@.take(old(k).cur_proc().inner.semaphore_list@.len() as int)
        =~= old(k).cur_proc().inner.semaphore_list@);
    proof {
        if old(k).wf() {
            lemma_wf_one_changed(old(k), k, old(k).cur_idx());
        }
    }
    (k.processes[i].inner.semaphore_list.len() - 1) as isize
}

/// semaphore up syscall: the caller gives a unit back. With detection on, the
/// detector records the release: the caller's allocation drops by one and
/// the unit is available again. When the count shows waiters, the first one
/// is handed the unit and made ready with a pending grant, which the detector
/// records once that thread runs again (`complete_grant`).
pub fn sys_semaphore_up(k: &mut Kernel, sem_id: usize) -> (r: isize)
    requires
        old(k).running(),
        sem_id < old(k).cur_proc().inner.semaphore_list@.len(),
        old(k).cur_proc().inner.semaphore_list@[sem_id as int].count < isize::MAX,
        detecting(old(k).cur_proc()) ==> room_to_release(
            sem_detector(old(k).cur_proc()),
            old(k).cur_tid() as int,
            sem_id as int,
        ),
    ensures
        old(k).wf() ==> final(k).wf(),
        ({
            let i = old(k).cur_idx();
            let p = old(k).cur_proc();
            let q = final(k).processes@[i];
            let tid = old(k).cur_tid() as int;
            let id = sem_id as int;
            let sem = p.inner.semaphore_list@[id];
            let ds = sem_detector(p);
            let dq = sem_detector(q);
            let released = bump(ds.alloc_rows(), tid, id, -1);
            let wakes = sem.count < 0 && sem.wait_queue@.len() > 0;
            &&& r == 0
            &&& final(k).others_kept(old(k), i)
            &&& final(k).current == old(k).current
            &&& final(k).manager.stop_task == old(k).manager.stop_task
            &&& same_but_sync(p, q)
            &&& q.inner.mutex_list == p.inner.mutex_list
            &&& q.inner.condvar_list == p.inner.condvar_list
            &&& detecting(q) == detecting(p)
            &&& detecting(p) ==> mutex_detector(q) == mutex_detector(p)
            &&& q.inner.semaphore_list@.len() == p.inner.semaphore_list@.len()
            &&& forall|j: int| 0 <= j < p.inner.semaphore_list@.len() && j != id ==> #[trigger] q.inner.semaphore_list@[j] == p.inner.semaphore_list@[j]
            &&& q.inner.semaphore_list@[id].count == sem.count + 1
            &&& detecting(p) ==> dq.wf() && dq.need_rows() == ds.need_rows()
                && dq.alloc_rows() == released
                && dq.available@ == ds.available@.update(id, (ds.available@[id] + 1) as u32)
            &&& !wakes ==> q.inner.semaphore_list@[id].wait_queue == sem.wait_queue
                && final(k).manager == old(k).manager
            &&& wakes ==> q.inner.semaphore_list@[id].wait_queue@ == sem.wait_queue@.subrange(1, sem.wait_queue@.len() as int)
                && final(k).manager.ready_queue@ == old(k).manager.ready_queue@.push(
                    ready(handed(sem.wait_queue@[0], ResourceId::Semaphore(sem_id))),
                )
        }),
{
    let i = k.current_process_index();
    let tid = k.current_tid();
    let ghost p = old(k).cur_proc();
    match &mut k.processes[i].inner.deadlock_detect {
        Some(pair) => {
            pair.1.release(tid, sem_id);
        },
        None => {},
    }
    let count = k.processes[i].inner.semaphore_list[sem_id].count + 1;
    k.processes[i].inner.semaphore_list[sem_id].count = count;
    if count <= 0 && k.processes[i].inner.semaphore_list[sem_id].wait_queue.len() > 0 {
        let mut waiter = k.processes[i].inner.semaphore_list[sem_id].wait_queue.remove(0);
        waiter.inner.pending_grant = Some(ResourceId::Semaphore(sem_id));
        wakeup_task(&mut k.manager, waiter);
    }
proof {
        if old(k).wf() {
            lemma_wf_one_changed(old(k), k, old(k).cur_idx());
        }
    }
        0
}

/// semaphore down syscall. With detection on, the request is first checked:
/// if granting it could deadlock, nothing changes and `-0xdead` is returned.
/// Otherwise the count drops by one; a unit left is taken at once, and when
/// none is left the caller queues, blocked, until an up hands it one. A
/// blocked caller's 0 is what its call returns when it runs again after an up
/// handed it a unit, and the detector records the grant then
/// (`complete_grant`).
pub fn sys_semaphore_down(k: &mut Kernel, sem_id: usize) -> (r: isize)
    requires
        old(k).running(),
        sem_id < old(k).cur_proc().inner.semaphore_list@.len(),
        old(k).cur_proc().inner.semaphore_list@[sem_id as int].count > isize::MIN,
        detecting(old(k).cur_proc()) ==> room_to_acquire(
            sem_detector(old(k).cur_proc()),
            old(k).cur_tid() as int,
            sem_id as int,
            old(k).cur_proc().inner.semaphore_list@[sem_id as int].count > 0,
        ),
    ensures
        old(k).wf() ==> final(k).wf(),
        ({
            let i = old(k).cur_idx();
            let p = old(k).cur_proc();
            let q = final(k).processes@[i];
            let tid = old(k).cur_tid() as int;
            let id = sem_id as int;
            let sem = p.inner.semaphore_list@[id];
            let refused = detecting(p) && request_unsafe(sem_detector(p), tid, id);
            let ds = sem_detector(p);
            let dq = sem_detector(q);
            &&& r == if refused { DEADLOCK_ERROR } else { 0 }
            &&& final(k).others_kept(old(k), i)
            &&& final(k).manager == old(k).manager
            &&& same_but_sync(p, q)
            &&& q.inner.mutex_list == p.inner.mutex_list
            &&& q.inner.condvar_list == p.inner.condvar_list
            &&& detecting(q) == detecting(p)
            &&& detecting(p) ==> mutex_detector(q) == mutex_detector(p)
            &&& q.inner.semaphore_list@.len() == p.inner.semaphore_list@.len()
            &&& forall|j: int| 0 <= j < p.inner.semaphore_list@.len() && j != id ==> #[trigger] q.inner.semaphore_list@[j] == p.inner.semaphore_list@[j]
            &&& refused ==> final(k).current == old(k).current && q.inner.semaphore_list@[id] == sem
                && same_counts(dq, ds)
            &&& !refused ==> q.inner.semaphore_list@[id].count == sem.count - 1
            &&& !refused && sem.count > 0 ==> final(k).current == old(k).current
                && q.inner.semaphore_list@[id].wait_queue == sem.wait_queue
                && (detecting(p) ==> dq.wf() && dq.need_rows() == ds.need_rows()
                    && dq.alloc_rows() == bump(ds.alloc_rows(), tid, id, 1)
                    && dq.available@ == ds.available@.update(id, (ds.available@[id] - 1) as u32))
            &&& !refused && sem.count <= 0 ==> final(k).current.is_none()
                && q.inner.semaphore_list@[id].wait_queue@ == sem.wait_queue@.push(blocked(old(k).cur()))
                && (detecting(p) ==> dq.wf() && dq.alloc_rows() == ds.alloc_rows()
                    && dq.available@ == ds.available@
                    && dq.need_rows() == bump(ds.need_rows(), tid, id, 1))
        }),
{
    let i = k.current_process_index();
    let tid = k.current_tid();
    let ghost p = old(k).cur_proc();
    match &mut k.processes[i].inner.deadlock_detect {
        Some(pair) => {
            pair.1.request(tid, sem_id);
            if pair.1.detect() {
                pair.1.cancel(tid, sem_id);
                proof {
                    assert(pair.1.need_rows() =~~= sem_detector(p).need_rows());
                }
                proof {
                    if old(k).wf() {
                        lemma_wf_one_changed(old(k), k, old(k).cur_idx());
                    }
                }
                return DEADLOCK_ERROR;
            }
        },
        None => {},
    }
    let count = k.processes[i].inner.semaphore_list[sem_id].count - 1;
    k.processes[i].inner.semaphore_list[sem_id].count = count;
    if count >= 0 {
        match &mut k.processes[i].inner.deadlock_detect {
            Some(pair) => {
                pair.1.grant(tid, sem_id);
                proof {
                    let d0 = sem_detector(p);
                    let t = tid as int;
                    let id = sem_id as int;
                    assert(bump(bump(d0.need_rows(), t, id, 1), t, id, -1) =~~= d0.need_rows());
                }
            },
            None => {},
        }
        proof {
            if old(k).wf() {
                lemma_wf_one_changed(old(k), k, old(k).cur_idx());
            }
        }
        0
    } else {
        let mut task = k.current.take().unwrap();
        task.inner.task_status = TaskStatus::Blocked;
        k.processes[i].inner.semaphore_list[sem_id].wait_queue.push(task);
        proof {
            if old(k).wf() {
                lemma_wf_one_changed(old(k), k, old(k).cur_idx());
            }
        }
        0
    }
}


/// `id` is the first free slot of `list`, or its length when none is free.
pub open spec fn first_free(list: Seq<Option<Condvar>>, id: int) -> bool {
    &&& 0 <= id <= list.len()
    &&& id < list.len() ==> list[id].is_none()
    &&& forall|j: int| 0 <= j < id ==> (#[trigger] list[j]).is_some()
}

/// condvar create syscall: a new condition variable goes in the first free
/// slot, or at the end when no slot is free; its id is returned.
pub fn sys_condvar_create(k: &mut Kernel) -> (r: isize)
    requires
        old(k).running(),
        old(k).cur_proc().inner.condvar_list@.len() < isize::MAX,
    ensures
        old(k).wf() ==> final(k).wf(),
        ({
            let i = old(k).cur_idx();
            let p = old(k).cur_proc();
            let q = final(k).processes@[i];
            let list = p.inner.condvar_list@;
            &&& first_free(list, r as int)
            &&& final(k).only_proc_changed(old(k), i)
            &&& same_but_sync(p, q)
            &&& q.inner.mutex_list == p.inner.mutex_list
            &&& q.inner.semaphore_list == p.inner.semaphore_list
            &&& q.inner.deadlock_detect == p.inner.deadlock_detect
            &&& q.inner.condvar_list@.len() == if r < list.len() { list.len() } else { list.len() + 1 }
            &&& forall|j: int| 0 <= j < list.len() && j != r ==> #[trigger] q.inner.condvar_list@[j] == list[j]
            &&& q.inner.condvar_list@[r as int] matches Some(c) && c.wait_queue@.len() == 0
        }),
{
    let i = k.current_process_index();
    let n = k.processes[i].inner.condvar_list.len();
    let mut id: usize = 0;
    while id < n
        invariant
            i == old(k).cur_idx(),
            i < old(k).processes@.len(),
            *k == *old(k),
            n == old(k).cur_proc().inner.condvar_list@.len(),
            id <= n,
            forall|j: int| 0 <= j < id ==> (#[trigger] old(k).cur_proc().inner.condvar_list@[j]).is_some(),
        ensures
            *k == *old(k),
            id <= n,
            forall|j: int| 0 <= j < id ==> (#[trigger] old(k).cur_proc().inner.condvar_list@[j]).is_some(),
            id < n ==> old(k).cur_proc().inner.condvar_list@[id as int].is_none(),
        decreases n - id,
    {
        if k.processes[i].inner.condvar_list[id].is_none() {
            break;
        }
        id = id + 1;
    }
    if id < n {
        k.processes[i].inner.condvar_list.set(id, Some(Condvar::new()));
    } else {
        k.processes[i].inner.condvar_list.push(Some(Condvar::new()));
    }
    proof {
        if old(k).wf() {
            lemma_wf_one_changed(old(k), k, old(k).cur_idx());
        }
    }
    id as isize
}

/// condvar signal syscall: the first waiter, if any, leaves the queue and is
/// woken: it becomes ready, joins the ready queue and, once dispatched, takes
/// its mutex again (`mutex_retry`) before its wait returns. With detection
/// on, that re-acquire is recorded as a pending request of the waiter. The
/// detector description names no hook on the condition-variable path; the
/// request keeps the counters exact for the mutex taken again.
pub fn sys_condvar_signal(k: &mut Kernel, condvar_id: usize) -> (r: isize)
    requires
        old(k).running(),
        condvar_id < old(k).cur_proc().inner.condvar_list@.len(),
        old(k).cur_proc().inner.condvar_list@[condvar_id as int] is Some,
        forall|w: int|
            0 <= w < old(k).cur_proc().inner.condvar_list@[condvar_id as int].unwrap().wait_queue@.len()
                ==> {
                let cw = #[trigger] old(k).cur_proc().inner.condvar_list@[condvar_id as int].unwrap().wait_queue@[w];
                &&& cw.mutex_id < old(k).cur_proc().inner.mutex_list@.len()
                &&& cw.task.tid().is_some()
            },
        ({
            let cq = old(k).cur_proc().inner.condvar_list@[condvar_id as int].unwrap().wait_queue@;
            let d = mutex_detector(old(k).cur_proc());
            detecting(old(k).cur_proc()) && cq.len() > 0 ==> {
                let wt = cq[0].task.tid().unwrap() as int;
                &&& d.wf()
                &&& wt < d.threads()
                &&& cq[0].mutex_id < d.resources()
                &&& d.need_rows()[wt][cq[0].mutex_id as int] < u32::MAX
            }
        }),
    ensures
        old(k).wf() ==> final(k).wf(),
        ({
            let i = old(k).cur_idx();
            let p = old(k).cur_proc();
            let q = final(k).processes@[i];
            let cq = p.inner.condvar_list@[condvar_id as int].unwrap().wait_queue@;
            let dm = mutex_detector(p);
            let dq = mutex_detector(q);
            &&& r == 0
            &&& final(k).others_kept(old(k), i)
            &&& final(k).current == old(k).current
            &&& final(k).manager.stop_task == old(k).manager.stop_task
            &&& same_but_sync(p, q)
            &&& q.inner.semaphore_list == p.inner.semaphore_list
            &&& q.inner.mutex_list == p.inner.mutex_list
            &&& detecting(q) == detecting(p)
            &&& q.inner.condvar_list@.len() == p.inner.condvar_list@.len()
            &&& forall|j: int| 0 <= j < p.inner.condvar_list@.len() && j != condvar_id ==> #[trigger] q.inner.condvar_list@[j] == p.inner.condvar_list@[j]
            &&& cq.len() == 0 ==> q.inner.condvar_list@ == p.inner.condvar_list@
                && final(k).manager == old(k).manager
                && q.inner.deadlock_detect == p.inner.deadlock_detect
            &&& cq.len() > 0 ==> {
                let w = cq[0];
                &&& q.inner.condvar_list@[condvar_id as int] matches Some(c) && c.wait_queue@ == cq.subrange(1, cq.len() as int)
                &&& final(k).manager.ready_queue@ == old(k).manager.ready_queue@.push(retrying(w.task, w.mutex_id))
                &&& detecting(p) ==> sem_detector(q) == sem_detector(p) && dq.wf()
                    && dq.available@ == dm.available@ && dq.alloc_rows() == dm.alloc_rows()
                    && dq.need_rows() == bump(dm.need_rows(), w.task.tid().unwrap() as int, w.mutex_id as int, 1)
            }
        }),
{
    let i = k.current_process_index();
    let mut waiter: Option<CondvarWaiter> = None;
    match &mut k.processes[i].inner.condvar_list[condvar_id] {
        Some(cv) => {
            if cv.wait_queue.len() > 0 {
                waiter = Some(cv.wait_queue.remove(0));
            }
        },
        None => {},
    }
    match waiter {
        Some(w) => {
            let mid = w.mutex_id;
            let mut t = w.task;
            let wtid = t.inner.res.as_ref().unwrap().tid;
            match &mut k.processes[i].inner.deadlock_detect {
                Some(pair) => {
                    pair.0.request(wtid, mid);
                },
                None => {},
            }
            t.inner.task_status = TaskStatus::Ready;
            t.inner.pending_mutex = Some(mid);
            k.manager.add(t);
        },
        None => {},
    }
proof {
        if old(k).wf() {
            lemma_wf_one_changed(old(k), k, old(k).cur_idx());
        }
    }
        0
}

/// condvar wait syscall: the caller gives mutex `mutex_id` back, exactly as
/// `sys_mutex_unlock` does, then queues, blocked, on the condition variable
/// until a signal. The detector hooks of the unlock apply here too: with
/// detection on, the release is recorded, so that the mutex taken again
/// after the signal (`mutex_retry`) is accounted for as well. The detector
/// description names no hook on the condition-variable path; this keeps its
/// counters exact for a mutex that passes through a wait.
pub fn sys_condvar_wait(k: &mut Kernel, condvar_id: usize, mutex_id: usize) -> (r: isize)
    requires
        old(k).running(),
        condvar_id < old(k).cur_proc().inner.condvar_list@.len(),
        old(k).cur_proc().inner.condvar_list@[condvar_id as int] is Some,
        mutex_id < old(k).cur_proc().inner.mutex_list@.len(),
        old(k).cur_proc().inner.mutex_list@[mutex_id as int].locked,
        detecting(old(k).cur_proc()) ==> room_to_release(
            mutex_detector(old(k).cur_proc()),
            old(k).cur_tid() as int,
            mutex_id as int,
        ),
    ensures
        old(k).wf() ==> final(k).wf(),
        ({
            let i = old(k).cur_idx();
            let p = old(k).cur_proc();
            let q = final(k).processes@[i];
            let tid = old(k).cur_tid() as int;
            let id = mutex_id as int;
            let m = p.inner.mutex_list@[id];
            let dm = mutex_detector(p);
            let dq = mutex_detector(q);
            let released = bump(dm.alloc_rows(), tid, id, -1);
            let hands_over = m.blocking && m.wait_queue@.len() > 0;
            &&& r == 0
            &&& final(k).current.is_none()
            &&& q.inner.condvar_list@.len() == p.inner.condvar_list@.len()
            &&& forall|j: int| 0 <= j < p.inner.condvar_list@.len() && j != condvar_id ==> #[trigger] q.inner.condvar_list@[j] == p.inner.condvar_list@[j]
            &&& q.inner.condvar_list@[condvar_id as int] matches Some(c) && c.wait_queue@ == p.inner.condvar_list@[condvar_id as int].unwrap().wait_queue@.push(
                CondvarWaiter { task: blocked(old(k).cur()), mutex_id },
            )
            &&& final(k).others_kept(old(k), i)
            &&& final(k).manager.stop_task == old(k).manager.stop_task
            &&& same_but_sync(p, q)
            &&& q.inner.semaphore_list == p.inner.semaphore_list
            &&& detecting(q) == detecting(p)
            &&& detecting(p) ==> sem_detector(q) == sem_detector(p)
            &&& q.inner.mutex_list@.len() == p.inner.mutex_list@.len()
            &&& forall|j: int| 0 <= j < p.inner.mutex_list@.len() && j != id ==> #[trigger] q.inner.mutex_list@[j] == p.inner.mutex_list@[j]
            &&& q.inner.mutex_list@[id].blocking == m.blocking
            &&& detecting(p) ==> dq.wf() && dq.need_rows() == dm.need_rows()
                && dq.alloc_rows() == released
                && dq.available@ == dm.available@.update(id, (dm.available@[id] + 1) as u32)
            &&& !hands_over ==> !q.inner.mutex_list@[id].locked
                && q.inner.mutex_list@[id].wait_queue == m.wait_queue
                && final(k).manager == old(k).manager
            &&& hands_over ==> q.inner.mutex_list@[id].locked
                && q.inner.mutex_list@[id].wait_queue@ == m.wait_queue@.subrange(1, m.wait_queue@.len() as int)
                && final(k).manager.ready_queue@ == old(k).manager.ready_queue@.push(
                    ready(handed(m.wait_queue@[0], ResourceId::Mutex(mutex_id))),
                )
        }),
{
    let i = k.current_process_index();
    sys_mutex_unlock(k, mutex_id);
    let mut task = k.current.take().unwrap();
    task.inner.task_status = TaskStatus::Blocked;
    match &mut k.processes[i].inner.condvar_list[condvar_id] {
        Some(cv) => {
            cv.wait_queue.push(CondvarWaiter { task, mutex_id });
        },
        None => {},
    }
proof {
        if old(k).wf() {
            lemma_wf_one_changed(old(k), k, old(k).cur_idx());
        }
    }
        0
}

/// enable deadlock detect syscall: 1 turns detection on with empty detectors
/// for every thread slot of the process, 0 turns it off. Refused with -1 for
/// any other value, or once the process has a mutex or a semaphore.
pub fn sys_enable_deadlock_detect(k: &mut Kernel, enabled: usize) -> (r: isize)
    requires
        old(k).running(),
        old(k).cur_proc().inner.tasks@.len() <= u32::MAX,
    ensures
        old(k).wf() ==> final(k).wf(),
        ({
            let i = old(k).cur_idx();
            let p = old(k).cur_proc();
            let q = final(k).processes@[i];
            let refused = enabled > 1 || p.inner.mutex_list@.len() > 0
                || p.inner.semaphore_list@.len() > 0;
            &&& r == if refused { -1isize } else { 0isize }
            &&& refused ==> *final(k) == *old(k)
            &&& !refused ==> final(k).only_proc_changed(old(k), i)
                && same_but_sync(p, q)
                && q.inner.mutex_list == p.inner.mutex_list
                && q.inner.semaphore_list == p.inner.semaphore_list
                && q.inner.condvar_list == p.inner.condvar_list
                && detecting(q) == (enabled == 1)
                && (enabled == 1 ==> mutex_detector(q).wf() && sem_detector(q).wf()
                    && mutex_detector(q).threads() == p.inner.tasks@.len()
                    && sem_detector(q).threads() == p.inner.tasks@.len()
                    && mutex_detector(q).resources() == 0
                    && sem_detector(q).resources() == 0)
        }),
{
    if enabled > 1 {
        return -1;
    }
    let i = k.current_process_index();
    if k.processes[i].inner.mutex_list.len() > 0 || k.processes[i].inner.semaphore_list.len() > 0 {
        return -1;
    }
    let threads = k.processes[i].inner.tasks.len() as u32;
    if enabled == 1 {
        k.processes[i].inner.deadlock_detect = Some((DeadLockDetect::new(threads), DeadLockDetect::new(threads)));
    } else {
        k.processes[i].inner.deadlock_detect = None;
    }
    proof {
        if old(k).wf() {
            lemma_wf_one_changed(old(k), k, old(k).cur_idx());
        }
    }
    0
}

/// sleep syscall: the caller, blocked, sleeps until `now_ms + ms`.
pub fn sys_sleep(k: &mut Kernel, ms: usize, now_ms: usize) -> (r: isize)
    requires
        old(k).current.is_some(),
        now_ms + ms <= usize::MAX,
    ensures
        old(k).wf() ==> final(k).wf(),
        r == 0,
        final(k).processes == old(k).processes,
        final(k).manager == old(k).manager,
        final(k).current.is_none(),
        final(k).timers@ == old(k).timers@.push(
            TimerCondVar { expire_ms: (now_ms + ms) as usize, task: blocked(old(k).cur()) },
        ),
        final(k).next_pid == old(k).next_pid,
        final(k).next_kstack == old(k).next_kstack,
{
    let expire_ms = now_ms + ms;
    let mut task = k.current.take().unwrap();
    task.inner.task_status = TaskStatus::Blocked;
    k.timers.push(TimerCondVar { expire_ms, task });
    0
}


/// The running thread has a pending acquire of mutex `pending_mutex` (it
/// yielded on a held spin mutex, or a signal woke it from a condition
/// variable) and tries it now. A free mutex is taken (with detection on, the
/// pending request is granted): the thread goes on running and true is
/// returned. A held spin mutex makes the thread yield again; on a held
/// blocking mutex it queues, blocked, until an unlock hands the mutex over
/// with its grant pending (`complete_grant`).
pub fn mutex_retry(k: &mut Kernel) -> (r: bool)
    requires
        old(k).running(),
        old(k).cur().inner.pending_mutex matches Some(id) && id < old(k).cur_proc().inner.mutex_list@.len(),
        detecting(old(k).cur_proc()) ==> {
            let d = mutex_detector(old(k).cur_proc());
            let tid = old(k).cur_tid() as int;
            let id = old(k).cur().inner.pending_mutex.unwrap() as int;
            &&& room_to_acquire(d, tid, id, !old(k).cur_proc().inner.mutex_list@[id].locked)
            &&& d.need_rows()[tid][id] > 0
        },
    ensures
        old(k).wf() ==> final(k).wf(),
        ({
            let i = old(k).cur_idx();
            let p = old(k).cur_proc();
            let q = final(k).processes@[i];
            let tid = old(k).cur_tid() as int;
            let id = old(k).cur().inner.pending_mutex.unwrap() as int;
            let m = p.inner.mutex_list@[id];
            let dm = mutex_detector(p);
            let dq = mutex_detector(q);
            &&& r == !m.locked
            &&& final(k).others_kept(old(k), i)
            &&& !r && !m.blocking ==> final(k).processes == old(k).processes && final(k).current.is_none()
                && final(k).manager.stop_task == old(k).manager.stop_task
                && final(k).manager.ready_queue@ == old(k).manager.ready_queue@.push(
                    retrying(old(k).cur(), id as usize),
                )
            &&& !r && m.blocking ==> final(k).current.is_none()
                && final(k).manager == old(k).manager
                && same_but_sync(p, q)
                && q.inner.semaphore_list == p.inner.semaphore_list
                && q.inner.condvar_list == p.inner.condvar_list
                && q.inner.deadlock_detect == p.inner.deadlock_detect
                && q.inner.mutex_list@.len() == p.inner.mutex_list@.len()
                && (forall|j: int| 0 <= j < p.inner.mutex_list@.len() && j != id ==> #[trigger] q.inner.mutex_list@[j] == p.inner.mutex_list@[j])
                && q.inner.mutex_list@[id].locked
                && q.inner.mutex_list@[id].blocking == m.blocking
                && q.inner.mutex_list@[id].wait_queue@ == m.wait_queue@.push(
                    crate::task::TaskControlBlock {
                        inner: crate::task::TaskControlBlockInner {
                            task_status: TaskStatus::Blocked,
                            pending_mutex: None,
                            ..old(k).cur().inner
                        },
                        ..old(k).cur()
                    },
                )
            &&& r ==> final(k).manager == old(k).manager
                && final(k).current == Some(
                    crate::task::TaskControlBlock {
                        inner: crate::task::TaskControlBlockInner {
                            pending_mutex: None,
                            ..old(k).cur().inner
                        },
                        ..old(k).cur()
                    },
                )
                && same_but_sync(p, q)
                && q.inner.semaphore_list == p.inner.semaphore_list
                && q.inner.condvar_list == p.inner.condvar_list
                && detecting(q) == detecting(p)
                && (detecting(p) ==> sem_detector(q) == sem_detector(p))
                && q.inner.mutex_list@.len() == p.inner.mutex_list@.len()
                && (forall|j: int| 0 <= j < p.inner.mutex_list@.len() && j != id ==> #[trigger] q.inner.mutex_list@[j] == p.inner.mutex_list@[j])
                && q.inner.mutex_list@[id].locked
                && q.inner.mutex_list@[id].blocking == m.blocking
                && q.inner.mutex_list@[id].wait_queue == m.wait_queue
                && (detecting(p) ==> dq.wf() && dq.need_rows() == bump(dm.need_rows(), tid, id, -1)
                    && dq.alloc_rows() == bump(dm.alloc_rows(), tid, id, 1)
                    && dq.available@ == dm.available@.update(id, (dm.available@[id] - 1) as u32))
        }),
{
    let i = k.current_process_index();
    let tid = k.current_tid();
    let mutex_id = k.current.as_ref().unwrap().inner.pending_mutex.unwrap();
    if k.processes[i].inner.mutex_list[mutex_id].locked {
        let mut task = k.current.take().unwrap();
        if k.processes[i].inner.mutex_list[mutex_id].blocking {
            task.inner.task_status = TaskStatus::Blocked;
            task.inner.pending_mutex = None;
            k.processes[i].inner.mutex_list[mutex_id].wait_queue.push(task);
        } else {
            task.inner.task_status = TaskStatus::Ready;
            k.manager.add(task);
        }
        proof {
            if old(k).wf() {
                lemma_wf_one_changed(old(k), k, old(k).cur_idx());
            }
        }
        return false;
    }
    k.processes[i].inner.mutex_list[mutex_id].locked = true;
    match &mut k.processes[i].inner.deadlock_detect {
        Some(pair) => {
            pair.0.grant(tid, mutex_id);
        },
        None => {},
    }
    match &mut k.current {
        Some(t) => {
            t.inner.pending_mutex = None;
        },
        None => {},
    }
    proof {
        if old(k).wf() {
            lemma_wf_one_changed(old(k), k, old(k).cur_idx());
        }
    }
    true
}


/// The running thread was handed a unit of `pending_grant` while it was
/// blocked (by an unlock or an up), and its blocking call now returns: with
/// detection on, the detector records the acquisition (its need drops by
/// one, its allocation rises by one, the unit is no longer available).
pub fn complete_grant(k: &mut Kernel)
    requires
        old(k).running(),
        old(k).cur().inner.pending_grant is Some,
        detecting(old(k).cur_proc()) ==> {
            let tid = old(k).cur_tid() as int;
            let (d, id) = match old(k).cur().inner.pending_grant.unwrap() {
                ResourceId::Mutex(id) => (mutex_detector(old(k).cur_proc()), id as int),
                ResourceId::Semaphore(id) => (sem_detector(old(k).cur_proc()), id as int),
            };
            &&& room_to_acquire(d, tid, id, true)
            &&& d.need_rows()[tid][id] > 0
        },
    ensures
        old(k).wf() ==> final(k).wf(),
        ({
            let i = old(k).cur_idx();
            let p = old(k).cur_proc();
            let q = final(k).processes@[i];
            let tid = old(k).cur_tid() as int;
            &&& final(k).others_kept(old(k), i)
            &&& final(k).manager == old(k).manager
            &&& final(k).current == Some(
                crate::task::TaskControlBlock {
                    inner: crate::task::TaskControlBlockInner { pending_grant: None, ..old(k).cur().inner },
                    ..old(k).cur()
                },
            )
            &&& same_but_sync(p, q)
            &&& q.inner.mutex_list == p.inner.mutex_list
            &&& q.inner.semaphore_list == p.inner.semaphore_list
            &&& q.inner.condvar_list == p.inner.condvar_list
            &&& detecting(q) == detecting(p)
            &&& !detecting(p) ==> q.inner.deadlock_detect == p.inner.deadlock_detect
            &&& detecting(p) ==> match old(k).cur().inner.pending_grant.unwrap() {
                ResourceId::Mutex(id) => granted(mutex_detector(p), mutex_detector(q), tid, id as int)
                    && sem_detector(q) == sem_detector(p),
                ResourceId::Semaphore(id) => granted(sem_detector(p), sem_detector(q), tid, id as int)
                    && mutex_detector(q) == mutex_detector(p),
            }
        }),
{
    let i = k.current_process_index();
    let tid = k.current_tid();
    let r = k.current.as_ref().unwrap().inner.pending_grant.unwrap();
    match &mut k.processes[i].inner.deadlock_detect {
        Some(pair) => {
            match r {
                ResourceId::Mutex(id) => pair.0.grant(tid, id),
                ResourceId::Semaphore(id) => pair.1.grant(tid, id),
            }
        },
        None => {},
    }
    match &mut k.current {
        Some(t) => {
            t.inner.pending_grant = None;
        },
        None => {},
    }
    proof {
        if old(k).wf() {
            lemma_wf_one_changed(old(k), k, old(k).cur_idx());
        }
    }
}

} // verus!
