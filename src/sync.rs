//! Synchronization objects: mutexes, counting semaphores and condition
//! variables, each with a FIFO queue of the threads waiting on it.
use vstd::prelude::*;
use crate::task::TaskControlBlock;

verus! {

/// A mutex. A thread that finds it locked waits in its queue; unlocking hands
/// the lock to the first waiter. A spin mutex is modelled the same way: in a
/// cooperative single-core kernel its spinner only observes the flag after it
/// is dispatched again.
pub struct Mutex {
    /// Whether waiters block (true) or spin with yields (false)
    pub blocking: bool,
    /// Held by some thread
    pub locked: bool,
    /// Threads waiting for the lock, first in first out
    pub wait_queue: Vec<TaskControlBlock>,
}

impl Mutex {
    /// An unlocked mutex with no waiter.
    pub fn new(blocking: bool) -> (r: Self)
        ensures
            r.blocking == blocking,
            !r.locked,
            r.wait_queue@ == Seq::<TaskControlBlock>::empty(),
    {
        Mutex { blocking, locked: false, wait_queue: Vec::new() }
    }
}

/// A counting semaphore; a negative count is minus the number of waiters.
pub struct Semaphore {
    /// Units left
    pub count: isize,
    /// Threads waiting for a unit, first in first out
    pub wait_queue: Vec<TaskControlBlock>,
}

impl Semaphore {
    /// A semaphore with `res_count` units and no waiter.
    pub fn new(res_count: usize) -> (r: Self)
        requires
            res_count <= isize::MAX,
        ensures
            r.count == res_count as isize,
            r.wait_queue@ == Seq::<TaskControlBlock>::empty(),
    {
        Semaphore { count: res_count as isize, wait_queue: Vec::new() }
    }
}

/// A thread waiting on a condition variable, with the mutex it gave up.
pub struct CondvarWaiter {
    /// The waiting thread
    pub task: TaskControlBlock,
    /// The mutex to take again once signalled
    pub mutex_id: usize,
}

/// A condition variable.
pub struct Condvar {
    /// Waiting threads, first in first out
    pub wait_queue: Vec<CondvarWaiter>,
}

impl Condvar {
    /// A condition variable with no waiter.
    pub fn new() -> (r: Self)
        ensures
            r.wait_queue@ == Seq::<CondvarWaiter>::empty(),
    {
        Condvar { wait_queue: Vec::new() }
    }
}

} // verus!
