//! Constants of the kernel configuration.
use vstd::prelude::*;

verus! {

/// Size of a page in bytes.
pub const PAGE_SIZE: usize = 4096;

/// Number of syscall ids that are counted per task.
pub const MAX_SYSCALL_NUM: usize = 500;

/// Number of task slots of the single-program task information table.
pub const MAX_APP_NUM: usize = 16;

/// Stride scheduling: the pass of a thread is `BIG_STRIDE / priority`.
pub const BIG_STRIDE: usize = 10000;

/// Smallest priority a thread can be given.
pub const MIN_PRIORITY: usize = 2;

/// The signals a process can be sent: SIGINT (bit 2), SIGILL (bit 4),
/// SIGABRT (bit 6), SIGFPE (bit 8) and SIGSEGV (bit 11).
pub const SIGNAL_FLAGS: u32 = 0x954;

/// Returned by a lock or down request that the deadlock detector refused.
pub const DEADLOCK_ERROR: isize = -0xdead;

} // verus!
