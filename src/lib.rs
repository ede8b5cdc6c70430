//! Core task subsystem of a small multiprogrammed kernel, as explicit state
//! with verified operations:
//!
//! - `task`, `info`: thread control blocks and per-task accounting;
//! - `manager`: the stride scheduler's ready queue;
//! - `mm`, `mmap`: address spaces at page granularity, page-straddling copies
//!   to and from user memory, and `mmap` / `munmap`;
//! - `sync`, `dead_lock`: mutexes, semaphores, condition variables and the
//!   Banker-style deadlock detector;
//! - `process`: processes and the kernel state that ties them to threads;
//! - `syscall_process`, `syscall_sync`: the syscalls of the running thread;
//! - `abi`: byte layouts of the records written to user memory;
//! - `mail`: a message ring.
pub mod abi;
pub mod config;
pub mod dead_lock;
pub mod info;
pub mod mail;
pub mod manager;
pub mod mm;
pub mod mmap;
pub mod process;
pub mod sync;
pub mod syscall_process;
pub mod syscall_sync;
pub mod task;
