//! Byte layouts of the records that syscalls write to user memory.
use vstd::prelude::*;
use crate::config::MAX_SYSCALL_NUM;
use crate::task::TaskStatus;

verus! {

/// The `n` little-endian bytes of `v` (its low `8 * n` bits).
pub open spec fn le_bytes(v: nat, n: nat) -> Seq<u8>
    decreases n,
{
    if n == 0 {
        Seq::empty()
    } else {
        seq![(v % 256) as u8] + le_bytes(v / 256, (n - 1) as nat)
    }
}

/// Appends the `n` little-endian bytes of `v` to `out`.
pub fn push_le(out: &mut Vec<u8>, v: u64, n: usize)
    requires
        n <= 8,
    ensures
        final(out)@ == old(out)@ + le_bytes(v as nat, n as nat),
{
    let mut rest = v;
    let mut i: usize = 0;
    while i < n
        invariant
            i <= n,
            out@ + le_bytes(rest as nat, (n - i) as nat) == old(out)@ + le_bytes(v as nat, n as nat),
        decreases n - i,
    {
        let ghost before = out@;
        out.push((rest % 256) as u8);
        proof {
            assert(le_bytes(rest as nat, (n - i) as nat) == seq![(rest % 256) as u8] + le_bytes(
                (rest / 256) as nat,
                (n - i - 1) as nat,
            ));
            assert(out@ + le_bytes((rest / 256) as nat, (n - i - 1) as nat) =~= before + le_bytes(
                rest as nat,
                (n - i) as nat,
            ));
        }
        rest = rest / 256;
        i = i + 1;
    }
    assert(le_bytes(rest as nat, 0) =~= Seq::<u8>::empty());
    assert(out@ =~= out@ + le_bytes(rest as nat, 0));
}

/// Time as seconds and microseconds.
#[derive(Clone, Copy, Debug, PartialEq, Eq, Structural)]
pub struct TimeVal {
    /// Seconds
    pub sec: usize,
    /// Microseconds within the second
    pub usec: usize,
}

/// The bytes of a `TimeVal`: `sec` then `usec`, eight little-endian bytes each.
pub open spec fn time_val_bytes(sec: nat, usec: nat) -> Seq<u8> {
    le_bytes(sec, 8) + le_bytes(usec, 8)
}

impl TimeVal {
    /// The time `us` microseconds since boot.
    pub fn from_us(us: usize) -> (r: Self)
        ensures
            r.sec == us / 1_000_000,
            r.usec == us % 1_000_000,
    {
        TimeVal { sec: us / 1_000_000, usec: us % 1_000_000 }
    }

    /// The record as user memory holds it.
    pub fn to_bytes(&self) -> (r: Vec<u8>)
        ensures
            r@ == time_val_bytes(self.sec as nat, self.usec as nat),
    {
        let mut out: Vec<u8> = Vec::new();
        push_le(&mut out, self.sec as u64, 8);
        push_le(&mut out, self.usec as u64, 8);
        assert(out@ =~= time_val_bytes(self.sec as nat, self.usec as nat));
        out
    }
}

/// Size in bytes of the task information record.
pub const TASK_INFO_SIZE: usize = 2016;

/// Code of a status in the task information record.
pub open spec fn status_code(s: TaskStatus) -> u8 {
    match s {
        TaskStatus::Ready => 0,
        TaskStatus::Running => 1,
        TaskStatus::Blocked => 2,
    }
}

/// Little-endian bytes of every count, one after the other.
pub open spec fn counts_bytes(times: Seq<u32>) -> Seq<u8>
    decreases times.len(),
{
    if times.len() == 0 {
        Seq::empty()
    } else {
        counts_bytes(times.drop_last()) + le_bytes(times.last() as nat, 4)
    }
}

/// The bytes of a task information record: the status byte and three bytes
/// of padding, one 4-byte count per syscall id, four bytes of padding, then
/// the time in ms on eight bytes.
pub open spec fn task_info_bytes(status: TaskStatus, times: Seq<u32>, time: nat) -> Seq<u8> {
    seq![status_code(status), 0u8, 0u8, 0u8] + counts_bytes(times) + seq![0u8, 0u8, 0u8, 0u8]
        + le_bytes(time, 8)
}

/// Task information as `sys_task_info` reports it.
pub struct TaskInfo {
    /// Task status in its life cycle
    pub status: TaskStatus,
    /// The number of calls of each syscall id
    pub syscall_times: Vec<u32>,
    /// Milliseconds since the task was first scheduled
    pub time: usize,
}

impl TaskInfo {
    /// The record as user memory holds it.
    pub fn to_bytes(&self) -> (r: Vec<u8>)
        ensures
            r@ == task_info_bytes(self.status, self.syscall_times@, self.time as nat),
    {
        let mut out: Vec<u8> = Vec::new();
        let code: u8 = match self.status {
            TaskStatus::Ready => 0,
            TaskStatus::Running => 1,
            TaskStatus::Blocked => 2,
        };
        out.push(code);
        out.push(0);
        out.push(0);
        out.push(0);
        let ghost head = out@;
        let n = self.syscall_times.len();
        let mut i: usize = 0;
        while i < n
            invariant
                i <= n,
                n == self.syscall_times@.len(),
                head == seq![code, 0u8, 0u8, 0u8],
                out@ == head + counts_bytes(self.syscall_times@.take(i as int)),
            decreases n - i,
        {
            push_le(&mut out, self.syscall_times[i] as u64, 4);
            proof {
                let t = self.syscall_times@.take(i + 1);
                assert(t.drop_last() =~= self.syscall_times@.take(i as int));
                assert(out@ =~= head + counts_bytes(t));
            }
            i = i + 1;
        }
        assert(self.syscall_times@.take(n as int) =~= self.syscall_times@);
        out.push(0);
        out.push(0);
        out.push(0);
        out.push(0);
        push_le(&mut out, self.time as u64, 8);
        assert(out@ =~= task_info_bytes(self.status, self.syscall_times@, self.time as nat));
        out
    }
}

/// Length of the bytes of every count.
pub proof fn lemma_counts_bytes_len(times: Seq<u32>)
    ensures
        counts_bytes(times).len() == 4 * times.len(),
    decreases times.len(),
{
    if times.len() > 0 {
        lemma_counts_bytes_len(times.drop_last());
        lemma_le_bytes_len(times.last() as nat, 4);
    }
}

/// `le_bytes` gives `n` bytes.
pub proof fn lemma_le_bytes_len(v: nat, n: nat)
    ensures
        le_bytes(v, n).len() == n,
    decreases n,
{
    if n > 0 {
        lemma_le_bytes_len(v / 256, (n - 1) as nat);
    }
}

/// A full record is `TASK_INFO_SIZE` bytes long.
pub proof fn lemma_task_info_size(status: TaskStatus, times: Seq<u32>, time: nat)
    requires
        times.len() == MAX_SYSCALL_NUM,
    ensures
        task_info_bytes(status, times, time).len() == TASK_INFO_SIZE,
{
    lemma_counts_bytes_len(times);
    lemma_le_bytes_len(time, 8);
}

} // verus!
