//! Values the kernel hands to user space, and their byte layout there.
use vstd::prelude::*;

use crate::task::TaskStatus;

verus! {

/// Wall-clock time as seconds and microseconds.
pub struct TimeVal {
    pub sec: usize,
    pub usec: usize,
}

/// What `task_info` reports of a task.
pub struct TaskInfo {
    /// Task status in its life cycle.
    pub status: TaskStatus,
    /// How many times the task made each syscall, by syscall identifier.
    pub syscall_times: Vec<u32>,
    /// Running time of the task, in milliseconds.
    pub time: usize,
}

/// The `n` low bytes of `x`, least significant first.
pub open spec fn le_bytes(x: nat, n: nat) -> Seq<u8>
    decreases n,
{
    if n == 0 {
        Seq::empty()
    } else {
        seq![(x % 256) as u8] + le_bytes(x / 256, (n - 1) as nat)
    }
}

/// `le_bytes(x, n)` has `n` bytes.
pub proof fn lemma_le_bytes_len(x: nat, n: nat)
    ensures
        le_bytes(x, n).len() == n,
    decreases n,
{
    if n > 0 {
        lemma_le_bytes_len(x / 256, (n - 1) as nat);
    }
}

/// The counters of `s`, each as four bytes, least significant first.
pub open spec fn counters_bytes(s: Seq<u32>) -> Seq<u8>
    decreases s.len(),
{
    if s.len() == 0 {
        Seq::empty()
    } else {
        counters_bytes(s.drop_last()) + le_bytes(s.last() as nat, 4)
    }
}

/// Layout of a `TimeVal` in user memory: two 64-bit little-endian words.
pub open spec fn timeval_bytes(sec: nat, usec: nat) -> Seq<u8> {
    le_bytes(sec, 8) + le_bytes(usec, 8)
}

/// Layout of a `TaskInfo` in user memory: the status as a 32-bit word, the
/// counters as 32-bit words, four bytes of padding, and the time as a 64-bit word.
pub open spec fn task_info_bytes(status: nat, times: Seq<u32>, time: nat) -> Seq<u8> {
    le_bytes(status, 4) + counters_bytes(times) + le_bytes(0, 4) + le_bytes(time, 8)
}

/// Number that stands for `s` in user memory.
pub open spec fn status_code(s: TaskStatus) -> nat {
    match s {
        TaskStatus::UnInit => 0,
        TaskStatus::Ready => 1,
        TaskStatus::Running => 2,
        TaskStatus::Zombie => 3,
    }
}

/// Appends the `n` low bytes of `x` to `out`, least significant first.
pub fn push_le(out: &mut Vec<u8>, x: usize, n: usize)
    ensures
        final(out)@ == old(out)@ + le_bytes(x as nat, n as nat),
{
    let mut v: usize = x;
    let mut k: usize = 0;
    while k < n
        invariant
            k <= n,
            out@ + le_bytes(v as nat, (n - k) as nat) == old(out)@ + le_bytes(x as nat, n as nat),
        decreases n - k,
    {
        let ghost before = out@;
        out.push((v % 256) as u8);
        assert(out@ + le_bytes((v / 256) as nat, (n - k - 1) as nat) =~= before + le_bytes(v as nat, (n - k) as nat));
        v = v / 256;
        k = k + 1;
    }
    assert(out@ + le_bytes(v as nat, 0) =~= out@);
}

impl TimeVal {
    /// The time `us` microseconds after the epoch.
    pub fn from_us(us: usize) -> (r: TimeVal)
        ensures
            r.sec == us / 1_000_000,
            r.usec == us % 1_000_000,
    {
        TimeVal { sec: us / 1_000_000, usec: us % 1_000_000 }
    }

    /// The bytes of this value as user memory holds them.
    pub fn to_bytes(&self) -> (r: Vec<u8>)
        ensures
            r@ == timeval_bytes(self.sec as nat, self.usec as nat),
    {
        let mut out: Vec<u8> = Vec::new();
        push_le(&mut out, self.sec, 8);
        push_le(&mut out, self.usec, 8);
        assert(out@ =~= timeval_bytes(self.sec as nat, self.usec as nat));
        out
    }
}

impl TaskInfo {
    /// The bytes of this value as user memory holds them.
    pub fn to_bytes(&self) -> (r: Vec<u8>)
        ensures
            r@ == task_info_bytes(status_code(self.status), self.syscall_times@, self.time as nat),
    {
        let mut out: Vec<u8> = Vec::new();
        let code: usize = match self.status {
            TaskStatus::UnInit => 0,
            TaskStatus::Ready => 1,
            TaskStatus::Running => 2,
            TaskStatus::Zombie => 3,
        };
        push_le(&mut out, code, 4);
        let ghost head = out@;
        let mut i: usize = 0;
        while i < self.syscall_times.len()
            invariant
                i <= self.syscall_times@.len(),
                out@ == head + counters_bytes(self.syscall_times@.take(i as int)),
            decreases self.syscall_times@.len() - i,
        {
            let ghost before = out@;
            push_le(&mut out, self.syscall_times[i] as usize, 4);
            assert(self.syscall_times@.take(i + 1).drop_last() =~= self.syscall_times@.take(i as int));
            i = i + 1;
            assert(out@ =~= head + counters_bytes(self.syscall_times@.take(i as int)));
        }
        assert(self.syscall_times@.take(i as int) =~= self.syscall_times@);
        push_le(&mut out, 0, 4);
        push_le(&mut out, self.time, 8);
        assert(out@ =~= task_info_bytes(status_code(self.status), self.syscall_times@, self.time as nat));
        out
    }
}

} // verus!
