//! Threads: yielding, futexes, affinity.

use vstd::prelude::*;

use crate::memory::access::{le32, reachable, write_bytes, write_u32, wrote, Memory};
use crate::sched::futex::{
    has_word, parked, unlinked, user_word, wait, wait_bitset, wake, wake_bitset, wakes, ALL_BITS,
};
use crate::sched::scheduler::{
    active, lemma_thread_change, queued_at, rescheduled, running, switch_of, woken_all, Parking, Sched,
    Scheduler, Switch,
};
use crate::sched::steal::{law_busy_peer, law_steal, steal_of, stolen, yielded, Steal};
use crate::sched::thread::{Thread, Tid};
use crate::memory::access::read_u32;
use crate::syscall::args::{SyscallArgs, SyscallResult};
use crate::syscall::errno::{EAGAIN, EFAULT, EINVAL, ENOSYS, ESRCH, ETIMEDOUT};

verus! {

pub const FUTEX_WAIT: i32 = 0;

pub const FUTEX_WAKE: i32 = 1;

pub const FUTEX_WAIT_BITSET: i32 = 9;

pub const FUTEX_WAKE_BITSET: i32 = 10;

pub const FUTEX_PRIVATE_FLAG: i32 = 128;

pub const FUTEX_CLOCK_REALTIME: i32 = 256;

/// All bits but the two flags.
pub const FUTEX_CMD_MASK: i32 = -385;

/// Size of the head of a list of robust futexes.
pub const ROBUST_LIST_HEAD_SIZE: u64 = 24;

/// What giving up the CPU comes to.
#[derive(Clone, Copy, Debug, PartialEq, Eq, Structural)]
pub enum Yield {
    /// The thread goes on, and the call returns this.
    Return(i64),
    /// This thread was taken from another CPU and its context is not saved yet. Once it is in the queue, the call
    /// returns 0.
    WaitFor(Tid),
    /// The call returns 0 when the thread runs again; the change of threads, if any.
    Switched(Option<Switch>),
}

/// Gives up the CPU, if another thread waits for it here. If none does, one is taken from another CPU, so that it is not
/// stranded there, and the thread goes on at once. The idle thread does not give up the CPU.
pub fn sys_sched_yield(_args: &SyscallArgs, sched: &mut Scheduler, c: u32) -> (r: Yield)
    requires
        old(sched)@.wf(),
        old(sched)@.settled(),
        running(old(sched)@, c as int),
        old(sched)@.cpus[c as int].current != old(sched)@.cpus[c as int].idle ==> active(old(sched)@, c as int),
    ensures
        ({
            let v = old(sched)@;
            if v.cpus[c as int].queue.len() == 0 {
                &&& r == (match steal_of(v, c as int) {
                    Steal::Switching(t) => Yield::WaitFor(t),
                    _ => Yield::Return(0),
                })
                &&& final(sched)@ == stolen(v, c as int)
                &&& final(sched)@.cpus[c as int].current == v.cpus[c as int].current
                &&& forall|p: int, t: Tid| #[trigger]
                    final(sched)@.queued_on(t, p) && v.runs_on(t, c as int) ==> v.queued_on(t, p)
            } else if v.cpus[c as int].current == v.cpus[c as int].idle {
                r == Yield::Return(0) && final(sched)@ == v
            } else {
                &&& r == Yield::Switched(switch_of(queued_at(v, v.cpus[c as int].current->0, c as int), c as int))
                &&& final(sched)@ == yielded(v, c as int)
            }
        }),
        final(sched)@.wf(),
        final(sched)@.settled(),
{
    let ghost v = sched@;
    assert(v.cpus[c as int] == sched.cpus@[c as int]@);
    proof {
        law_steal(v, c as int);
        law_busy_peer(v, c as int, 0);
    }
    if sched.cpus[c as usize].runqueue.load() == 0 {
        return match sched.try_steal_work(c) {
            Steal::Switching(t) => Yield::WaitFor(t),
            _ => Yield::Return(0),
        };
    }
    let current = sched.cpus[c as usize].current_thread;
    let idle = sched.cpus[c as usize].idle_thread;
    match (current, idle) {
        (Some(t), Some(i)) => {
            if t.0 == i.0 {
                assert(t == i);
                return Yield::Return(0);
            }
            assert(v.runs_on(t, c as int));
            Yield::Switched(sched.yield_current(c))
        },
        _ => Yield::Return(0),
    }
}

/// The command of a futex operation.
pub open spec fn futex_command(args: SyscallArgs) -> i32 {
    (args.arg1 as i32) & FUTEX_CMD_MASK
}

/// A wait with a time limit does not wait: it returns this.
pub open spec fn probe<M: Memory>(um: &M, uaddr: u64, expected: u32) -> i64 {
    if user_word(um, uaddr) != expected { EAGAIN } else { ETIMEDOUT }
}

/// The word at the address is looked at.
pub open spec fn futex_reads(args: SyscallArgs) -> bool {
    args.arg0 != 0 && (futex_command(args) == FUTEX_WAIT || (futex_command(args) == FUTEX_WAIT_BITSET && args.arg5 as u32 != 0))
}

/// `r` is what a wait for the word at the first argument comes to.
pub open spec fn waited<M: Memory>(args: SyscallArgs, um: &M, v: Sched, w: Sched, c: int, bitset: u32, r: Parking) -> bool {
    let expected = args.arg2 as u32;
    if bitset == 0 {
        r == Parking::Return(EINVAL) && w == v
    } else if args.arg3 != 0 {
        r == Parking::Return(probe(um, args.arg0, expected)) && w == v
    } else if user_word(um, args.arg0) != expected {
        r == Parking::Return(EAGAIN) && w == v
    } else {
        let p = parked(v, c, args.arg0, bitset);
        r == Parking::Parked(switch_of(p, c)) && w == rescheduled(p, c)
    }
}

/// `r` is what a wake at the first argument comes to.
pub open spec fn woke(args: SyscallArgs, v: Sched, w: Sched, c: int, bitset: Option<u32>, r: Parking) -> bool {
    let max = (args.arg2 as u32) as int;
    let ts = wakes(v, args.arg0, bitset, max);
    let u = unlinked(v, args.arg0, bitset, max);
    &&& r == Parking::Return(ts.len() as i64)
    &&& w == woken_all(u, ts, c)
}

/// Waits for the word at an address to change, or wakes threads that do.
pub fn sys_futex<M: Memory>(args: &SyscallArgs, um: &M, sched: &mut Scheduler, c: u32) -> (r: Parking)
    requires
        old(sched)@.wf(),
        old(sched)@.settled(),
        active(old(sched)@, c as int),
        futex_reads(*args) ==> has_word(um, args.arg0),
    ensures
        ({
            let v = old(sched)@;
            let w = final(sched)@;
            let cmd = futex_command(*args);
            if args.arg0 == 0 {
                r == Parking::Return(EFAULT) && w == v
            } else if cmd == FUTEX_WAIT {
                waited(*args, um, v, w, c as int, ALL_BITS, r)
            } else if cmd == FUTEX_WAIT_BITSET {
                waited(*args, um, v, w, c as int, args.arg5 as u32, r)
            } else if cmd == FUTEX_WAKE {
                woke(*args, v, w, c as int, None, r)
            } else if cmd == FUTEX_WAKE_BITSET {
                woke(*args, v, w, c as int, Some(args.arg5 as u32), r)
            } else {
                r == Parking::Return(ENOSYS) && w == v
            }
        }),
        final(sched)@.wf(),
        final(sched)@.settled(),
{
    let uaddr: u64 = args.arg0;
    let op: i32 = #[verifier::truncate]
    (args.arg1 as i32);
    let val: u32 = #[verifier::truncate]
    (args.arg2 as u32);
    let bitset: u32 = #[verifier::truncate]
    (args.arg5 as u32);
    let cmd: i32 = op & FUTEX_CMD_MASK;
    if uaddr == 0 {
        return Parking::Return(EFAULT);
    }
    if cmd == FUTEX_WAIT || cmd == FUTEX_WAIT_BITSET {
        if args.arg3 != 0 {
            if cmd == FUTEX_WAIT_BITSET && bitset == 0 {
                return Parking::Return(EINVAL);
            }
            let cur: u32 = read_u32(um, uaddr);
            return Parking::Return(
                if cur != val {
                    EAGAIN
                } else {
                    ETIMEDOUT
                },
            );
        }
        if cmd == FUTEX_WAIT {
            wait(sched, um, c, uaddr, val)
        } else {
            wait_bitset(sched, um, c, uaddr, val, bitset)
        }
    } else if cmd == FUTEX_WAKE {
        Parking::Return(wake(sched, c, uaddr, val))
    } else if cmd == FUTEX_WAKE_BITSET {
        Parking::Return(wake_bitset(sched, c, uaddr, val, bitset))
    } else {
        Parking::Return(ENOSYS)
    }
}

/// A byte with its lowest `n` bits set.
pub open spec fn low_bits(n: int) -> u8 {
    if n <= 0 {
        0
    } else if n == 1 {
        1
    } else if n == 2 {
        3
    } else if n == 3 {
        7
    } else if n == 4 {
        15
    } else if n == 5 {
        31
    } else if n == 6 {
        63
    } else if n == 7 {
        127
    } else {
        255
    }
}

/// A mask of `len` bytes with the bits of the first `cpus` CPUs set.
pub open spec fn cpu_mask(cpus: int, len: int) -> Seq<u8> {
    Seq::new(len as nat, |k: int| low_bits(cpus - 8 * k))
}

fn low_bits_of(n: u32) -> (b: u8)
    ensures
        b == low_bits(n as int),
{
    match n {
        0 => 0,
        1 => 1,
        2 => 3,
        3 => 7,
        4 => 15,
        5 => 31,
        6 => 63,
        7 => 127,
        _ => 255,
    }
}

/// Writes the mask of all CPUs, of which there are `cpu_count`: any thread may run on any of them.
pub fn sys_sched_getaffinity<M: Memory>(args: &SyscallArgs, um: &mut M, cpu_count: u32) -> (r: SyscallResult)
    requires
        (args.arg0 == 0 || args.arg0 == 1) && args.arg2 != 0 && args.arg1 >= 8 ==> reachable(
            old(um),
            args.arg2,
            if args.arg1 < 128 { args.arg1 as int } else { 128 },
        ),
    ensures
        if args.arg0 != 0 && args.arg0 != 1 {
            r == ESRCH && *final(um) == *old(um)
        } else if args.arg1 < 8 {
            r == EINVAL && *final(um) == *old(um)
        } else if args.arg2 == 0 {
            r == EFAULT && *final(um) == *old(um)
        } else {
            &&& r == 8
            &&& wrote(
                old(um),
                final(um),
                args.arg2 as int,
                cpu_mask(cpu_count as int, if args.arg1 < 128 { args.arg1 as int } else { 128 }),
            )
        },
{
    if args.arg0 != 0 && args.arg0 != 1 {
        return ESRCH;
    }
    if args.arg1 < 8 {
        return EINVAL;
    }
    if args.arg2 == 0 {
        return EFAULT;
    }
    let len: u32 = if args.arg1 < 128 { args.arg1 as u32 } else { 128 };
    let mut mask: Vec<u8> = Vec::new();
    let mut k: u32 = 0;
    while k < len
        invariant
            k <= len <= 128,
            mask@ == cpu_mask(cpu_count as int, k as int),
        decreases len - k,
    {
        let rest: u32 = if cpu_count > 8 * k { cpu_count - 8 * k } else { 0 };
        mask.push(low_bits_of(rest));
        k += 1;
        assert(mask@ =~= cpu_mask(cpu_count as int, k as int));
    }
    write_bytes(um, args.arg2, mask.as_slice());
    8
}

/// Accepts any mask for this process.
pub fn sys_sched_setaffinity(args: &SyscallArgs) -> (r: SyscallResult)
    ensures
        r == (if args.arg0 != 0 && args.arg0 != 1 {
            ESRCH
        } else if args.arg1 > 0 && args.arg2 == 0 {
            EFAULT
        } else {
            0
        }),
{
    if args.arg0 != 0 && args.arg0 != 1 {
        return ESRCH;
    }
    if args.arg1 > 0 && args.arg2 == 0 {
        return EFAULT;
    }
    0
}

/// The memory after a zero was written at `addr`, unless that is 0.
pub open spec fn zero_at<M: Memory>(before: &M, after: &M, addr: u64) -> bool {
    if addr == 0 { *after == *before } else { wrote(before, after, addr as int, le32(0)) }
}

/// Reports CPU 0 on node 0.
pub fn sys_getcpu<M: Memory>(args: &SyscallArgs, um: &mut M) -> (r: SyscallResult)
    requires
        args.arg0 != 0 ==> reachable(old(um), args.arg0, 4),
        args.arg1 != 0 ==> reachable(old(um), args.arg1, 4),
    ensures
        r == 0,
        exists|mid: M| zero_at(old(um), &mid, args.arg0) && #[trigger] zero_at(&mid, final(um), args.arg1),
{
    if args.arg0 != 0 {
        write_u32(um, args.arg0, 0);
    }
    let ghost mid = *um;
    if args.arg1 != 0 {
        write_u32(um, args.arg1, 0);
    }
    assert(zero_at(old(um), &mid, args.arg0) && zero_at(&mid, um, args.arg1));
    0
}

/// The scheduler with the list of robust futexes of the thread on CPU `c` at `head`.
pub open spec fn with_robust_list(v: Sched, c: int, head: u64) -> Sched {
    v.with_thread((Thread { robust_list_head: head, ..v.thread(v.cpus[c].current->0) }))
}

/// Remembers where the thread on CPU `c` has its list of robust futexes.
pub fn sys_set_robust_list(args: &SyscallArgs, sched: &mut Scheduler, c: u32) -> (r: SyscallResult)
    requires
        old(sched)@.wf(),
        old(sched)@.settled(),
        running(old(sched)@, c as int),
    ensures
        if args.arg1 != ROBUST_LIST_HEAD_SIZE {
            r == EINVAL && final(sched)@ == old(sched)@
        } else {
            r == 0 && final(sched)@ == with_robust_list(old(sched)@, c as int, args.arg0)
        },
        final(sched)@.wf(),
        final(sched)@.settled(),
{
    if args.arg1 != ROBUST_LIST_HEAD_SIZE {
        return EINVAL;
    }
    let ghost v = sched@;
    let mut me = sched.current_thread(c);
    me.robust_list_head = args.arg0;
    proof {
        assert(v.runs_on(me.tid, c as int));
        lemma_thread_change(v, me);
    }
    sched.set_thread(me);
    0
}

} // verus!
