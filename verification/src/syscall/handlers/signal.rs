//! Signals. None is ever delivered.

use vstd::prelude::*;

use crate::memory::access::{
    le32, le64, le_words, reachable, read_u64, write_u32, write_u64, write_words, wrote, Memory,
};
use crate::sched::scheduler::{active, blocked, rescheduled, switch_of, Parking, Scheduler};
use crate::syscall::args::{SyscallArgs, SyscallResult};
use crate::syscall::errno::{EAGAIN, EFAULT, EINVAL, ENOSYS};

verus! {

pub const SIG_BLOCK: u64 = 0;

pub const SIG_UNBLOCK: u64 = 1;

pub const SIG_SETMASK: u64 = 2;

pub const SS_DISABLE: u32 = 2;

/// Reports the default action as the old one. The new one is ignored.
pub fn sys_rt_sigaction<M: Memory>(args: &SyscallArgs, um: &mut M) -> (r: SyscallResult)
    requires
        args.arg2 != 0 ==> reachable(old(um), args.arg2, 32),
    ensures
        r == 0,
        args.arg2 == 0 ==> *final(um) == *old(um),
        args.arg2 != 0 ==> wrote(old(um), final(um), args.arg2 as int, le_words(seq![0u64, 0, 0, 0])),
{
    if args.arg2 != 0 {
        let words: Vec<u64> = vec![0, 0, 0, 0];
        assert(words@ =~= seq![0u64, 0, 0, 0]);
        write_words(um, args.arg2, words.as_slice());
    }
    0
}

/// The size of the mask, or what is to be done with it, is not known.
pub open spec fn mask_refused(args: SyscallArgs) -> bool {
    args.arg3 != 8 || (args.arg1 != 0 && args.arg0 != SIG_BLOCK && args.arg0 != SIG_UNBLOCK && args.arg0 != SIG_SETMASK)
}

/// Checks its arguments, and reports an empty mask as the old one.
pub fn sys_rt_sigprocmask<M: Memory>(args: &SyscallArgs, um: &mut M) -> (r: SyscallResult)
    requires
        !mask_refused(*args) && args.arg2 != 0 ==> reachable(old(um), args.arg2, 8),
    ensures
        ({
            let refused = mask_refused(*args);
            &&& r == (if refused { EINVAL } else { 0 })
            &&& refused || args.arg2 == 0 ==> *final(um) == *old(um)
            &&& !refused && args.arg2 != 0 ==> wrote(old(um), final(um), args.arg2 as int, le64(0))
        }),
{
    if args.arg3 != 8 {
        return EINVAL;
    }
    if args.arg1 != 0 && args.arg0 != SIG_BLOCK && args.arg0 != SIG_UNBLOCK && args.arg0 != SIG_SETMASK {
        return EINVAL;
    }
    if args.arg2 != 0 {
        write_u64(um, args.arg2, 0);
    }
    0
}

pub fn sys_rt_sigreturn(_args: &SyscallArgs) -> (r: SyscallResult)
    ensures
        r == ENOSYS,
{
    ENOSYS
}

/// Waits for a signal: with a time limit, none is pending; without, the thread on CPU `c` blocks.
pub fn sys_rt_sigtimedwait<M: Memory>(args: &SyscallArgs, um: &M, sched: &mut Scheduler, c: u32) -> (r: Parking)
    requires
        old(sched)@.wf(),
        old(sched)@.settled(),
        active(old(sched)@, c as int),
        args.arg3 == 8 && args.arg0 != 0 ==> reachable(um, args.arg0, 8),
    ensures
        ({
            let v = old(sched)@;
            if args.arg3 != 8 {
                r == Parking::Return(EINVAL) && final(sched)@ == v
            } else if args.arg0 == 0 {
                r == Parking::Return(EFAULT) && final(sched)@ == v
            } else if args.arg2 != 0 {
                r == Parking::Return(EAGAIN) && final(sched)@ == v
            } else {
                &&& r == Parking::Parked(switch_of(blocked(v, c as int), c as int))
                &&& final(sched)@ == rescheduled(blocked(v, c as int), c as int)
            }
        }),
        final(sched)@.wf(),
        final(sched)@.settled(),
{
    if args.arg3 != 8 {
        return Parking::Return(EINVAL);
    }
    if args.arg0 == 0 {
        return Parking::Return(EFAULT);
    }
    let _mask: u64 = read_u64(um, args.arg0);
    if args.arg2 != 0 {
        return Parking::Return(EAGAIN);
    }
    Parking::Parked(sched.block_current(c))
}

/// What `sys_rt_sigtimedwait` returns if the thread should ever run again.
pub fn sigtimedwait_resumed() -> (r: SyscallResult)
    ensures
        r == EAGAIN,
{
    EAGAIN
}

pub fn sys_pause(_args: &SyscallArgs) -> (r: SyscallResult)
    ensures
        r == ENOSYS,
{
    ENOSYS
}

pub fn sys_kill(_args: &SyscallArgs) -> (r: SyscallResult)
    ensures
        r == ENOSYS,
{
    ENOSYS
}

pub fn sys_rt_sigsuspend(_args: &SyscallArgs) -> (r: SyscallResult)
    ensures
        r == ENOSYS,
{
    ENOSYS
}

pub fn sys_rt_sigpending(_args: &SyscallArgs) -> (r: SyscallResult)
    ensures
        r == ENOSYS,
{
    ENOSYS
}

pub fn sys_tkill(_args: &SyscallArgs) -> (r: SyscallResult)
    ensures
        r == 0,
{
    0
}

pub fn sys_tgkill(_args: &SyscallArgs) -> (r: SyscallResult)
    ensures
        r == 0,
{
    0
}

/// The bytes of the user's memory after the report of a disabled signal stack at `addr`: a
/// null pointer, the flag, and a size of 0, with four bytes between the flag and the size left alone.
pub open spec fn disabled_stack<M: Memory>(um: &M, addr: int) -> Seq<u8> {
    let off = addr - um.base();
    Seq::new(
        um.bytes().len(),
        |k: int|
            if off <= k < off + 8 || off + 16 <= k < off + 24 {
                0u8
            } else if off + 8 <= k < off + 12 {
                le32(SS_DISABLE)[k - off - 8]
            } else {
                um.bytes()[k]
            },
    )
}

/// Reports that there is no alternate signal stack.
pub fn sys_sigaltstack<M: Memory>(args: &SyscallArgs, um: &mut M) -> (r: SyscallResult)
    requires
        args.arg1 != 0 ==> reachable(old(um), args.arg1, 24),
    ensures
        r == 0,
        args.arg1 == 0 ==> *final(um) == *old(um),
        args.arg1 != 0 ==> final(um).base() == old(um).base() && final(um).bytes() == disabled_stack(old(um), args.arg1 as int),
{
    if args.arg1 != 0 {
        write_u64(um, args.arg1, 0);
        write_u32(um, args.arg1 + 8, SS_DISABLE);
        write_u64(um, args.arg1 + 16, 0);
        assert(um.bytes() =~= disabled_stack(old(um), args.arg1 as int));
    }
    0
}

} // verus!
