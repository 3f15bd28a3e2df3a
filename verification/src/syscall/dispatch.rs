//! Which call a number stands for, and the way back to the user.

use vstd::prelude::*;

use super::args::SyscallArgs;
use super::errno::ENOSYS;
use crate::sched::percpu::Cpu;
use crate::sched::scheduler::{active, queued_at, rescheduled, running, switch_of, Sched, Scheduler, Switch};
use crate::sched::steal::yielded;

verus! {

/// The system calls.
#[derive(Clone, Copy, Debug, PartialEq, Eq, Structural)]
pub enum Handler {
    Read,
    Write,
    Open,
    Close,
    Stat,
    Fstat,
    Lstat,
    Poll,
    Lseek,
    Mmap,
    Mprotect,
    Munmap,
    Brk,
    RtSigaction,
    RtSigprocmask,
    RtSigreturn,
    Ioctl,
    Pread64,
    Pwrite64,
    Readv,
    Writev,
    Access,
    Pipe,
    Select,
    SchedYield,
    Mremap,
    Msync,
    Mincore,
    Madvise,
    Dup,
    Dup2,
    Pause,
    Nanosleep,
    Getpid,
    Socket,
    Connect,
    Accept,
    Sendto,
    Recvfrom,
    Sendmsg,
    Recvmsg,
    Shutdown,
    Bind,
    Listen,
    Getsockname,
    Getpeername,
    Setsockopt,
    Getsockopt,
    Clone,
    Exit,
    Kill,
    Uname,
    Fcntl,
    Fsync,
    Fdatasync,
    Getdents,
    Getcwd,
    Chdir,
    Fchdir,
    Rename,
    Mkdir,
    Rmdir,
    Creat,
    Link,
    Unlink,
    Symlink,
    Readlink,
    Umask,
    Gettimeofday,
    Getrlimit,
    Sysinfo,
    Getuid,
    Getgid,
    Geteuid,
    Getegid,
    Getppid,
    RtSigsuspend,
    RtSigpending,
    Sigaltstack,
    Prctl,
    ArchPrctl,
    Gettid,
    Tkill,
    Time,
    Futex,
    SchedGetaffinity,
    EpollCreate,
    Getdents64,
    SetTidAddress,
    ClockGettime,
    ClockGetres,
    ClockNanosleep,
    ExitGroup,
    EpollWait,
    EpollCtl,
    Tgkill,
    Openat,
    Newfstatat,
    Unlinkat,
    Faccessat,
    SetRobustList,
    EpollPwait,
    Accept4,
    EpollCreate1,
    Pipe2,
    Prlimit64,
    Getrandom,
    Rseq,
    Clone3,
    Faccessat2,
}

/// The number of a call.
pub open spec fn number(h: Handler) -> u64 {
    match h {
        Handler::Read => 0,
        Handler::Write => 1,
        Handler::Open => 2,
        Handler::Close => 3,
        Handler::Stat => 4,
        Handler::Fstat => 5,
        Handler::Lstat => 6,
        Handler::Poll => 7,
        Handler::Lseek => 8,
        Handler::Mmap => 9,
        Handler::Mprotect => 10,
        Handler::Munmap => 11,
        Handler::Brk => 12,
        Handler::RtSigaction => 13,
        Handler::RtSigprocmask => 14,
        Handler::RtSigreturn => 15,
        Handler::Ioctl => 16,
        Handler::Pread64 => 17,
        Handler::Pwrite64 => 18,
        Handler::Readv => 19,
        Handler::Writev => 20,
        Handler::Access => 21,
        Handler::Pipe => 22,
        Handler::Select => 23,
        Handler::SchedYield => 24,
        Handler::Mremap => 25,
        Handler::Msync => 26,
        Handler::Mincore => 27,
        Handler::Madvise => 28,
        Handler::Dup => 32,
        Handler::Dup2 => 33,
        Handler::Pause => 34,
        Handler::Nanosleep => 35,
        Handler::Getpid => 39,
        Handler::Socket => 41,
        Handler::Connect => 42,
        Handler::Accept => 43,
        Handler::Sendto => 44,
        Handler::Recvfrom => 45,
        Handler::Sendmsg => 46,
        Handler::Recvmsg => 47,
        Handler::Shutdown => 48,
        Handler::Bind => 49,
        Handler::Listen => 50,
        Handler::Getsockname => 51,
        Handler::Getpeername => 52,
        Handler::Setsockopt => 54,
        Handler::Getsockopt => 55,
        Handler::Clone => 56,
        Handler::Exit => 60,
        Handler::Kill => 62,
        Handler::Uname => 63,
        Handler::Fcntl => 72,
        Handler::Fsync => 74,
        Handler::Fdatasync => 75,
        Handler::Getdents => 78,
        Handler::Getcwd => 79,
        Handler::Chdir => 80,
        Handler::Fchdir => 81,
        Handler::Rename => 82,
        Handler::Mkdir => 83,
        Handler::Rmdir => 84,
        Handler::Creat => 85,
        Handler::Link => 86,
        Handler::Unlink => 87,
        Handler::Symlink => 88,
        Handler::Readlink => 89,
        Handler::Umask => 95,
        Handler::Gettimeofday => 96,
        Handler::Getrlimit => 97,
        Handler::Sysinfo => 99,
        Handler::Getuid => 102,
        Handler::Getgid => 104,
        Handler::Geteuid => 107,
        Handler::Getegid => 108,
        Handler::Getppid => 110,
        Handler::RtSigsuspend => 129,
        Handler::RtSigpending => 130,
        Handler::Sigaltstack => 131,
        Handler::Prctl => 157,
        Handler::ArchPrctl => 158,
        Handler::Gettid => 186,
        Handler::Tkill => 200,
        Handler::Time => 201,
        Handler::Futex => 202,
        Handler::SchedGetaffinity => 204,
        Handler::EpollCreate => 213,
        Handler::Getdents64 => 217,
        Handler::SetTidAddress => 218,
        Handler::ClockGettime => 228,
        Handler::ClockGetres => 229,
        Handler::ClockNanosleep => 230,
        Handler::ExitGroup => 231,
        Handler::EpollWait => 232,
        Handler::EpollCtl => 233,
        Handler::Tgkill => 234,
        Handler::Openat => 257,
        Handler::Newfstatat => 262,
        Handler::Unlinkat => 263,
        Handler::Faccessat => 269,
        Handler::SetRobustList => 273,
        Handler::EpollPwait => 281,
        Handler::Accept4 => 288,
        Handler::EpollCreate1 => 291,
        Handler::Pipe2 => 293,
        Handler::Prlimit64 => 302,
        Handler::Getrandom => 318,
        Handler::Rseq => 334,
        Handler::Clone3 => 435,
        Handler::Faccessat2 => 439,
    }
}

/// No two calls have the same number.
pub proof fn law_numbers_differ(a: Handler, b: Handler)
    requires
        number(a) == number(b),
    ensures
        a == b,
{
}

/// The answer to a number that no function serves: `ENOSYS`, if it stands for no call, or for the one that the C library does
/// without.
pub open spec fn answered_at_once(nr: u64) -> Option<i64> {
    if nr == number(Handler::Rseq) || forall|h: Handler| #[trigger] number(h) != nr { Some(ENOSYS) } else { None }
}

/// The answer to a call that no function serves.
pub fn immediate_answer(args: &SyscallArgs) -> (r: Option<i64>)
    ensures
        r == answered_at_once(args.nr),
        args.nr == 334 ==> r == Some(-38i64),
{
    match syscall_dispatch(args) {
        None => Some(ENOSYS),
        Some(h) => match h {
            Handler::Rseq => Some(ENOSYS),
            _ => {
                proof {
                    if number(h) == number(Handler::Rseq) {
                        law_numbers_differ(h, Handler::Rseq);
                    }
                }
                None
            },
        },
    }
}

/// The call that a number stands for. There is none for an unknown number.
pub fn syscall_dispatch(args: &SyscallArgs) -> (r: Option<Handler>)
    ensures
        match r {
            Some(h) => number(h) == args.nr,
            None => forall|h: Handler| #[trigger] number(h) != args.nr,
        },
{
    match args.nr {
        0 => Some(Handler::Read),
        1 => Some(Handler::Write),
        2 => Some(Handler::Open),
        3 => Some(Handler::Close),
        4 => Some(Handler::Stat),
        5 => Some(Handler::Fstat),
        6 => Some(Handler::Lstat),
        7 => Some(Handler::Poll),
        8 => Some(Handler::Lseek),
        9 => Some(Handler::Mmap),
        10 => Some(Handler::Mprotect),
        11 => Some(Handler::Munmap),
        12 => Some(Handler::Brk),
        13 => Some(Handler::RtSigaction),
        14 => Some(Handler::RtSigprocmask),
        15 => Some(Handler::RtSigreturn),
        16 => Some(Handler::Ioctl),
        17 => Some(Handler::Pread64),
        18 => Some(Handler::Pwrite64),
        19 => Some(Handler::Readv),
        20 => Some(Handler::Writev),
        21 => Some(Handler::Access),
        22 => Some(Handler::Pipe),
        23 => Some(Handler::Select),
        24 => Some(Handler::SchedYield),
        25 => Some(Handler::Mremap),
        26 => Some(Handler::Msync),
        27 => Some(Handler::Mincore),
        28 => Some(Handler::Madvise),
        32 => Some(Handler::Dup),
        33 => Some(Handler::Dup2),
        34 => Some(Handler::Pause),
        35 => Some(Handler::Nanosleep),
        39 => Some(Handler::Getpid),
        41 => Some(Handler::Socket),
        42 => Some(Handler::Connect),
        43 => Some(Handler::Accept),
        44 => Some(Handler::Sendto),
        45 => Some(Handler::Recvfrom),
        46 => Some(Handler::Sendmsg),
        47 => Some(Handler::Recvmsg),
        48 => Some(Handler::Shutdown),
        49 => Some(Handler::Bind),
        50 => Some(Handler::Listen),
        51 => Some(Handler::Getsockname),
        52 => Some(Handler::Getpeername),
        54 => Some(Handler::Setsockopt),
        55 => Some(Handler::Getsockopt),
        56 => Some(Handler::Clone),
        60 => Some(Handler::Exit),
        62 => Some(Handler::Kill),
        63 => Some(Handler::Uname),
        72 => Some(Handler::Fcntl),
        74 => Some(Handler::Fsync),
        75 => Some(Handler::Fdatasync),
        78 => Some(Handler::Getdents),
        79 => Some(Handler::Getcwd),
        80 => Some(Handler::Chdir),
        81 => Some(Handler::Fchdir),
        82 => Some(Handler::Rename),
        83 => Some(Handler::Mkdir),
        84 => Some(Handler::Rmdir),
        85 => Some(Handler::Creat),
        86 => Some(Handler::Link),
        87 => Some(Handler::Unlink),
        88 => Some(Handler::Symlink),
        89 => Some(Handler::Readlink),
        95 => Some(Handler::Umask),
        96 => Some(Handler::Gettimeofday),
        97 => Some(Handler::Getrlimit),
        99 => Some(Handler::Sysinfo),
        102 => Some(Handler::Getuid),
        104 => Some(Handler::Getgid),
        107 => Some(Handler::Geteuid),
        108 => Some(Handler::Getegid),
        110 => Some(Handler::Getppid),
        129 => Some(Handler::RtSigsuspend),
        130 => Some(Handler::RtSigpending),
        131 => Some(Handler::Sigaltstack),
        157 => Some(Handler::Prctl),
        158 => Some(Handler::ArchPrctl),
        186 => Some(Handler::Gettid),
        200 => Some(Handler::Tkill),
        201 => Some(Handler::Time),
        202 => Some(Handler::Futex),
        204 => Some(Handler::SchedGetaffinity),
        213 => Some(Handler::EpollCreate),
        217 => Some(Handler::Getdents64),
        218 => Some(Handler::SetTidAddress),
        228 => Some(Handler::ClockGettime),
        229 => Some(Handler::ClockGetres),
        230 => Some(Handler::ClockNanosleep),
        231 => Some(Handler::ExitGroup),
        232 => Some(Handler::EpollWait),
        233 => Some(Handler::EpollCtl),
        234 => Some(Handler::Tgkill),
        257 => Some(Handler::Openat),
        262 => Some(Handler::Newfstatat),
        263 => Some(Handler::Unlinkat),
        269 => Some(Handler::Faccessat),
        273 => Some(Handler::SetRobustList),
        281 => Some(Handler::EpollPwait),
        288 => Some(Handler::Accept4),
        291 => Some(Handler::EpollCreate1),
        293 => Some(Handler::Pipe2),
        302 => Some(Handler::Prlimit64),
        318 => Some(Handler::Getrandom),
        334 => Some(Handler::Rseq),
        435 => Some(Handler::Clone3),
        439 => Some(Handler::Faccessat2),
        _ => None,
    }
}

/// The scheduler after CPU `c` caught up with the page tables of generation `global`.
pub open spec fn caught_up(v: Sched, c: int, global: u64) -> Sched {
    let cpu = v.cpus[c];
    v.with_cpu(c, Cpu { tlb_generation: if cpu.tlb_generation < global { global } else { cpu.tlb_generation }, ..cpu })
}

/// The scheduler after a call was answered on CPU `c`: if another thread ought to run, the thread goes to the end of
/// the queue, unless it is the idle thread, and the CPU reschedules.
pub open spec fn answered(v: Sched, c: int, global: u64) -> Sched {
    let w = caught_up(v, c, global);
    if !v.cpus[c].need_resched {
        w
    } else if v.cpus[c].current == v.cpus[c].idle {
        rescheduled(w, c)
    } else {
        yielded(w, c)
    }
}

/// The change of threads after a call was answered.
pub open spec fn answer_switch(v: Sched, c: int, global: u64) -> Option<Switch> {
    let w = caught_up(v, c, global);
    if !v.cpus[c].need_resched {
        None
    } else if v.cpus[c].current == v.cpus[c].idle {
        switch_of(w, c)
    } else {
        switch_of(queued_at(w, w.cpus[c].current->0, c), c)
    }
}

/// Goes back to the user after a call on CPU `c`. Gives back whether the TLB has to be flushed, and the thread to change to.
pub fn syscall_return(sched: &mut Scheduler, c: u32, global: u64) -> (r: (bool, Option<Switch>))
    requires
        old(sched)@.wf(),
        old(sched)@.settled(),
        running(old(sched)@, c as int),
        old(sched)@.cpus[c as int].current != old(sched)@.cpus[c as int].idle ==> active(old(sched)@, c as int),
    ensures
        r.0 == (old(sched)@.cpus[c as int].tlb_generation < global),
        r.1 == answer_switch(old(sched)@, c as int, global),
        final(sched)@ == answered(old(sched)@, c as int, global),
        final(sched)@.wf(),
        final(sched)@.settled(),
{
    let ghost v = sched@;
    let flush = sched.catch_up(c, global);
    let (wanted, idles) = match sched.get(c) {
        Some(cpu) => (cpu.need_resched, cpu.current_thread == cpu.idle_thread),
        None => (false, false),
    };
    if !wanted {
        return (flush, None);
    }
    if idles {
        return (flush, sched.schedule(c));
    }
    (flush, sched.yield_current(c))
}

} // verus!
