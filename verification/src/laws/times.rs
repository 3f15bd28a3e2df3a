//! Clocks, sleeping, and how long a wait may last.

use vstd::prelude::*;

use super::words::{lemma_u64_at, lemma_word_of, u64_at};
use crate::fs::fd_table::FdTable;
use crate::memory::access::{le_words, range, within, wrote, Memory};
use crate::net::device::PollDevice;
use crate::net::state::NetStateInner;
use crate::sched::scheduler::Scheduler;
use crate::syscall::args::{SyscallArgs, SyscallResult};
use crate::syscall::handlers::epoll::{epoll_of, epoll_on, law_ready_events, snapshot_of, sys_epoll_wait, EpollCall, EpollWait};
use crate::syscall::handlers::poll::{lemma_net_belongs, poll_on, sys_poll, PollCall, PollWait};
use crate::syscall::handlers::time::{
    sys_clock_getres, sys_clock_gettime, sys_clock_nanosleep, sys_gettimeofday, sys_nanosleep, Sleep,
};
use crate::time::{busy_wait_ns, elapsed_ns, Clock};

verus! {

/// `ns` whole nanoseconds have gone by since boot when the counter shows `tsc`: that many and less than one more.
pub open spec fn gone_by(clock: Clock, tsc: u64, ns: int) -> bool {
    ns * clock.tsc_freq_khz <= (tsc - clock.boot_tsc) * 1_000_000 < (ns + 1) * clock.tsc_freq_khz
}

/// The rate of the counter is known, it has not wrapped, and not as many nanoseconds have gone by as would wrap.
pub open spec fn clock_runs(clock: Clock, tsc: u64) -> bool {
    &&& clock.tsc_freq_khz > 0
    &&& clock.boot_tsc <= tsc
    &&& (tsc - clock.boot_tsc) * 1_000_000 < clock.tsc_freq_khz * 0x8000_0000_0000_0000
}

pub proof fn lemma_gone_by(clock: Clock, tsc: u64)
    requires
        clock_runs(clock, tsc),
    ensures
        gone_by(clock, tsc, elapsed_ns(clock, tsc)),
        0 <= elapsed_ns(clock, tsc) < 0x8000_0000_0000_0000,
{
    let a = (tsc - clock.boot_tsc) * 1_000_000;
    let f = clock.tsc_freq_khz as int;
    let q = a / f;
    vstd::arithmetic::div_mod::lemma_fundamental_div_mod(a, f);
    vstd::arithmetic::div_mod::lemma_mod_bound(a, f);
    assert(q * f <= a < (q + 1) * f && 0 <= q < 0x8000_0000_0000_0000) by (nonlinear_arith)
        requires
            a == f * q + a % f,
            0 <= a % f < f,
            0 <= a < f * 0x8000_0000_0000_0000,
            f > 0,
    ;
}

/// The two numbers at the address, seconds and parts of a second, as one, with `unit` parts to the second.
pub open spec fn time_in<M: Memory>(um: &M, at: int, unit: int) -> int {
    u64_at(um, at) * unit + u64_at(um, at + 8)
}

proof fn lemma_two_words<M: Memory>(before: &M, after: &M, at: int, x: u64, y: u64)
    requires
        wrote(before, after, at, le_words(seq![x, y])),
        within(before, at, 16),
    ensures
        u64_at(after, at) == x,
        u64_at(after, at + 8) == y,
{
    let ws = seq![x, y];
    assert(range(after, at, 16) =~= le_words(ws));
    lemma_word_of(after, at, ws, 0);
    lemma_word_of(after, at, ws, 1);
}

/// The monotonic clock shows how long ago the machine was started, to the nanosecond; the wall clock, that much after the time
/// at the start.
pub proof fn law_clock_shows_the_time<M: Memory>(args: &SyscallArgs, um: &mut M, clock: &Clock, tsc: u64, r: SyscallResult)
    requires
        call_ensures(sys_clock_gettime::<M>, (args, um, clock, tsc), r),
        args.arg1 != 0,
        within(old(um), args.arg1 as int, 16),
        clock_runs(*clock, tsc),
        clock.wall_clock_sec <= 0x8000_0000_0000_0000,
    ensures
        ({
            let id = args.arg0 as i32;
            let wall = id == 0 || id == 5;
            let mono = id == 1 || id == 4 || id == 6;
            let start = if wall { clock.wall_clock_sec * 1_000_000_000 + clock.wall_clock_nsec } else { 0 };
            &&& r == (if wall || mono { 0int } else { -22 })
            &&& wall || mono ==> u64_at(final(um), args.arg1 + 8) < 1_000_000_000 && gone_by(
                *clock,
                tsc,
                time_in(final(um), args.arg1 as int, 1_000_000_000) - start,
            )
            &&& !wall && !mono ==> *final(um) == *old(um)
        }),
{
    let id = args.arg0 as i32;
    let e = elapsed_ns(*clock, tsc);
    lemma_gone_by(*clock, tsc);
    if id == 0 || id == 5 {
        let w = clock.wall_clock_nsec + e;
        lemma_two_words(
            old(um),
            final(um),
            args.arg1 as int,
            (clock.wall_clock_sec + w / 1_000_000_000) as u64,
            (w % 1_000_000_000) as u64,
        );
    } else if id == 1 || id == 4 || id == 6 {
        lemma_two_words(old(um), final(um), args.arg1 as int, (e / 1_000_000_000) as u64, (e % 1_000_000_000) as u64);
    }
}

/// The time of day is the wall clock, to the microsecond.
pub proof fn law_time_of_day<M: Memory>(args: &SyscallArgs, um: &mut M, clock: &Clock, tsc: u64, r: SyscallResult)
    requires
        call_ensures(sys_gettimeofday::<M>, (args, um, clock, tsc), r),
        args.arg0 != 0,
        within(old(um), args.arg0 as int, 16),
        clock_runs(*clock, tsc),
        clock.wall_clock_sec <= 0x8000_0000_0000_0000,
    ensures
        r == 0,
        u64_at(final(um), args.arg0 + 8) < 1_000_000,
        exists|e: int|
            #[trigger] gone_by(*clock, tsc, e) && time_in(final(um), args.arg0 as int, 1_000_000) * 1000 <= clock.wall_clock_sec
                * 1_000_000_000 + clock.wall_clock_nsec + e < (time_in(final(um), args.arg0 as int, 1_000_000) + 1) * 1000,
{
    let e = elapsed_ns(*clock, tsc);
    lemma_gone_by(*clock, tsc);
    let w = clock.wall_clock_nsec + e;
    lemma_two_words(
        old(um),
        final(um),
        args.arg0 as int,
        (clock.wall_clock_sec + w / 1_000_000_000) as u64,
        (w % 1_000_000_000 / 1000) as u64,
    );
    assert(gone_by(*clock, tsc, e));
}

/// A sleep lasts as long as asked for, unless that is no time at all.
pub proof fn law_sleep_lasts_as_long_as_asked<M: Memory>(args: &SyscallArgs, um: &M, r: Sleep)
    requires
        call_ensures(sys_nanosleep::<M>, (args, um), r),
        args.arg0 != 0,
        within(um, args.arg0 as int, 16),
    ensures
        ({
            let valid = u64_at(um, args.arg0 as int) <= i64::MAX && u64_at(um, args.arg0 + 8) < 1_000_000_000;
            let t = time_in(um, args.arg0 as int, 1_000_000_000);
            &&& !valid ==> (r matches Sleep::Return(e) && e == -22)
            &&& valid ==> (r matches Sleep::Wait { ns, rem } && rem == args.arg1 && ns == (if t <= u64::MAX { t } else { u64::MAX as int }))
        }),
{
    lemma_u64_at(um, args.arg0 as int);
    lemma_u64_at(um, args.arg0 + 8);
}

/// A sleep by a clock lasts as long as asked for, or until the clock shows the time asked for.
pub proof fn law_sleep_by_the_clock<M: Memory>(args: &SyscallArgs, um: &M, clock: &Clock, tsc: u64, r: Sleep)
    requires
        call_ensures(sys_clock_nanosleep::<M>, (args, um, clock, tsc), r),
        args.arg2 != 0,
        within(um, args.arg2 as int, 16),
        args.arg0 as i32 == 0 || args.arg0 as i32 == 1 || args.arg0 as i32 == 4,
        u64_at(um, args.arg2 as int) <= 0x1_0000_0000,
        u64_at(um, args.arg2 + 8) < 1_000_000_000,
        clock_runs(*clock, tsc),
        clock.wall_clock_sec <= 0x1_0000_0000,
        clock.wall_clock_nsec < 1_000_000_000,
    ensures
        ({
            let t = time_in(um, args.arg2 as int, 1_000_000_000);
            let start = if args.arg0 as i32 == 0 { clock.wall_clock_sec * 1_000_000_000 + clock.wall_clock_nsec } else { 0 };
            &&& args.arg1 as i32 & 1 == 0 ==> (r matches Sleep::Wait { ns, rem } && ns == t && rem == args.arg3)
            &&& args.arg1 as i32 & 1 != 0 ==> {
                ||| r matches Sleep::Wait { ns, rem } && ns > 0 && rem == 0 && gone_by(*clock, tsc, t - start - ns)
                ||| r == Sleep::Return(0) && (exists|e: int| #[trigger] gone_by(*clock, tsc, e) && t <= start + e)
            }
        }),
{
    lemma_u64_at(um, args.arg2 as int);
    lemma_u64_at(um, args.arg2 + 8);
    let e = elapsed_ns(*clock, tsc);
    lemma_gone_by(*clock, tsc);
    assert(gone_by(*clock, tsc, e));
}

/// A busy wait is over only when the time is up, and then it is, to the tick.
pub proof fn law_busy_wait_waits(clock: &Clock, ns: u64, start: u64, now: u64, over: bool)
    requires
        call_ensures(busy_wait_ns, (clock, ns, start, now), over),
        start <= now,
        clock.tsc_freq_khz > 0,
    ensures
        over <==> (now - start) * 1_000_000 >= ns * clock.tsc_freq_khz,
{
    let f = clock.tsc_freq_khz as int;
    let need = (ns * f + 999_999) / 1_000_000;
    let x = ns * f;
    assert(x >= 0) by (nonlinear_arith)
        requires
            x == ns * f,
            f > 0,
    ;
}

/// `d` is `ms` milliseconds from now, or there is no end if that is negative.
pub open spec fn ends_after(clock: Clock, tsc: u64, ms: i32, d: Option<u64>) -> bool {
    if ms < 0 { d is None } else { d matches Some(t) && gone_by(clock, tsc, t - ms * 1_000_000) }
}

/// Asking about descriptors waits for as many milliseconds as it was told, or without end.
pub proof fn law_poll_waits_its_time<D: PollDevice, M: Memory>(
    args: &SyscallArgs,
    fds: &FdTable,
    net: &mut NetStateInner<D>,
    sched: &mut Scheduler,
    um: &mut M,
    c: u32,
    clock: &Clock,
    tsc: u64,
    r: PollCall,
)
    requires
        call_ensures(sys_poll::<D, M>, (args, fds, net, sched, um, c, clock, tsc), r),
        clock_runs(*clock, tsc),
    ensures
        r matches PollCall::Parked(_, w) ==> ends_after(*clock, tsc, args.arg2 as i32, w.deadline) && w.ptr == args.arg0,
        args.arg2 as i32 == 0 ==> r is Return,
{
    lemma_gone_by(*clock, tsc);
}

/// A wait for a set likewise.
pub proof fn law_epoll_waits_its_time<D: PollDevice, M: Memory>(
    args: &SyscallArgs,
    fds: &FdTable,
    net: &mut NetStateInner<D>,
    sched: &mut Scheduler,
    um: &mut M,
    c: u32,
    clock: &Clock,
    tsc: u64,
    r: EpollCall,
)
    requires
        call_ensures(sys_epoll_wait::<D, M>, (args, fds, net, sched, um, c, clock, tsc), r),
        clock_runs(*clock, tsc),
        1 <= args.arg2 as i32 <= 1024,
    ensures
        r matches EpollCall::Parked(_, w) ==> ends_after(*clock, tsc, args.arg3 as i32, w.deadline) && w.ptr == args.arg1 && w.max
            == args.arg2 as i32,
        args.arg3 as i32 == 0 ==> r is Return,
        (args.arg3 as i32) < 0 ==> r != EpollCall::Return(0),
{
    let n = final(net)@;
    if let Ok(id) = epoll_of(fds@, args.arg0) {
        if let Some(set) = old(net)@.epoll(id as int) {
            let snap = snapshot_of(fds@, set);
            law_ready_events(n, snap, snap.len() as int, (args.arg2 as i32) as int);
        }
    }
    lemma_gone_by(*clock, tsc);
}

/// A wait that goes on ends without an answer only when its time is up; and it goes on only while it is not.
pub proof fn law_poll_gives_up_when_its_time_is_up<D: PollDevice, M: Memory>(
    net: &mut NetStateInner<D>,
    sched: &mut Scheduler,
    um: &mut M,
    w: PollWait,
    c: u32,
    clock: &Clock,
    tsc: u64,
    r: PollCall,
)
    requires
        call_ensures(poll_on::<D, M>, (net, sched, um, w, c, clock, tsc), r),
        clock_runs(*clock, tsc),
        w@.snapshot.len() <= 256,
        forall|i: int| 0 <= i < w@.snapshot.len() ==> (#[trigger] w@.snapshot[i]).idx == i,
    ensures
        r == PollCall::Return(0) ==> (w.deadline matches Some(d) && exists|e: int| #[trigger] gone_by(*clock, tsc, e) && d <= e),
        r is Parked ==> (w.deadline matches Some(d) ==> exists|e: int| #[trigger] gone_by(*clock, tsc, e) && e < d),
        r matches PollCall::Parked(_, x) ==> x@ == w@,
{
    lemma_net_belongs(final(net)@, w@.snapshot, w@.snapshot.len() as int);
    lemma_gone_by(*clock, tsc);
    assert(gone_by(*clock, tsc, elapsed_ns(*clock, tsc)));
}

/// A wait for a set that goes on likewise.
pub proof fn law_epoll_gives_up_when_its_time_is_up<D: PollDevice, M: Memory>(
    net: &mut NetStateInner<D>,
    sched: &mut Scheduler,
    um: &mut M,
    w: EpollWait,
    c: u32,
    clock: &Clock,
    tsc: u64,
    r: EpollCall,
)
    requires
        call_ensures(epoll_on::<D, M>, (net, sched, um, w, c, clock, tsc), r),
        clock_runs(*clock, tsc),
        1 <= w.max <= 1024,
    ensures
        r == EpollCall::Return(0) ==> (w.deadline matches Some(d) && exists|e: int| #[trigger] gone_by(*clock, tsc, e) && d <= e),
        r is Parked ==> (w.deadline matches Some(d) ==> exists|e: int| #[trigger] gone_by(*clock, tsc, e) && e < d),
        r matches EpollCall::Parked(_, x) ==> x@ == w@,
{
    law_ready_events(final(net)@, w@.snapshot, w@.snapshot.len() as int, w.max as int);
    lemma_gone_by(*clock, tsc);
    assert(gone_by(*clock, tsc, elapsed_ns(*clock, tsc)));
}

/// The resolution of a clock is the time between two counts of the counter, in whole nanoseconds, and at least one; and there are
/// no other clocks than those that tell the time of day and those that only go forward.
pub proof fn law_resolution_is_that_of_the_counter<M: Memory>(args: &SyscallArgs, um: &mut M, clock: &Clock, r: SyscallResult)
    requires
        call_ensures(sys_clock_getres::<M>, (args, um, clock), r),
        args.arg1 != 0,
        within(old(um), args.arg1 as int, 16),
    ensures
        ({
            let id = args.arg0 as i32;
            let res = u64_at(final(um), args.arg1 + 8);
            &&& r == 0 <==> id == 0 || id == 5 || id == 1 || id == 4 || id == 6
            &&& r == 0 ==> u64_at(final(um), args.arg1 as int) == 0
            &&& r == 0 && 0 < clock.tsc_freq_khz <= 1_000_000 ==> res * clock.tsc_freq_khz <= 1_000_000 < (res + 1) * clock.tsc_freq_khz
            &&& r == 0 && !(0 < clock.tsc_freq_khz <= 1_000_000) ==> res == 1
            &&& r != 0 ==> r == -22 && *final(um) == *old(um)
        }),
{
    if r == 0 {
        let k = clock.tsc_freq_khz as int;
        let res = crate::syscall::handlers::time::resolution(*clock);
        if 0 < k <= 1_000_000 {
            assert(res * k <= 1_000_000 < (res + 1) * k && 0 < res <= 1_000_000) by (nonlinear_arith)
                requires
                    res == 1_000_000int / k,
                    0 < k <= 1_000_000,
            ;
        }
        let ws = seq![0u64, res as u64];
        assert(range(final(um), args.arg1 as int, 16) =~= le_words(ws));
        lemma_word_of(final(um), args.arg1 as int, ws, 0);
        lemma_word_of(final(um), args.arg1 as int, ws, 1);
    }
}

} // verus!
