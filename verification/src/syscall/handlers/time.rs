//! Reading clocks, and sleeping.

use vstd::prelude::*;

use crate::memory::access::{from_le64, le_words, range, reachable, read_u64, write_words, wrote, Memory};
use crate::syscall::args::{SyscallArgs, SyscallResult};
use crate::syscall::errno::{EFAULT, EINVAL, ENOSYS};
use crate::time::{
    clock_monotonic, clock_realtime, clock_resolution_ns, elapsed_ns, low64, monotonic_ns, wall_ns, Clock,
    NS_PER_SEC,
};

verus! {

pub const CLOCK_REALTIME: i32 = 0;

pub const CLOCK_MONOTONIC: i32 = 1;

pub const CLOCK_MONOTONIC_RAW: i32 = 4;

pub const CLOCK_REALTIME_COARSE: i32 = 5;

pub const CLOCK_MONOTONIC_COARSE: i32 = 6;

pub const TIMER_ABSTIME: i32 = 1;

pub const RLIMIT_STACK: u64 = 3;

pub const RLIMIT_NOFILE: u64 = 7;

/// What a call that may sleep does.
#[derive(Clone, Copy, Debug, PartialEq, Eq, Structural)]
pub enum Sleep {
    /// It returns this at once.
    Return(i64),
    /// It waits `ns` nanoseconds, and then reports at `rem`, unless that is 0, that no time is left.
    Wait { ns: u64, rem: u64 },
}

/// The first word at `addr`.
pub open spec fn seconds_at<M: Memory>(um: &M, addr: u64) -> int {
    from_le64(range(um, addr as int, 8))
}

/// The second word at `addr`.
pub open spec fn nanoseconds_at<M: Memory>(um: &M, addr: u64) -> int {
    from_le64(range(um, addr + 8, 8))
}

/// The two words at `addr`, taken as signed numbers, are a time: not negative, the
/// nanoseconds less than a second.
pub open spec fn is_time<M: Memory>(um: &M, addr: u64) -> bool {
    seconds_at(um, addr) <= i64::MAX && nanoseconds_at(um, addr) < NS_PER_SEC
}

/// `ns`, or the largest number that fits.
pub open spec fn clamped(ns: int) -> u64 {
    if ns > u64::MAX { u64::MAX } else { ns as u64 }
}

/// The time at `addr` in nanoseconds.
pub open spec fn time_at<M: Memory>(um: &M, addr: u64) -> u64 {
    clamped(seconds_at(um, addr) * NS_PER_SEC + nanoseconds_at(um, addr))
}

fn to_ns(sec: u64, nsec: u64) -> (r: u64)
    requires
        nsec < NS_PER_SEC,
    ensures
        r == clamped(sec * NS_PER_SEC + nsec),
{
    let total: u128 = sec as u128 * NS_PER_SEC as u128 + nsec as u128;
    if total > u64::MAX as u128 {
        u64::MAX
    } else {
        total as u64
    }
}

fn read_time<M: Memory>(um: &M, addr: u64) -> (r: Option<u64>)
    requires
        reachable(um, addr, 16),
    ensures
        r is Some <==> is_time(um, addr),
        r matches Some(ns) ==> ns == time_at(um, addr),
{
    let sec: u64 = read_u64(um, addr);
    let nsec: u64 = read_u64(um, addr + 8);
    if sec > i64::MAX as u64 || nsec >= NS_PER_SEC {
        return None;
    }
    Some(to_ns(sec, nsec))
}

fn write_pair<M: Memory>(um: &mut M, addr: u64, a: u64, b: u64)
    requires
        reachable(old(um), addr, 16),
    ensures
        wrote(old(um), final(um), addr as int, le_words(seq![a, b])),
{
    let words: Vec<u64> = vec![a, b];
    assert(words@ =~= seq![a, b]);
    write_words(um, addr, words.as_slice());
}

/// Sleeps for the time at the first argument.
pub fn sys_nanosleep<M: Memory>(args: &SyscallArgs, um: &M) -> (r: Sleep)
    requires
        args.arg0 != 0 ==> reachable(um, args.arg0, 16),
    ensures
        r == (if args.arg0 == 0 {
            Sleep::Return(EFAULT)
        } else if !is_time(um, args.arg0) {
            Sleep::Return(EINVAL)
        } else {
            Sleep::Wait { ns: time_at(um, args.arg0), rem: args.arg1 }
        }),
{
    if args.arg0 == 0 {
        return Sleep::Return(EFAULT);
    }
    match read_time(um, args.arg0) {
        None => Sleep::Return(EINVAL),
        Some(ns) => Sleep::Wait { ns, rem: args.arg1 },
    }
}

/// What a sleep returns when it is over.
pub fn finish_sleep<M: Memory>(um: &mut M, rem: u64) -> (r: SyscallResult)
    requires
        rem != 0 ==> reachable(old(um), rem, 16),
    ensures
        r == 0,
        rem == 0 ==> *final(um) == *old(um),
        rem != 0 ==> wrote(old(um), final(um), rem as int, le_words(seq![0u64, 0u64])),
{
    if rem != 0 {
        write_pair(um, rem, 0, 0);
    }
    0
}

/// Writes the wall clock time, in seconds and microseconds.
pub fn sys_gettimeofday<M: Memory>(args: &SyscallArgs, um: &mut M, clock: &Clock, tsc: u64) -> (r: SyscallResult)
    requires
        args.arg0 != 0 ==> reachable(old(um), args.arg0, 16),
    ensures
        r == 0,
        args.arg0 == 0 ==> *final(um) == *old(um),
        args.arg0 != 0 ==> wrote(
            old(um),
            final(um),
            args.arg0 as int,
            le_words(
                seq![
                    low64(clock.wall_clock_sec + wall_ns(*clock, tsc) / NS_PER_SEC as int) as u64,
                    (wall_ns(*clock, tsc) % NS_PER_SEC as int / 1000) as u64,
                ],
            ),
        ),
{
    if args.arg0 == 0 {
        return 0;
    }
    let (sec, nsec) = clock_realtime(clock, tsc);
    write_pair(um, args.arg0, sec, (nsec / 1000) as u64);
    0
}

pub fn sys_getrlimit(_args: &SyscallArgs) -> (r: SyscallResult)
    ensures
        r == ENOSYS,
{
    ENOSYS
}

/// The clock shows wall clock time.
pub open spec fn is_realtime(id: i32) -> bool {
    id == CLOCK_REALTIME || id == CLOCK_REALTIME_COARSE
}

/// The clock shows the time since boot.
pub open spec fn is_monotonic(id: i32) -> bool {
    id == CLOCK_MONOTONIC || id == CLOCK_MONOTONIC_RAW || id == CLOCK_MONOTONIC_COARSE
}

/// What clock `id` shows: seconds and nanoseconds.
pub open spec fn shown(clock: Clock, tsc: u64, id: i32) -> Seq<u64> {
    if is_realtime(id) {
        seq![
            low64(clock.wall_clock_sec + wall_ns(clock, tsc) / NS_PER_SEC as int) as u64,
            (wall_ns(clock, tsc) % NS_PER_SEC as int) as u64,
        ]
    } else {
        seq![(elapsed_ns(clock, tsc) / NS_PER_SEC as int) as u64, (elapsed_ns(clock, tsc) % NS_PER_SEC as int) as u64]
    }
}

/// Writes what a clock shows.
pub fn sys_clock_gettime<M: Memory>(args: &SyscallArgs, um: &mut M, clock: &Clock, tsc: u64) -> (r: SyscallResult)
    requires
        args.arg1 != 0 && (is_realtime(args.arg0 as i32) || is_monotonic(args.arg0 as i32)) ==> reachable(old(um), args.arg1, 16),
    ensures
        ({
            let id = args.arg0 as i32;
            if args.arg1 == 0 {
                r == EFAULT && *final(um) == *old(um)
            } else if !is_realtime(id) && !is_monotonic(id) {
                r == EINVAL && *final(um) == *old(um)
            } else {
                r == 0 && wrote(old(um), final(um), args.arg1 as int, le_words(shown(*clock, tsc, id)))
            }
        }),
{
    let id: i32 = #[verifier::truncate]
    (args.arg0 as i32);
    if args.arg1 == 0 {
        return EFAULT;
    }
    let (sec, nsec) = if id == CLOCK_REALTIME || id == CLOCK_REALTIME_COARSE {
        clock_realtime(clock, tsc)
    } else if id == CLOCK_MONOTONIC || id == CLOCK_MONOTONIC_RAW || id == CLOCK_MONOTONIC_COARSE {
        clock_monotonic(clock, tsc)
    } else {
        return EINVAL;
    };
    assert(seq![sec, nsec as u64] =~= shown(*clock, tsc, id));
    write_pair(um, args.arg1, sec, nsec as u64);
    0
}

/// The nanoseconds of a clock's resolution.
pub open spec fn resolution(clock: Clock) -> int {
    if clock.tsc_freq_khz == 0 || clock.tsc_freq_khz > 1_000_000 {
        1
    } else {
        1_000_000int / clock.tsc_freq_khz as int
    }
}

/// Writes the resolution of a clock.
pub fn sys_clock_getres<M: Memory>(args: &SyscallArgs, um: &mut M, clock: &Clock) -> (r: SyscallResult)
    requires
        args.arg1 != 0 && (is_realtime(args.arg0 as i32) || is_monotonic(args.arg0 as i32)) ==> reachable(old(um), args.arg1, 16),
    ensures
        ({
            let id = args.arg0 as i32;
            if !is_realtime(id) && !is_monotonic(id) {
                r == EINVAL && *final(um) == *old(um)
            } else if args.arg1 == 0 {
                r == 0 && *final(um) == *old(um)
            } else {
                r == 0 && wrote(
                    old(um),
                    final(um),
                    args.arg1 as int,
                    le_words(seq![0u64, resolution(*clock) as u64]),
                )
            }
        }),
{
    let id: i32 = #[verifier::truncate]
    (args.arg0 as i32);
    if !(id == CLOCK_REALTIME || id == CLOCK_MONOTONIC || id == CLOCK_MONOTONIC_RAW || id == CLOCK_REALTIME_COARSE || id
        == CLOCK_MONOTONIC_COARSE) {
        return EINVAL;
    }
    if args.arg1 == 0 {
        return 0;
    }
    let res: u64 = clock_resolution_ns(clock);
    write_pair(um, args.arg1, 0, res);
    0
}

/// What clock `id` shows in nanoseconds.
pub open spec fn shown_ns(clock: Clock, tsc: u64, id: i32) -> u64 {
    if id == CLOCK_REALTIME {
        clamped(
            low64(clock.wall_clock_sec + wall_ns(clock, tsc) / NS_PER_SEC as int) * NS_PER_SEC + wall_ns(clock, tsc)
                % NS_PER_SEC as int,
        )
    } else {
        elapsed_ns(clock, tsc) as u64
    }
}

/// A clock by which one can sleep.
pub open spec fn can_sleep(id: i32) -> bool {
    id == CLOCK_REALTIME || id == CLOCK_MONOTONIC || id == CLOCK_MONOTONIC_RAW
}

/// Sleeps for a time, or until a clock shows it.
pub fn sys_clock_nanosleep<M: Memory>(args: &SyscallArgs, um: &M, clock: &Clock, tsc: u64) -> (r: Sleep)
    requires
        args.arg2 != 0 && can_sleep(args.arg0 as i32) ==> reachable(um, args.arg2, 16),
    ensures
        ({
            let id = args.arg0 as i32;
            let until = (args.arg1 as i32) & TIMER_ABSTIME != 0;
            r == (if !can_sleep(id) {
                Sleep::Return(EINVAL)
            } else if args.arg2 == 0 {
                Sleep::Return(EFAULT)
            } else if !is_time(um, args.arg2) {
                Sleep::Return(EINVAL)
            } else if !until {
                Sleep::Wait { ns: time_at(um, args.arg2), rem: args.arg3 }
            } else if time_at(um, args.arg2) > shown_ns(*clock, tsc, id) {
                Sleep::Wait { ns: (time_at(um, args.arg2) - shown_ns(*clock, tsc, id)) as u64, rem: 0 }
            } else {
                Sleep::Return(0)
            })
        }),
{
    let id: i32 = #[verifier::truncate]
    (args.arg0 as i32);
    let flags: i32 = #[verifier::truncate]
    (args.arg1 as i32);
    if !(id == CLOCK_REALTIME || id == CLOCK_MONOTONIC || id == CLOCK_MONOTONIC_RAW) {
        return Sleep::Return(EINVAL);
    }
    if args.arg2 == 0 {
        return Sleep::Return(EFAULT);
    }
    let ns: u64 = match read_time(um, args.arg2) {
        None => {
            return Sleep::Return(EINVAL);
        },
        Some(ns) => ns,
    };
    if flags & TIMER_ABSTIME != 0 {
        let now: u64 = if id == CLOCK_REALTIME {
            let (s, n) = clock_realtime(clock, tsc);
            to_ns(s, n as u64)
        } else {
            monotonic_ns(clock, tsc)
        };
        if ns > now {
            Sleep::Wait { ns: ns - now, rem: 0 }
        } else {
            Sleep::Return(0)
        }
    } else {
        Sleep::Wait { ns, rem: args.arg3 }
    }
}

/// The soft and the hard limit of a resource.
pub open spec fn limits(resource: u64) -> Seq<u64> {
    if resource == RLIMIT_STACK {
        seq![0x80_0000, u64::MAX]
    } else if resource == RLIMIT_NOFILE {
        seq![256, 256]
    } else {
        seq![u64::MAX, u64::MAX]
    }
}

/// Writes the limits of a resource. New limits are ignored.
pub fn sys_prlimit64<M: Memory>(args: &SyscallArgs, um: &mut M) -> (r: SyscallResult)
    requires
        args.arg3 != 0 ==> reachable(old(um), args.arg3, 16),
    ensures
        r == 0,
        args.arg3 == 0 ==> *final(um) == *old(um),
        args.arg3 != 0 ==> wrote(old(um), final(um), args.arg3 as int, le_words(limits(args.arg1))),
{
    if args.arg3 != 0 {
        let (soft, hard): (u64, u64) = if args.arg1 == RLIMIT_STACK {
            (0x80_0000, u64::MAX)
        } else if args.arg1 == RLIMIT_NOFILE {
            (256, 256)
        } else {
            (u64::MAX, u64::MAX)
        };
        assert(seq![soft, hard] =~= limits(args.arg1));
        write_pair(um, args.arg3, soft, hard);
    }
    0
}

} // verus!
