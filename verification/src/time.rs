//! Clocks, driven by the CPU's time stamp counter.

use vstd::prelude::*;

verus! {

/// Nanoseconds in a second.
pub const NS_PER_SEC: u64 = 1_000_000_000;

/// What is known of time since boot.
#[derive(Clone, Copy, Debug, PartialEq, Eq, Structural)]
pub struct Clock {
    /// Ticks of the counter in a millisecond, or 0 if that is unknown.
    pub tsc_freq_khz: u32,
    /// The counter at boot.
    pub boot_tsc: u64,
    /// Wall clock time at boot.
    pub wall_clock_sec: u64,
    pub wall_clock_nsec: u32,
}

/// The low 64 bits of `n`.
pub open spec fn low64(n: int) -> int {
    n % 0x1_0000_0000_0000_0000
}

/// Ticks from boot until the counter shows `tsc`.
pub open spec fn ticks_since_boot(clock: Clock, tsc: u64) -> int {
    low64(tsc - clock.boot_tsc)
}

/// Nanoseconds from boot until the counter shows `tsc`, rounded down.
pub open spec fn elapsed_ns(clock: Clock, tsc: u64) -> int {
    if clock.tsc_freq_khz == 0 {
        0
    } else {
        low64(ticks_since_boot(clock, tsc) * 1_000_000 / clock.tsc_freq_khz as int)
    }
}

/// Nanoseconds since the epoch of the wall clock, the whole seconds of boot time left out.
pub open spec fn wall_ns(clock: Clock, tsc: u64) -> int {
    clock.wall_clock_nsec + elapsed_ns(clock, tsc)
}

/// Ticks that `ns` nanoseconds last, rounded up.
pub open spec fn ticks_for(clock: Clock, ns: u64) -> int {
    (ns * clock.tsc_freq_khz + 999_999) / 1_000_000
}

/// Starts the clock when the counter shows `tsc`. A fraction of a second that is out of range counts as 0.
pub fn init(tsc_freq_khz: u32, wall_clock_sec: u64, wall_clock_nsec: u32, tsc: u64) -> (r: Clock)
    ensures
        r == (Clock {
            tsc_freq_khz,
            boot_tsc: tsc,
            wall_clock_sec,
            wall_clock_nsec: if wall_clock_nsec >= NS_PER_SEC { 0 } else { wall_clock_nsec },
        }),
{
    let nsec: u32 = if wall_clock_nsec as u64 >= NS_PER_SEC { 0 } else { wall_clock_nsec };
    Clock { tsc_freq_khz, boot_tsc: tsc, wall_clock_sec, wall_clock_nsec: nsec }
}

/// Nanoseconds since boot.
pub fn monotonic_ns(clock: &Clock, tsc: u64) -> (r: u64)
    ensures
        r == elapsed_ns(*clock, tsc),
{
    let freq: u64 = clock.tsc_freq_khz as u64;
    if freq == 0 {
        return 0;
    }
    let delta: u64 = tsc.wrapping_sub(clock.boot_tsc);
    let whole_ms: u64 = delta / freq;
    let remainder: u64 = delta % freq;
    proof {
        assert(delta == ticks_since_boot(*clock, tsc));
        assert(remainder < freq);
        assert(whole_ms * 1_000_000 <= 0xffff_ffff_ffff_ffff * 1_000_000) by (nonlinear_arith)
            requires
                whole_ms <= 0xffff_ffff_ffff_ffff,
        ;
        let f = freq as int;
        let d = delta as int;
        let w = whole_ms as int;
        let m = remainder as int;
        vstd::arithmetic::div_mod::lemma_fundamental_div_mod(d, f);
        assert(d * 1_000_000 == f * (w * 1_000_000) + m * 1_000_000) by (nonlinear_arith)
            requires
                d == f * w + m,
        ;
        vstd::arithmetic::div_mod::lemma_hoist_over_denominator(m * 1_000_000, w * 1_000_000, f as nat);
        assert(w * 1_000_000 * f == f * (w * 1_000_000)) by (nonlinear_arith);
        assert(d * 1_000_000 / f == w * 1_000_000 + m * 1_000_000 / f);
        assert(m * 1_000_000 / f <= 1_000_000) by (nonlinear_arith)
            requires
                0 <= m < f,
        ;
        assert(0 <= m * 1_000_000 / f) by (nonlinear_arith)
            requires
                0 <= m < f,
        ;
    }
    let ns: u128 = whole_ms as u128 * 1_000_000u128 + (remainder as u128 * 1_000_000u128) / freq as u128;
    let r: u64 = #[verifier::truncate]
    (ns as u64);
    assert(r == ns % 0x1_0000_0000_0000_0000) by (bit_vector)
        requires
            r == ns as u64,
    ;
    r
}

/// Time since boot: seconds, and nanoseconds.
pub fn clock_monotonic(clock: &Clock, tsc: u64) -> (r: (u64, u32))
    ensures
        r.0 == elapsed_ns(*clock, tsc) / NS_PER_SEC as int,
        r.1 == elapsed_ns(*clock, tsc) % NS_PER_SEC as int,
{
    let ns: u64 = monotonic_ns(clock, tsc);
    (ns / NS_PER_SEC, (ns % NS_PER_SEC) as u32)
}

/// Wall clock time: seconds, and nanoseconds.
pub fn clock_realtime(clock: &Clock, tsc: u64) -> (r: (u64, u32))
    ensures
        r.0 == low64(clock.wall_clock_sec + wall_ns(*clock, tsc) / NS_PER_SEC as int),
        r.1 == wall_ns(*clock, tsc) % NS_PER_SEC as int,
{
    let elapsed: u64 = monotonic_ns(clock, tsc);
    let total: u128 = clock.wall_clock_nsec as u128 + elapsed as u128;
    let extra_sec: u64 = (total / NS_PER_SEC as u128) as u64;
    let nsec: u32 = (total % NS_PER_SEC as u128) as u32;
    (clock.wall_clock_sec.wrapping_add(extra_sec), nsec)
}

/// Nanoseconds per tick, at least 1.
pub fn clock_resolution_ns(clock: &Clock) -> (r: u64)
    ensures
        r == (if clock.tsc_freq_khz == 0 || clock.tsc_freq_khz > 1_000_000 { 1int } else { 1_000_000int / clock.tsc_freq_khz as int }),
{
    let freq: u64 = clock.tsc_freq_khz as u64;
    if freq == 0 {
        return 1;
    }
    let res: u64 = 1_000_000 / freq;
    proof {
        if freq > 1_000_000 {
            assert(1_000_000int / freq as int == 0) by (nonlinear_arith)
                requires
                    freq > 1_000_000,
            ;
        } else {
            assert(1_000_000int / freq as int >= 1) by (nonlinear_arith)
                requires
                    0 < freq <= 1_000_000,
            ;
        }
    }
    if res == 0 { 1 } else { res }
}

/// Whether a wait of `ns` nanoseconds that began when the counter showed `start` is over
/// when it shows `now`: at least so much time has passed, to the next tick. With an unknown frequency it is over at once.
pub fn busy_wait_ns(clock: &Clock, ns: u64, start: u64, now: u64) -> (over: bool)
    ensures
        over == (clock.tsc_freq_khz == 0 || low64(now - start) >= ticks_for(*clock, ns)),
        over && clock.tsc_freq_khz > 0 ==> low64(now - start) * 1_000_000 >= ns * clock.tsc_freq_khz,
{
    let freq: u64 = clock.tsc_freq_khz as u64;
    if freq == 0 {
        return true;
    }
    assert(ns * freq <= 0xffff_ffff_ffff_ffff * 0xffff_ffff) by (nonlinear_arith)
        requires
            ns <= 0xffff_ffff_ffff_ffff,
            freq <= 0xffff_ffff,
    ;
    let ticks: u128 = (ns as u128 * freq as u128 + 999_999) / 1_000_000u128;
    now.wrapping_sub(start) as u128 >= ticks
}

/// The clock never runs backwards between two readings of a counter that did not wrap
/// since boot, as long as the nanoseconds fit.
pub proof fn law_monotonic(clock: Clock, earlier: u64, later: u64)
    requires
        clock.boot_tsc <= earlier <= later,
        clock.tsc_freq_khz > 0,
        (later - clock.boot_tsc) * 1_000_000 / clock.tsc_freq_khz as int <= u64::MAX,
    ensures
        elapsed_ns(clock, earlier) <= elapsed_ns(clock, later),
{
    let a = (earlier - clock.boot_tsc) * 1_000_000;
    let b = (later - clock.boot_tsc) * 1_000_000;
    let f = clock.tsc_freq_khz as int;
    vstd::arithmetic::div_mod::lemma_div_is_ordered(a, b, f);
    assert(a / f >= 0) by (nonlinear_arith)
        requires
            a >= 0,
            f > 0,
    ;
}

} // verus!
