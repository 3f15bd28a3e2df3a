use sumi_kernel::time::{
    busy_wait_ns, clock_monotonic, clock_realtime, clock_resolution_ns, init, monotonic_ns,
};

#[test]
fn test_monotonic_ns_zero_at_boot() {
    let clock = init(1_000_000, 0, 0, 1_000_000); // 1 GHz
    assert_eq!(monotonic_ns(&clock, 1_000_000), 0, "monotonic_ns must be 0 when TSC has not advanced since boot");
}

#[test]
fn test_monotonic_ns_basic() {
    // freq = 1000 kHz = 1 MHz.  1_000_000 ticks => 1 second = 1_000_000_000 ns.
    let boot = 500_000_000u64;
    let clock = init(1000, 0, 0, boot);
    assert_eq!(
        monotonic_ns(&clock, boot + 1_000_000),
        1_000_000_000,
        "1M ticks at 1 MHz must equal 1 second in nanoseconds"
    );
}

#[test]
fn test_monotonic_ns_large_delta() {
    // freq = 3_000_000 kHz = 3 GHz (3e9 ticks/second).
    let boot = 0u64;
    let clock = init(3_000_000, 0, 0, boot);
    let expected_ns: u64 = 1_000_000_000_000_000_000u64; // 1e18 ns = 1e9 seconds
    assert_eq!(
        monotonic_ns(&clock, boot + 3_000_000_000_000_000_000u64),
        expected_ns,
        "large TSC delta must not overflow: expected 1e18 ns"
    );
}

#[test]
fn test_clock_realtime() {
    let boot = 100_000u64;
    let clock = init(1000, 1_700_000_000, 500_000_000, boot);
    let (sec, nsec) = clock_realtime(&clock, boot + 1_000_000); // 1 second elapsed at 1 MHz
    assert_eq!(sec, 1_700_000_001, "realtime seconds must advance by 1 after 1 second elapsed");
    assert_eq!(nsec, 500_000_000, "realtime nanosecond fraction must carry over unchanged");
}

#[test]
fn test_clock_resolution_high_freq() {
    let clock = init(3_000_000, 0, 0, 0);
    assert_eq!(clock_resolution_ns(&clock), 1, "sub-nanosecond TSC tick must round up to 1 ns resolution");
}

#[test]
fn test_clock_resolution_low_freq() {
    let clock = init(1000, 0, 0, 0);
    assert_eq!(clock_resolution_ns(&clock), 1000, "1 MHz TSC must report 1000 ns per tick resolution");
}

#[test]
fn test_freq_zero_no_panic() {
    // freq=0: all time functions must return 0 or safe defaults without panicking.
    let clock = init(0, 0, 0, 0);
    assert_eq!(monotonic_ns(&clock, 0), 0, "monotonic_ns with freq=0 must return 0");
    let (sec, nsec) = clock_monotonic(&clock, 0);
    assert_eq!(sec, 0, "clock_monotonic sec with freq=0 must be 0");
    assert_eq!(nsec, 0, "clock_monotonic nsec with freq=0 must be 0");
    assert_eq!(clock_resolution_ns(&clock), 1, "clock_resolution_ns with freq=0 must return 1");
}

#[test]
fn test_busy_wait_returns_with_zero_freq() {
    // With freq=0 the wait is over at once.
    let clock = init(0, 0, 0, 0);
    assert!(busy_wait_ns(&clock, 1_000_000_000, 0, 0));
}

#[test]
fn test_init_clamps_invalid_nsec() {
    let clock = init(1000, 0, 2_000_000_000, 0);
    assert_eq!(clock.wall_clock_nsec, 0, "wall_clock_nsec >= 1e9 must be clamped to 0 by init");
}

#[test]
fn busy_wait_ends_once_the_ticks_have_passed() {
    let clock = init(1000, 0, 0, 0);
    assert!(!busy_wait_ns(&clock, 5_000, 100, 104));
    assert!(busy_wait_ns(&clock, 5_000, 100, 105));
    assert!(busy_wait_ns(&clock, 5_000, u64::MAX, 4));
    assert!(!busy_wait_ns(&clock, 1, 100, 100));
    assert!(busy_wait_ns(&clock, 1, 100, 101));
    assert!(!busy_wait_ns(&clock, 5_001, 100, 105));
    assert!(!busy_wait_ns(&init(u32::MAX, 0, 0, 0), u64::MAX, 0, u64::MAX));
    assert!(busy_wait_ns(&clock, 0, 100, 100));
}

#[test]
fn monotonic_time_wraps_with_the_counter() {
    let clock = init(1000, 0, 0, u64::MAX);
    assert_eq!(monotonic_ns(&clock, 1), 2_000);
    assert_eq!(clock_monotonic(&clock, 1_500_000 - 1), (1, 500_000_000));
}
