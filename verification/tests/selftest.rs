use sumi_kernel::selftest::{run_all, SelfTest, Suite};

fn suite(name: &str, tests: &[(&str, bool)]) -> Suite {
    let tests = tests.iter().map(|&(name, passed)| SelfTest { name: name.to_string(), passed }).collect();
    Suite { name: name.to_string(), tests }
}

#[test]
fn all_tests_pass() {
    let suites = vec![suite("fd_table", &[("console_fds_preallocated", true), ("alloc_free_lowest", true)]), suite("none", &[])];
    let (text, passed) = run_all(&suites);
    assert!(passed);
    assert_eq!(
        text,
        "\n=== kernel selftests ===\n[suite] fd_table\n  console_fds_preallocated ... ok\n  alloc_free_lowest ... ok\n[suite] none\n=== all tests passed ===\n"
    );
}

#[test]
fn one_failure_fails_the_run() {
    let suites = vec![suite("a", &[("x", false)]), suite("b", &[("y", true)])];
    let (text, passed) = run_all(&suites);
    assert!(!passed);
    assert_eq!(
        text,
        "\n=== kernel selftests ===\n[suite] a\n  x ... FAIL\n[suite] b\n  y ... ok\n=== SOME TESTS FAILED ===\n"
    );
}
