//! The report of the tests that the kernel runs on itself.

use vstd::prelude::*;
use vstd::string::*;

verus! {

/// A test that was run.
pub struct SelfTest {
    pub name: String,
    pub passed: bool,
}

/// Tests that belong together.
pub struct Suite {
    pub name: String,
    pub tests: Vec<SelfTest>,
}

/// Every test passed.
pub open spec fn tests_passed(tests: Seq<SelfTest>) -> bool {
    forall|i: int| 0 <= i < tests.len() ==> (#[trigger] tests[i]).passed
}

/// Every test of every suite passed.
pub open spec fn suites_passed(suites: Seq<Suite>) -> bool {
    forall|i: int| 0 <= i < suites.len() ==> tests_passed((#[trigger] suites[i]).tests@)
}

/// What is said of one test.
pub open spec fn test_line(t: SelfTest) -> Seq<char> {
    "  "@ + t.name@ + " ... "@ + (if t.passed { "ok\n"@ } else { "FAIL\n"@ })
}

/// What is said of the first `n` tests.
pub open spec fn test_lines(tests: Seq<SelfTest>, n: int) -> Seq<char>
    decreases n,
{
    if n <= 0 { Seq::empty() } else { test_lines(tests, n - 1) + test_line(tests[n - 1]) }
}

/// What is said of a suite.
pub open spec fn suite_lines(s: Suite) -> Seq<char> {
    "[suite] "@ + s.name@ + "\n"@ + test_lines(s.tests@, s.tests@.len() as int)
}

/// What is said of the first `n` suites.
pub open spec fn all_lines(suites: Seq<Suite>, n: int) -> Seq<char>
    decreases n,
{
    if n <= 0 { Seq::empty() } else { all_lines(suites, n - 1) + suite_lines(suites[n - 1]) }
}

/// The whole report.
pub open spec fn report(suites: Seq<Suite>) -> Seq<char> {
    "\n=== kernel selftests ===\n"@ + all_lines(suites, suites.len() as int) + (if suites_passed(suites) {
        "=== all tests passed ===\n"@
    } else {
        "=== SOME TESTS FAILED ===\n"@
    })
}

/// Reports a suite. Gives back whether all its tests passed.
fn run_suite(suite: &Suite, out: &mut String) -> (passed: bool)
    ensures
        final(out)@ == old(out)@ + suite_lines(*suite),
        passed == tests_passed(suite.tests@),
{
    out.append("[suite] ");
    out.append(suite.name.as_str());
    out.append("\n");
    let ghost head = out@;
    let mut passed: bool = true;
    let mut i: usize = 0;
    assert(head + test_lines(suite.tests@, 0) =~= head);
    while i < suite.tests.len()
        invariant
            i <= suite.tests@.len(),
            out@ == head + test_lines(suite.tests@, i as int),
            passed == forall|k: int| 0 <= k < i ==> (#[trigger] suite.tests@[k]).passed,
        decreases suite.tests@.len() - i,
    {
        let test = &suite.tests[i];
        out.append("  ");
        out.append(test.name.as_str());
        out.append(" ... ");
        if test.passed {
            out.append("ok\n");
        } else {
            out.append("FAIL\n");
            passed = false;
        }
        i += 1;
        assert(out@ =~= head + test_lines(suite.tests@, i as int));
    }
    assert(out@ =~= old(out)@ + suite_lines(*suite));
    passed
}

/// Reports all suites. Gives back the report, and whether all tests passed.
pub fn run_all(suites: &Vec<Suite>) -> (r: (String, bool))
    ensures
        r.0@ == report(suites@),
        r.1 == suites_passed(suites@),
{
    let mut out = String::from_str("\n=== kernel selftests ===\n");
    let ghost head = out@;
    let mut passed: bool = true;
    let mut i: usize = 0;
    assert(head + all_lines(suites@, 0) =~= head);
    while i < suites.len()
        invariant
            i <= suites@.len(),
            out@ == head + all_lines(suites@, i as int),
            passed == forall|k: int| 0 <= k < i ==> tests_passed((#[trigger] suites@[k]).tests@),
        decreases suites@.len() - i,
    {
        let ok = run_suite(&suites[i], &mut out);
        passed = passed && ok;
        i += 1;
        assert(out@ =~= head + all_lines(suites@, i as int));
    }
    if passed {
        out.append("=== all tests passed ===\n");
    } else {
        out.append("=== SOME TESTS FAILED ===\n");
    }
    assert(out@ =~= report(suites@));
    (out, passed)
}

} // verus!
