//! What the compiler decides around running compiled code: whether its engine may run again,
//! how a test's outcome reads, and the summary of the tests.
use vstd::prelude::*;

use crate::ast::Def;
use crate::display::{def_names_ok, def_text};
use crate::env::Tokens;
use crate::text::{nat_digits, nat_text, push_chars};

verus! {

/// How compiled code is run: compiled just in time, interpreted, or no more (a just-in-time
/// engine runs once).
#[derive(Clone, Copy, PartialEq, Eq, Debug, Structural)]
pub enum ExecutionMode {
    Jit,
    Interpreter,
    Dead,
}

/// The mode after the engine has been used once: an interpreter can run again, a
/// just-in-time engine cannot. Using a dead engine is an error of the caller.
pub fn verify_engine(mode: &mut ExecutionMode)
    requires
        *old(mode) != ExecutionMode::Dead,
    ensures
        *final(mode) == (if *old(mode) == ExecutionMode::Interpreter {
            ExecutionMode::Interpreter
        } else {
            ExecutionMode::Dead
        }),
{
    match *mode {
        ExecutionMode::Interpreter => {},
        _ => *mode = ExecutionMode::Dead,
    }
}

/// The message of a failed `check-assert`.
pub open spec fn assert_failure_text(def_txt: Seq<char>) -> Seq<char> {
    "Failed test "@ + def_txt + " -> assertion false"@
}

/// The message of a failed `check-expect`.
pub open spec fn expect_failure_text(def_txt: Seq<char>, lhs: u64, rhs: u64) -> Seq<char> {
    "Failed test"@ + " "@ + def_txt + ", got '"@ + nat_text(lhs as nat) + "' and expected '"@ + nat_text(rhs as nat) + "'"@
}

/// The outcome of a `check-assert` whose condition evaluated to `res`: it fails on zero.
pub fn check_assert_outcome(res: u64, contents: &Def, tokens: &Tokens) -> (r: Result<(), String>)
    requires
        tokens.wf(),
        def_names_ok(contents@, tokens.symbols().len()),
    ensures
        res != 0 ==> r is Ok,
        res == 0 ==> (r matches Err(m) && m@ == assert_failure_text(def_text(contents@, tokens.symbols()))),
{
    if res == 0 {
        let mut m = "Failed test ".to_owned();
        let t = contents.to_string(tokens);
        m.append(t.as_str());
        m.append(" -> assertion false");
        Err(m)
    } else {
        Ok(())
    }
}

/// The outcome of a `check-expect` whose sides evaluated to `lhs` and `rhs`: it fails when
/// they differ.
pub fn check_expect_outcome(lhs: u64, rhs: u64, contents: &Def, tokens: &Tokens) -> (r: Result<(), String>)
    requires
        tokens.wf(),
        def_names_ok(contents@, tokens.symbols().len()),
    ensures
        lhs == rhs ==> r is Ok,
        lhs != rhs ==> (r matches Err(m) && m@ == expect_failure_text(def_text(contents@, tokens.symbols()), lhs, rhs)),
{
    if lhs != rhs {
        let mut m = "Failed test".to_owned();
        m.append(" ");
        let t = contents.to_string(tokens);
        m.append(t.as_str());
        m.append(", got '");
        push_chars(&mut m, &nat_digits(lhs));
        m.append("' and expected '");
        push_chars(&mut m, &nat_digits(rhs));
        m.append("'");
        Err(m)
    } else {
        Ok(())
    }
}

/// The lines that report the tests: each failure, then how many passed. With no tests there
/// is nothing to report; in quiet mode a full pass is not reported.
pub open spec fn summary_lines(successful: nat, fails: Seq<Seq<char>>, quiet_mode: bool) -> Seq<Seq<char>> {
    let n = successful + fails.len();
    if n == 0 {
        Seq::empty()
    } else if fails.len() == 0 {
        if quiet_mode {
            Seq::empty()
        } else {
            seq!["All "@ + nat_text(successful) + " tests passed"@]
        }
    } else {
        fails + seq!["Passed "@ + nat_text(successful) + " of "@ + nat_text(n) + " tests"@]
    }
}

/// The lines that report the tests (see `summary_lines`).
pub fn summarize_tests(successful: usize, fail_messages: &Vec<String>, quiet_mode: bool) -> (r: Vec<String>)
    requires
        successful + fail_messages@.len() <= usize::MAX,
    ensures
        r@.map_values(|s: String| s@) == summary_lines(successful as nat, fail_messages@.map_values(|s: String| s@), quiet_mode),
{
    let ghost fails = fail_messages@.map_values(|s: String| s@);
    let n_tests = successful + fail_messages.len();
    let mut lines: Vec<String> = Vec::new();
    if n_tests != 0 {
        for k in 0..fail_messages.len()
            invariant
                fails == fail_messages@.map_values(|s: String| s@),
                lines@.map_values(|s: String| s@) == fails.take(k as int),
        {
            let line = fail_messages[k].clone();
            let ghost before = lines@;
            lines.push(line);
            assert(line@ == fails[k as int]);
            assert(lines@.map_values(|s: String| s@) =~= before.map_values(|s: String| s@).push(line@));
            assert(fails.take(k + 1) =~= fails.take(k as int).push(fails[k as int]));
        }
        assert(fails.take(fail_messages@.len() as int) =~= fails);
        if fail_messages.len() == 0 {
            if !quiet_mode {
                let mut line = "All ".to_owned();
                push_chars(&mut line, &nat_digits(successful as u64));
                line.append(" tests passed");
                lines.push(line);
            }
        } else {
            let mut line = "Passed ".to_owned();
            push_chars(&mut line, &nat_digits(successful as u64));
            line.append(" of ");
            push_chars(&mut line, &nat_digits(n_tests as u64));
            line.append(" tests");
            lines.push(line);
        }
    }
    assert(lines@.map_values(|s: String| s@) =~= summary_lines(successful as nat, fails, quiet_mode));
    lines
}

/// The tests run so far: how many passed, and the messages of those that failed.
pub struct TestTally {
    pub successful: usize,
    pub fail_messages: Vec<String>,
}

impl TestTally {
    pub fn new() -> (r: Self)
        ensures
            r.successful == 0,
            r.fail_messages@.len() == 0,
    {
        TestTally { successful: 0, fail_messages: Vec::new() }
    }

    /// Counts one test's outcome.
    pub fn record(&mut self, outcome: Result<(), String>)
        requires
            old(self).successful + old(self).fail_messages@.len() < usize::MAX,
        ensures
            outcome is Ok ==> final(self).successful == old(self).successful + 1 && final(self).fail_messages@ == old(self).fail_messages@,
            outcome matches Err(m) ==> (final(self).successful == old(self).successful && final(self).fail_messages@ == old(self).fail_messages@.push(m)),
    {
        match outcome {
            Ok(()) => self.successful = self.successful + 1,
            Err(m) => self.fail_messages.push(m),
        }
    }
}

} // verus!
