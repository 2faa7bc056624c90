use newimpcore::cli::{args_complete, parse_args};
use newimpcore::compiler::{check_assert_outcome, check_expect_outcome, summarize_tests, verify_engine, ExecutionMode, TestTally};
use newimpcore::parse::Parser;

fn args(xs: &[&str]) -> Vec<String> {
    xs.iter().map(|s| s.to_string()).collect()
}

#[test]
fn summary_of_tests() {
    assert!(summarize_tests(0, &vec![], false).is_empty());
    assert_eq!(summarize_tests(3, &vec![], false), vec!["All 3 tests passed".to_string()]);
    assert!(summarize_tests(3, &vec![], true).is_empty());
    assert_eq!(
        summarize_tests(1, &vec!["bad".to_string(), "worse".to_string()], true),
        vec!["bad".to_string(), "worse".to_string(), "Passed 1 of 3 tests".to_string()]
    );
}

#[test]
fn test_outcomes() {
    let (ast, tokens) = Parser::build_ast("(check-expect (+ 1 1) 3)\n(check-assert 0)").unwrap();
    assert!(check_expect_outcome(2, 2, &ast[0], &tokens).is_ok());
    assert_eq!(
        check_expect_outcome(2, 3, &ast[0], &tokens).unwrap_err(),
        "Failed test (check-expect (+ 1 1) 3), got '2' and expected '3'"
    );
    assert!(check_assert_outcome(1, &ast[1], &tokens).is_ok());
    assert_eq!(check_assert_outcome(0, &ast[1], &tokens).unwrap_err(), "Failed test (check-assert 0) -> assertion false");
}

#[test]
fn tally_counts_tests() {
    let mut t = TestTally::new();
    t.record(Ok(()));
    t.record(Err("no".to_string()));
    t.record(Ok(()));
    assert_eq!(t.successful, 2);
    assert_eq!(t.fail_messages, vec!["no".to_string()]);
}

#[test]
fn engine_runs_once_unless_interpreted() {
    let mut m = ExecutionMode::Jit;
    verify_engine(&mut m);
    assert_eq!(m, ExecutionMode::Dead);
    let mut i = ExecutionMode::Interpreter;
    verify_engine(&mut i);
    assert_eq!(i, ExecutionMode::Interpreter);
}

#[test]
fn command_line_flags() {
    let a = args(&["impcore", "-q", "prog.imp", "-I", "lib", "--ast", "other.imp"]);
    assert!(args_complete(&a));
    let f = parse_args(&a).unwrap();
    assert!(f.quiet);
    assert!(f.print_preprocessed_ast);
    assert!(!f.print_raw_ast && !f.debug && !f.llvm);
    assert_eq!(f.entryfile, "prog.imp");
    assert_eq!(f.dirs, vec!["lib".to_string()]);
    let e = args(&["impcore", "-e", "-d", "-l", "x.imp"]);
    let f = parse_args(&e).unwrap();
    assert!(f.print_raw_ast && f.debug && f.llvm);
}

#[test]
fn command_line_without_file() {
    assert!(parse_args(&args(&["impcore", "-q"])).is_none());
    assert!(!args_complete(&args(&["impcore", "x.imp", "-I"])));
    assert!(!args_complete(&args(&["impcore", "-q", "-f"])));
    assert!(!args_complete(&args(&["impcore", "--filename"])));
}

#[test]
fn file_named_by_option() {
    let f = parse_args(&args(&["impcore", "-f", "prog.imp"])).unwrap();
    assert_eq!(f.entryfile, "prog.imp");
    let f = parse_args(&args(&["impcore", "first.imp", "--filename", "prog.imp", "-q"])).unwrap();
    assert_eq!(f.entryfile, "prog.imp");
    assert!(f.quiet);
}
