use newimpcore::ast::{Def, Exp, Primitive};
use newimpcore::display::TokenString;
use newimpcore::parse::{str2lit, Parser};

fn failure(code: &str) -> String {
    match Parser::build_ast(code) {
        Ok(_) => panic!("expected a parse failure"),
        Err(e) => e,
    }
}

fn shown(code: &str) -> String {
    let (ast, tokens) = Parser::build_ast(code).expect("parses");
    ast.to_string(&tokens)
}

#[test]
fn parses_val_define_and_call() {
    let code = "(val x 5)\n(define add-one (x) (+ x 1))\n(add-one x)";
    let (ast, tokens) = Parser::build_ast(code).unwrap();
    assert_eq!(ast.len(), 3);
    assert!(matches!(ast[0], Def::Val(_, Exp::Literal(5))));
    assert!(matches!(ast[1], Def::Define(_, _, Exp::Binary(Primitive::Add, _, _))));
    assert!(matches!(ast[2], Def::Exp(Exp::Apply(_, _))));
    assert_eq!(ast.to_string(&tokens), "(val x 5)\n(define add-one (x) (+ x 1))\n(add-one x)\n");
}

#[test]
fn shows_each_form() {
    assert_eq!(shown("(if (< x 1) (print x) (println 2))"), "(if (< x 1) (print x) (println 2))\n");
    assert_eq!(shown("(while (> n 0) (set n (- n 1)))"), "(while (> n 0) (set n (- n 1)))\n");
    assert_eq!(shown("(begin 1 2 3)"), "(begin 1 2 3)\n");
    assert_eq!(shown("(f)"), "(f)\n");
    assert_eq!(shown("(check-expect (f 1) 2)"), "(check-expect (f 1) 2)\n");
    assert_eq!(shown("(check-assert (= 1 1))"), "(check-assert (= 1 1))\n");
    assert_eq!(shown("(match x (1 => 10) (2 => 20) (_ => 0))"), "(match x (1 => 10) (2 => 20) (_ => 0))\n");
    assert_eq!(shown("(~ (++ (-- x)))"), "(~ (++ (-- x)))\n");
}

#[test]
fn parses_arrays() {
    let code = "(define array-xor-swap (A[] i j)\n    (begin\n        (set A[i] (^ A[i] A[j]))\n        (set A[j] (^ A[j] A[i]))\n        (set A[i] (^ A[i] A[j]))\n        0))\n(val arr[] 10)\n(set arr[5] 5)\n(set arr[2] 2)\n(array-xor-swap arr[] 2 5)\n(check-expect arr[2] 5)\n(check-expect arr[5] 2)";
    let (ast, tokens) = Parser::build_ast(code).unwrap();
    assert_eq!(ast.len(), 7);
    assert_eq!(
        ast[0].to_string(&tokens),
        "(define array-xor-swap (A[ \x08] i j) (begin (set A[i] (^ A[i] A[j])) (set A[j] (^ A[j] A[i])) (set A[i] (^ A[i] A[j])) 0))"
    );
    assert_eq!(ast[1].to_string(&tokens), "(val arr[] 10)");
    assert_eq!(ast[2].to_string(&tokens), "(set arr[5] 5)");
    assert_eq!(ast[4].to_string(&tokens), "(array-xor-swap arr[] 2 5)");
    assert_eq!(ast[5].to_string(&tokens), "(check-expect arr[2] 5)");
}

#[test]
fn parses_literals() {
    assert_eq!(shown("(val x 0xff)"), "(val x 255)\n");
    assert_eq!(shown("(val x 0b101)"), "(val x 5)\n");
    assert_eq!(shown("(val x -5)"), "(val x -5)\n");
    assert_eq!(shown("(val x 0xffffffff)"), "(val x -1)\n");
    assert_eq!(shown("(val x -0x80000000)"), "(val x -2147483648)\n");
}

#[test]
fn skips_comments_and_blank_space() {
    assert_eq!(shown("; a comment\n  (val  y\t7) ; trailing\n"), "(val y 7)\n");
    let (ast, _) = Parser::build_ast("").unwrap();
    assert_eq!(ast.len(), 0);
}

#[test]
fn file_import_gives_no_definition() {
    let (ast, _) = Parser::build_ast("#(import \"lib.imp\")\n(val x 1)").unwrap();
    assert_eq!(ast.len(), 1);
}

#[test]
fn library_import_tokenizes_its_functions() {
    let (ast, tokens) = Parser::build_ast("#(import stdio)").unwrap();
    assert_eq!(ast.len(), 1);
    assert!(matches!(&ast[0], Def::Import(n) if n == "stdio"));
    let g = tokens.get("getc");
    assert_eq!(tokens.translate(&g), "getc");
    let p = tokens.get("printstr");
    assert_eq!(tokens.translate(&p), "printstr");
}

#[test]
fn macros_parse() {
    assert_eq!(shown("#(replace 'EOF (- 0 1))"), "#(replace 'EOF (- 0 1))\n");
    assert_eq!(shown("#(replace ('ADD-ONE x) (+ x 1))"), "#(replace ('ADD-ONE x) (+ x 1))\n");
    assert_eq!(shown("(#undef 'EOF)"), "#(undef 'EOF)\n");
}

#[test]
fn reports_syntax_errors() {
    assert_eq!(failure("(val x"), "Parsing Failed: unexpected input at 1:7");
    assert_eq!(failure("(val x 1)\n  (if 1 2)"), "Parsing Failed: unexpected input at 2:10");
    assert_eq!(failure(")"), "Parsing Failed: unexpected input at 1:1");
}

#[test]
fn reports_unclosed_string() {
    assert_eq!(failure("#(import \"foo"), "Parsing Failed: unterminated string at 1:10");
}

#[test]
fn reports_literal_out_of_range() {
    assert_eq!(
        failure("(val x 4294967296)"),
        "Parsing Failed: integer literal out of range at 1:8"
    );
}

#[test]
fn reports_non_static_match_cases() {
    assert_eq!(
        failure("(match x (y => 1) ((f 2) => 3) (4 => 5) (_ => 6))"),
        "Syntax error in (match x (y => 1) ((f 2) => 3) (4 => 5) (_ => 6))\nNon-static members [y, (f 2)] included in left side of match cases"
    );
}

#[test]
fn reports_unbound_library() {
    assert_eq!(failure("#(import foo)"), "Unbound libname foo");
}

#[test]
fn str2lit_reads_each_base() {
    assert_eq!(str2lit("42"), 42);
    assert_eq!(str2lit("0x10"), 16);
    assert_eq!(str2lit("-0b101"), -5);
    assert_eq!(str2lit("0xFF"), 255);
    assert_eq!(str2lit("2147483648"), -2147483648);
}

#[test]
fn stdin_import_reads_back_as_an_import() {
    let (ast, tokens) = Parser::build_ast("#(import stdin)").unwrap();
    assert!(matches!(&ast[0], Def::Import(n) if n == "stdin"));
    assert!(tokens.contains("getc"));
    assert!(!tokens.contains("putc"));
    assert_eq!(ast.to_string(&tokens), "#(import stdin)\n");
}
