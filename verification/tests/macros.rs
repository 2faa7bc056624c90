use newimpcore::display::TokenString;
use newimpcore::parse::Parser;
use newimpcore::preprocessor::preprocessor;

fn expanded(code: &str) -> Result<String, String> {
    let (ast, tokens) = Parser::build_ast(code).unwrap();
    let out = preprocessor(ast, &tokens)?;
    Ok(out.to_string(&tokens))
}

#[test]
fn replacement_macro() {
    assert_eq!(expanded("#(replace 'EOF (- 0 1))\n(val x 'EOF)").unwrap(), "(val x (- 0 1))\n");
}

#[test]
fn inline_function_macro() {
    assert_eq!(expanded("#(replace ('ADD-ONE x) (+ x 1))\n('ADD-ONE 5)\n('ADD-ONE y)").unwrap(), "(+ 5 1)\n(+ y 1)\n");
}

#[test]
fn array_parameter_of_inline_macro() {
    assert_eq!(expanded("#(replace ('FIRST a[]) a[0])\n(val arr[] 3)\n('FIRST arr[])").unwrap(), "(val arr[] 3)\narr[0]\n");
}

#[test]
fn macros_inside_macros() {
    assert_eq!(expanded("#(replace 'ONE 1)\n#(replace 'TWO (+ 'ONE 'ONE))\n(check-expect 'TWO 2)").unwrap(), "(check-expect (+ 1 1) 2)\n");
}

#[test]
fn later_definition_shadows() {
    assert_eq!(expanded("#(replace 'A 1)\n'A\n#(replace 'A 2)\n(define f (x) (+ x 'A))").unwrap(), "1\n(define f (x) (+ x 2))\n");
}

#[test]
fn undef_removes_a_macro() {
    assert_eq!(expanded("#(replace 'A 1)\n(#undef 'A)\n'A").unwrap_err(), "Macro 'A not defined");
}

#[test]
fn unknown_inline_macro() {
    assert_eq!(expanded("('F 1)").unwrap_err(), "Inline function macro 'F not defined");
}

#[test]
fn recursive_macro_is_refused() {
    assert_eq!(expanded("#(replace 'A (+ 'A 1))\n'A").unwrap_err(), "Recursive macro, depth 100 exceeded on 'A");
}

#[test]
fn other_definitions_pass_unchanged() {
    assert_eq!(expanded("#(import stdio)\n(val x 1)").unwrap(), "#(import stdio)\n(val x 1)\n");
}

#[test]
fn no_macro_is_left_after_expansion() {
    let out = expanded(
        "#(replace 'N 3)\n#(replace ('TWICE x) (+ x x))\n#(replace ('AT a[] i) a[i])\n(val arr[] 'N)\n(define f (a[]) ('TWICE ('AT a[] 'N)))\n(check-assert ('TWICE 'N))",
    )
    .unwrap();
    assert!(!out.contains('\''));
    assert_eq!(out, "(val arr[] 3)\n(define f (a[ \u{8}]) (+ a[3] a[3]))\n(check-assert (+ 3 3))\n");
}
