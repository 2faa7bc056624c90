use newimpcore::ast::{Def, Exp};
use newimpcore::env::{map_restore, Env, Type};
use newimpcore::parse::Parser;
use newimpcore::types::import_ready;

fn env_and_defs(code: &str) -> (Env, Vec<Def>) {
    let (ast, tokens) = Parser::build_ast(code).unwrap();
    (Env::new(tokens), ast)
}

#[test]
fn val_binds_by_spelling() {
    let (mut env, ast) = env_and_defs("(val x 1)\n(val arr[] 10)");
    assert_eq!(env.bind_defty(&ast[0]).unwrap().len(), 0);
    assert_eq!(env.bind_defty(&ast[1]).unwrap().len(), 0);
    let x = env.tokens.get("x");
    let arr = env.tokens.get("arr[");
    assert_eq!(*env.varty(&x).unwrap(), Type::Int);
    assert_eq!(*env.varty(&arr).unwrap(), Type::Pointer);
    assert!(env.is_pointer(arr));
    assert!(!env.is_pointer(x));
}

#[test]
fn define_binds_parameters_until_restored() {
    let (mut env, ast) = env_and_defs("(val a 1)\n(define f (a b[]) a)");
    env.bind_defty(&ast[0]).unwrap();
    let old = env.bind_defty(&ast[1]).unwrap();
    let a = env.tokens.get("a");
    let b = env.tokens.get("b[");
    let f = env.tokens.get("f");
    assert_eq!(env.funty(&f).unwrap(), &vec![(a, Type::Int), (b, Type::Pointer)]);
    assert_eq!(*env.varty(&b).unwrap(), Type::Pointer);
    assert_eq!(old.len(), 2);
    assert!(old.contains(&(a, Some(Type::Int))));
    assert!(old.contains(&(b, None)));
    map_restore(&mut env.globaltys, old);
    assert_eq!(*env.varty(&a).unwrap(), Type::Int);
    assert_eq!(env.varty(&b).unwrap_err(), "Could not find type of variable b[");
}

#[test]
fn well_typed_calls_pass() {
    let (mut env, ast) = env_and_defs("(val arr[] 3)\n(define f (x a[]) x)\n(f 1 arr[])");
    env.bind_defty(&ast[0]).unwrap();
    let old = env.bind_defty(&ast[1]).unwrap();
    map_restore(&mut env.globaltys, old);
    assert_eq!(env.bind_defty(&ast[2]).unwrap().len(), 0);
}

#[test]
fn badly_typed_call_is_refused() {
    let (mut env, ast) = env_and_defs("(val n 3)\n(define f (x a[]) x)\n(f n 2)");
    env.bind_defty(&ast[0]).unwrap();
    let old = env.bind_defty(&ast[1]).unwrap();
    map_restore(&mut env.globaltys, old);
    assert_eq!(
        env.bind_defty(&ast[2]).unwrap_err(),
        "In call (f n 2)\nContract (f x a[]) called with bad types (f int int)"
    );
}

#[test]
fn call_of_unknown_function_is_refused() {
    let (mut env, ast) = env_and_defs("(g 1)");
    assert_eq!(env.bind_defty(&ast[0]).unwrap_err(), "Could not find type of function (g ...)");
}

#[test]
fn call_with_unbound_variable_is_refused() {
    let (mut env, ast) = env_and_defs("(define f (x) x)\n(f y)");
    let old = env.bind_defty(&ast[0]).unwrap();
    map_restore(&mut env.globaltys, old);
    assert_eq!(env.bind_defty(&ast[1]).unwrap_err(), "Could not find type of variable y");
}

#[test]
fn import_gives_library_function_types() {
    let (mut env, ast) = env_and_defs("#(import stdio)\n(val s[] 4)\n(printstr s[])\n(getc 1)");
    assert_eq!(env.bind_defty(&ast[0]).unwrap().len(), 0);
    env.bind_defty(&ast[1]).unwrap();
    assert_eq!(env.bind_defty(&ast[2]).unwrap().len(), 0);
    assert_eq!(
        env.bind_defty(&ast[3]).unwrap_err(),
        "In call (getc 1)\nContract (getc ) called with bad types (getc int)"
    );
    let p = env.tokens.get("printstr");
    assert_eq!(env.funty(&p).unwrap(), &vec![(-1, Type::Pointer)]);
}

#[test]
fn welltyped_reports_pointer_parameters() {
    let (mut env, ast) = env_and_defs("(define f (a[]) 0)\n(val v 1)");
    let old = env.bind_defty(&ast[0]).unwrap();
    map_restore(&mut env.globaltys, old);
    env.bind_defty(&ast[1]).unwrap();
    let f = env.tokens.get("f");
    let v = env.tokens.get("v");
    let args = vec![Exp::Var(v, None)];
    assert_eq!(
        env.welltyped(&f, &args).unwrap_err(),
        "In call (f v)\nContract (f a[]) called with bad types (f int)"
    );
    assert_eq!(Type::Pointer.to_string(), "ptr");
    assert_eq!(Type::Int.to_string(), "int");
}

#[test]
fn imports_are_ready_once_parsed() {
    let (ast, tokens) = Parser::build_ast("#(import stdio)\n(val x 1)").unwrap();
    assert!(import_ready(&ast[0], &tokens));
    assert!(import_ready(&ast[1], &tokens));
    let (_, bare) = Parser::build_ast("(val x 1)").unwrap();
    assert!(!import_ready(&ast[0], &bare));
    assert!(!import_ready(&Def::Import("nope".to_string()), &tokens));
}
