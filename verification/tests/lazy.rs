use newimpcore::ast::Def;
use newimpcore::display::TokenString;
use newimpcore::env::{Tokens, IT};
use newimpcore::lazygraph::{Dep, GetDeps, LazyGraph, TheIt};
use newimpcore::parse::Parser;

fn shown(defs: &[Def], tokens: &Tokens) -> Vec<String> {
    defs.iter().map(|d| d.to_string(tokens)).collect()
}

#[test]
fn definition_waits_for_what_it_uses() {
    let (ast, tokens) = Parser::build_ast("(define f (x) (g x))\n(define g (x) (+ x 1))\n(f 1)").unwrap();
    let mut ast = ast.into_iter();
    let mut graph = LazyGraph::new();
    let first = graph.bump(ast.next().unwrap(), &tokens).ok().unwrap();
    assert!(first.is_empty());
    let second = graph.bump(ast.next().unwrap(), &tokens).ok().unwrap();
    assert_eq!(shown(&second, &tokens), vec!["(define g (x) (+ x 1))", "(define f (x) (g x))"]);
    let third = graph.bump(ast.next().unwrap(), &tokens).ok().unwrap();
    assert_eq!(shown(&third, &tokens), vec!["(f 1)"]);
    let g = tokens.get("g");
    let f = tokens.get("f");
    assert_eq!(graph.already_resolved(&tokens), "fun(g) fun(f)");
    assert!(g != f);
}

#[test]
fn top_level_expression_with_missing_names_is_refused() {
    let (ast, tokens) = Parser::build_ast("(h y)").unwrap();
    let mut graph = LazyGraph::new();
    let def = ast.into_iter().next().unwrap();
    let err = graph.bump(def, &tokens).err().unwrap();
    assert_eq!(err.1.len(), 2);
    let h = tokens.get("h");
    let y = tokens.get("y");
    assert!(err.1.contains(&Dep::Function(h)));
    assert!(err.1.contains(&Dep::Global(y)));
    assert_eq!(
        graph.explain(&err, &tokens),
        "Cannot compile top level expression: (h y)\nUnbound functions: 'h'\nUnbound globals: y"
    );
}

#[test]
fn explain_follows_waiting_functions() {
    let (ast, tokens) = Parser::build_ast("(define f (x) (+ (g x) z[3]))\n(f 2)").unwrap();
    let mut ast = ast.into_iter();
    let mut graph = LazyGraph::new();
    assert!(graph.bump(ast.next().unwrap(), &tokens).ok().unwrap().is_empty());
    let err = graph.bump(ast.next().unwrap(), &tokens).err().unwrap();
    let msg = graph.explain(&err, &tokens);
    assert!(
        msg == "Cannot compile top level expression: (f 2)\nUnbound functions: 'g'\nUnbound globals: z[]"
    );
}

#[test]
fn globals_resolve_in_order() {
    let (ast, tokens) = Parser::build_ast("(val y (+ x 1))\n(val x 1)\ny").unwrap();
    let mut ast = ast.into_iter();
    let mut graph = LazyGraph::new();
    assert!(graph.bump(ast.next().unwrap(), &tokens).ok().unwrap().is_empty());
    let ready = graph.bump(ast.next().unwrap(), &tokens).ok().unwrap();
    assert_eq!(shown(&ready, &tokens), vec!["(val x 1)", "(val y (+ x 1))"]);
    let y = tokens.get("y");
    let x = tokens.get("x");
    assert_eq!(graph.already_resolved(&tokens), format!("val(x, {}) val(y, {})", x, y));
    let last = graph.bump(ast.next().unwrap(), &tokens).ok().unwrap();
    assert_eq!(shown(&last, &tokens), vec!["y"]);
}

#[test]
fn redefinition_has_no_effect() {
    let code = "(define add-one (x) (+ x 1))\n(define add-two (x) (add-one (add-one x)))\n(add-two 0)\n(define add-one (x) (+ x 100))\n(add-two 0)";
    let (ast, tokens) = Parser::build_ast(code).unwrap();
    let mut graph = LazyGraph::new();
    let mut counts = vec![];
    for def in ast {
        counts.push(graph.bump(def, &tokens).ok().unwrap().len());
    }
    assert_eq!(counts, vec![1, 1, 1, 0, 1]);
}

#[test]
fn checks_and_imports_pass_through() {
    let (ast, tokens) = Parser::build_ast("#(import stdio)\n(check-expect (getc) 1)\n(getc)").unwrap();
    let mut graph = LazyGraph::new();
    let mut counts = vec![];
    for def in ast {
        counts.push(graph.bump(def, &tokens).ok().unwrap().len());
    }
    assert_eq!(counts, vec![1, 1, 1]);
    assert_eq!(graph.already_resolved(&tokens), "fun(getc) fun(printstr)");
}

#[test]
fn resolve_lib_refuses_unknown_library() {
    let tokens = Tokens::new();
    let mut graph = LazyGraph::new();
    assert_eq!(graph.resolve_lib("nope", &tokens).unwrap_err(), "Unbound libname nope");
}

#[test]
fn recursive_function_waits_for_itself() {
    let (ast, tokens) = Parser::build_ast("(define loop (n) (loop n))").unwrap();
    let mut graph = LazyGraph::new();
    let def = ast.into_iter().next().unwrap();
    assert!(graph.bump(def, &tokens).ok().unwrap().is_empty());
}

#[test]
fn deps_of_definitions() {
    let (ast, tokens) = Parser::build_ast("(define f (a b[]) (begin (set c a) (g b[]) (match a (1 => d) (_ => a))))").unwrap();
    let (d, mut uses) = ast[0].deps().unwrap();
    let f = tokens.get("f");
    assert_eq!(d, Dep::Function(f));
    uses.sort_by_key(|d| match d {
        Dep::Function(n) => (0, *n),
        Dep::Global(n) => (1, *n),
    });
    let mut expected = vec![
        Dep::Global(tokens.get("c")),
        Dep::Function(tokens.get("g")),
        Dep::Global(tokens.get("d")),
    ];
    expected.sort_by_key(|d| match d {
        Dep::Function(n) => (0, *n),
        Dep::Global(n) => (1, *n),
    });
    assert_eq!(uses, expected);
    assert!(ast[0].is_import().is_none());
    assert_eq!(<Def as GetDeps<Dep>>::as_function(&3), Dep::Function(3));
    assert!(Dep::Global(IT).is_the_it());
    assert!(!Dep::Function(IT).is_the_it());
    assert_eq!(Dep::Function(f).to_string(&tokens), "function f");
    assert_eq!(Dep::Global(tokens.get("c")).to_string(&tokens), "global c");
}

#[test]
fn resolved_library_functions_are_listed_once() {
    let (_, tokens) = Parser::build_ast("#(import stdin)").unwrap();
    let mut graph: LazyGraph<Dep, Def> = LazyGraph::new();
    assert_eq!(graph.already_resolved(&tokens), "");
    graph.resolve_lib("stdio", &tokens).unwrap();
    graph.resolve_lib("stdin", &tokens).unwrap();
    assert_eq!(graph.already_resolved(&tokens), "fun(getc) fun(printstr)");
}
