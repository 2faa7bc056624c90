use std::collections::HashMap;

use newimpcore::ast::Primitive;
use newimpcore::env::{map_restore, map_swap, Env, Tokenizer, Tokens, Type};
use newimpcore::implib::{libmapping, LibFunctions};

#[test]
fn tokenize_twice_gives_the_same_token() {
    let mut tokens = Tokens::new();
    let a = tokens.tokenize("a");
    let b = tokens.tokenize("b");
    assert_eq!(tokens.tokenize("a"), a);
    assert_ne!(a, b);
    assert_eq!(tokens.len(), 2);
    assert_eq!(tokens.get("b"), b);
}

#[test]
fn tokens_stand_for_trimmed_text() {
    let mut tokens = Tokens::new();
    let t = tokens.tokenize("  foo ");
    assert_eq!(tokens.translate(&t), "foo");
    assert_eq!(tokens.get("  foo "), t);
}

#[test]
fn swap_then_restore_gives_the_map_back() {
    let mut m: HashMap<i32, i32> = HashMap::new();
    m.insert(1, 10);
    m.insert(2, 20);
    let mut new: HashMap<i32, i32> = HashMap::new();
    new.insert(2, 200);
    new.insert(3, 300);
    let old = map_swap(&mut m, new);
    assert_eq!(m.get(&1), Some(&10));
    assert_eq!(m.get(&2), Some(&200));
    assert_eq!(m.get(&3), Some(&300));
    assert_eq!(old.len(), 2);
    assert!(old.contains(&(2, Some(20))));
    assert!(old.contains(&(3, None)));
    map_restore(&mut m, old);
    let mut expected: HashMap<i32, i32> = HashMap::new();
    expected.insert(1, 10);
    expected.insert(2, 20);
    assert_eq!(m, expected);
}

#[test]
fn primitive_text_round_trip() {
    let all = [
        Primitive::Add, Primitive::Sub, Primitive::Mul, Primitive::Div, Primitive::UDiv, Primitive::Mod,
        Primitive::LShift, Primitive::RShift, Primitive::URShift, Primitive::And, Primitive::Or, Primitive::Eq,
        Primitive::Neq, Primitive::Lte, Primitive::Lt, Primitive::Gte, Primitive::Gt, Primitive::Not,
        Primitive::BitXor, Primitive::BitAnd, Primitive::BitOr, Primitive::Print, Primitive::Println,
        Primitive::Printc, Primitive::Incr, Primitive::Decr, Primitive::Neg,
    ];
    for p in all {
        assert_eq!(Primitive::from(p.to_str()), Some(p));
    }
    assert_eq!(Primitive::from(" >>> "), Some(Primitive::URShift));
    assert_eq!(Primitive::from("udiv"), Some(Primitive::UDiv));
    assert_eq!(Primitive::from("plus"), None);
}

#[test]
fn libraries_by_name() {
    let stdio = libmapping("stdio").unwrap();
    assert_eq!(stdio.0, "stdin.bc");
    assert_eq!(stdio.functions(), vec!["getc", "printstr"]);
    assert_eq!(stdio.1[1].2, vec![Type::Pointer]);
    let termio = libmapping("termio").unwrap();
    assert_eq!(termio.functions(), vec!["hmm"]);
    let stdin = libmapping("stdin").unwrap();
    assert_eq!(stdin.0, "stdin.bc");
    assert_eq!(stdin.functions(), vec!["getc", "printstr"]);
    assert_eq!(libmapping("stdout").unwrap_err(), "Unbound libname stdout");
}

#[test]
fn env_starts_empty() {
    let env = Env::new(Tokens::new());
    assert!(env.globaltys.is_empty());
    assert!(env.funtys.is_empty());
    assert!(!env.is_pointer(0));
}

#[test]
fn a_sequence_of_texts_gets_tokens_in_order() {
    let mut tokens = Tokens::new();
    let texts = ["x", "y", "x", " z ", "y", "w"];
    let got: Vec<i32> = texts.iter().map(|t| tokens.tokenize(t)).collect();
    assert_eq!(got, vec![0, 1, 0, 2, 1, 3]);
    assert_eq!(tokens.len(), 4);
    assert_eq!(tokens.translate(&2), "z");
    assert!(tokens.contains(" z "));
    assert!(!tokens.contains("z"));
}
