use newimpcore::imports::{line_up, read_directives, ImportAction, ImportError, Importer};

fn read(p: &str) -> ImportAction {
    ImportAction::Read(p.to_string())
}

fn locate(n: &str) -> ImportAction {
    ImportAction::Locate(n.to_string())
}

#[test]
fn file_without_imports_is_its_own_text() {
    let (mut imp, first) = Importer::new("main.imp".to_string());
    assert_eq!(first, read("main.imp"));
    let done = imp.answer("(val x 1)\n(+ x 1)\n".to_string()).unwrap();
    assert_eq!(done, ImportAction::Done("(val x 1)\n(+ x 1)\n".to_string()));
    // once done, it stays done
    assert_eq!(
        imp.answer("ignored".to_string()).unwrap(),
        ImportAction::Done("(val x 1)\n(+ x 1)\n".to_string())
    );
}

#[test]
fn directives_are_found_in_order() {
    let (parts, names) =
        read_directives("a\n#(import \"x.imp\")\nb #(import   \"dir/y.imp\" ) c").unwrap();
    assert_eq!(parts, vec!["a\n".to_string(), "\nb ".to_string(), " c".to_string()]);
    assert_eq!(names, vec!["x.imp".to_string(), "dir/y.imp".to_string()]);
    let (parts, names) = read_directives("(val x 1)").unwrap();
    assert_eq!(parts, vec!["(val x 1)".to_string()]);
    assert!(names.is_empty());
}

#[test]
fn imported_file_is_pasted_in_place() {
    let (mut imp, _) = Importer::new("imp/main.imp".to_string());
    let code = "(val a 1)\n#(import \"b.imp\")\n(val c 3)".to_string();
    assert_eq!(imp.answer(code).unwrap(), locate("b.imp"));
    assert_eq!(imp.answer("imp/b.imp".to_string()).unwrap(), read("imp/b.imp"));
    let done = imp.answer("(val b 2)".to_string()).unwrap();
    assert_eq!(done, ImportAction::Done("(val a 1)\n(val b 2)\n\n(val c 3)".to_string()));
}

#[test]
fn imports_are_followed_recursively() {
    let (mut imp, _) = Importer::new("main.imp".to_string());
    assert_eq!(imp.answer("#(import \"b.imp\")!".to_string()).unwrap(), locate("b.imp"));
    assert_eq!(imp.answer("b.imp".to_string()).unwrap(), read("b.imp"));
    assert_eq!(imp.answer("B#(import \"c.imp\")".to_string()).unwrap(), locate("c.imp"));
    assert_eq!(imp.answer("c.imp".to_string()).unwrap(), read("c.imp"));
    let done = imp.answer("C".to_string()).unwrap();
    assert_eq!(done, ImportAction::Done("BC\n\n!".to_string()));
}

#[test]
fn a_file_comes_in_only_once() {
    let (mut imp, _) = Importer::new("main.imp".to_string());
    let code = "#(import \"b.imp\")1#(import \"b.imp\")2".to_string();
    assert_eq!(imp.answer(code).unwrap(), locate("b.imp"));
    assert_eq!(imp.answer("b.imp".to_string()).unwrap(), read("b.imp"));
    // the second directive names the same file: it is not read again
    assert_eq!(imp.answer("(val b 2)".to_string()).unwrap(), locate("b.imp"));
    let done = imp.answer("b.imp".to_string()).unwrap();
    assert_eq!(done, ImportAction::Done("(val b 2)\n12".to_string()));
}

#[test]
fn recursive_import_is_refused() {
    let (mut imp, _) = Importer::new("main.imp".to_string());
    assert_eq!(imp.answer("#(import \"b.imp\")".to_string()).unwrap(), locate("b.imp"));
    assert_eq!(imp.answer("b.imp".to_string()).unwrap(), read("b.imp"));
    assert_eq!(imp.answer("#(import \"main.imp\")".to_string()).unwrap(), locate("main.imp"));
    assert_eq!(
        imp.answer("main.imp".to_string()),
        Err(ImportError::Recursive("main.imp".to_string()))
    );
}

#[test]
fn file_importing_itself_is_refused() {
    let (mut imp, _) = Importer::new("a.imp".to_string());
    assert_eq!(imp.answer("x #(import \"a.imp\")".to_string()).unwrap(), locate("a.imp"));
    assert_eq!(imp.answer("a.imp".to_string()), Err(ImportError::Recursive("a.imp".to_string())));
}

#[test]
fn pieces_and_names_must_line_up() {
    let s = |t: &str| t.to_string();
    assert_eq!(
        line_up(Some(vec![s("a"), s("b")]), Some(vec![Some(s("x.imp"))])),
        Some((vec![s("a"), s("b")], vec![s("x.imp")]))
    );
    assert_eq!(line_up(Some(vec![s("a"), s("b")]), Some(vec![None])), None);
    assert_eq!(line_up(Some(vec![s("a")]), Some(vec![Some(s("x.imp"))])), None);
    assert_eq!(line_up(Some(vec![]), Some(vec![])), None);
    assert_eq!(line_up(None, Some(vec![])), None);
    assert_eq!(line_up(Some(vec![s("a")]), None), None);
}
