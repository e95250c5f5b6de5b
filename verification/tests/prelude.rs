use kanso::ast::{Expr, FnDecl, Pattern, Program, Stmt, TypeDecl};
use kanso::diag::Span;
use kanso::passes::{finish_program, install_prelude, stamp_file, synthesize_getters, wants_prelude};

fn at(col: usize) -> Span {
    Span::at(3, col)
}

fn ident(name: &str) -> Expr {
    Expr::Ident(name.to_string(), at(1))
}

fn decl(name: &str, params: Vec<Pattern>, body: Vec<Stmt>) -> FnDecl {
    FnDecl { name: name.to_string(), is_pub: false, span: at(1), params, body, file: "main.kso".to_string(), synthetic: false }
}

fn record(name: &str, fields: &[&str], synthetic: bool) -> TypeDecl {
    TypeDecl {
        name: name.to_string(),
        is_pub: true,
        span: at(1),
        synthetic,
        origin: None,
        parent: None,
        members: vec![],
        fields: fields.iter().enumerate().map(|(i, f)| (f.to_string(), vec!["int".to_string()], at(10 + i))).collect(),
    }
}

fn failure(name: &str, parent: &str) -> TypeDecl {
    TypeDecl {
        name: name.to_string(),
        is_pub: true,
        span: at(4),
        synthetic: false,
        origin: None,
        parent: Some(parent.to_string()),
        members: vec![],
        fields: vec![],
    }
}

#[test]
fn a_program_that_never_names_a_failure_type_wants_no_prelude() {
    let program = Program { fns: vec![decl("main", vec![], vec![Stmt::Expr(ident("x"))])], types: vec![] };
    assert!(!wants_prelude(&program));
}

#[test]
fn naming_a_failure_type_anywhere_asks_for_the_prelude() {
    // deep in a body
    let deep = Expr::List(vec![Expr::Block(vec![Stmt::Expr(ident("divide_by_zero"))], at(2))], at(1));
    let program = Program { fns: vec![decl("main", vec![], vec![Stmt::Expr(deep)])], types: vec![] };
    assert!(wants_prelude(&program));
    // in an annotated parameter
    let param = Pattern::Annotated { name: "e".to_string(), ty: "math_failure".to_string(), span: at(1) };
    let program = Program { fns: vec![decl("handle", vec![param], vec![])], types: vec![] };
    assert!(wants_prelude(&program));
    // in a constructor pattern nested in another
    let inner = Pattern::Ctor { ty: "divide_by_zero".to_string(), fields: vec![], whole: None };
    let outer = Pattern::Ctor { ty: "box".to_string(), fields: vec![inner], whole: None };
    let program = Program { fns: vec![decl("open", vec![outer], vec![])], types: vec![] };
    assert!(wants_prelude(&program));
    // a type of the program's own beneath math_failure
    let program = Program { fns: vec![], types: vec![failure("overflow", "math_failure")] };
    assert!(wants_prelude(&program));
}

#[test]
fn installing_declares_both_failures_once() {
    let mut program = Program {
        fns: vec![decl("main", vec![], vec![Stmt::Expr(ident("math_failure"))])],
        types: vec![record("user", &["name"], false), failure("math_failure", "string")],
    };
    install_prelude(&mut program);
    install_prelude(&mut program);
    let names: Vec<&str> = program.types.iter().map(|t| t.name.as_str()).collect();
    assert_eq!(names, vec!["user", "math_failure", "divide_by_zero"]);
    assert_eq!(program.types[1].parent.as_deref(), Some("string"));
    assert_eq!(program.types[2].parent.as_deref(), Some("math_failure"));
    assert_eq!(program.types[2].span, Span::at(0, 0));
}

#[test]
fn a_program_that_does_not_ask_loses_stale_failures() {
    let mut program = Program {
        fns: vec![decl("main", vec![], vec![Stmt::Expr(ident("x"))])],
        types: vec![failure("divide_by_zero", "math_failure"), record("user", &["name"], false)],
    };
    install_prelude(&mut program);
    let names: Vec<&str> = program.types.iter().map(|t| t.name.as_str()).collect();
    assert_eq!(names, vec!["user"]);
}

#[test]
fn every_field_gets_a_getter_that_binds_it() {
    let mut program = Program { fns: vec![decl("main", vec![], vec![])], types: vec![record("user", &["name", "age"], false)] };
    synthesize_getters(&mut program);
    assert_eq!(program.fns.len(), 3);
    let age = &program.fns[2];
    assert_eq!(age.name, ".age");
    assert!(age.is_pub);
    assert_eq!(age.span, at(11));
    match &age.params[..] {
        [Pattern::Ctor { ty, fields, whole: None }] => {
            assert_eq!(ty, "user");
            assert!(matches!(&fields[0], Pattern::Wildcard(s) if *s == at(11)));
            assert!(matches!(&fields[1], Pattern::Var(v, s) if v == "." && *s == at(11)));
        }
        other => panic!("not one constructor pattern: {other:?}"),
    }
    assert!(matches!(&age.body[..], [Stmt::Expr(Expr::Ident(v, _))] if v == "."));
    assert_eq!(program.fns[1].name, ".name");
}

#[test]
fn a_field_with_a_getter_and_an_imported_type_get_none() {
    let existing = decl(
        ".name",
        vec![Pattern::Ctor { ty: "user".to_string(), fields: vec![], whole: None }],
        vec![],
    );
    let mut program = Program {
        fns: vec![existing],
        types: vec![record("user", &["name", "age"], false), record("other/pet", &["legs"], true)],
    };
    synthesize_getters(&mut program);
    let names: Vec<&str> = program.fns.iter().map(|d| d.name.as_str()).collect();
    assert_eq!(names, vec![".name", ".age"]);
    // a getter of the same field on another type does not count
    let mut program = Program {
        fns: vec![decl(".name", vec![Pattern::Ctor { ty: "pet".to_string(), fields: vec![], whole: None }], vec![])],
        types: vec![record("user", &["name"], false)],
    };
    synthesize_getters(&mut program);
    assert_eq!(program.fns.len(), 2);
}

#[test]
fn finishing_installs_then_adds_getters() {
    let mut program = Program {
        fns: vec![decl("main", vec![], vec![Stmt::Expr(ident("divide_by_zero"))])],
        types: vec![record("point", &["x"], false)],
    };
    finish_program(&mut program);
    assert_eq!(program.types.len(), 3);
    let names: Vec<&str> = program.fns.iter().map(|d| d.name.as_str()).collect();
    assert_eq!(names, vec!["main", ".x"]);
}

#[test]
fn stamping_records_the_file_of_every_declaration() {
    let mut program = Program { fns: vec![decl("a", vec![], vec![]), decl("b", vec![], vec![])], types: vec![] };
    stamp_file(&mut program, "lib/geo.kso");
    assert!(program.fns.iter().all(|d| d.file == "lib/geo.kso"));
    assert_eq!(program.fns[1].name, "b");
}
