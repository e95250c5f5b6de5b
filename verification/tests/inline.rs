use kanso::ast::{Expr, FnDecl, Pattern, Program, Stmt};
use kanso::diag::Span;
use kanso::inline::{aliases, inline_builtin_wrappers};

fn at(col: usize) -> Span {
    Span::at(2, col)
}

fn ident(name: &str) -> Expr {
    Expr::Ident(name.to_string(), at(1))
}

fn call(head: &str, args: Vec<Expr>) -> Expr {
    Expr::App { head: Box::new(Expr::Ident(head.to_string(), at(7))), args, span: at(3), piped: false }
}

fn arm(name: &str, params: &[&str], body: Expr) -> FnDecl {
    FnDecl {
        name: name.to_string(),
        is_pub: true,
        span: at(1),
        params: params.iter().map(|p| Pattern::Var(p.to_string(), at(1))).collect(),
        body: vec![Stmt::Expr(body)],
        file: "text.kso".to_string(),
        synthetic: false,
    }
}

fn sorted(v: Vec<(String, usize, String)>) -> Vec<(String, usize, String)> {
    let mut v = v;
    v.sort();
    v
}

#[test]
fn a_forwarding_arm_is_a_rename_and_renames_chain() {
    let program = Program {
        fns: vec![
            arm("push2", &["a", "b"], call("append", vec![ident("a"), ident("b")])),
            arm("append", &["acc", "x"], call("builtin_append", vec![ident("acc"), ident("x")])),
            // births an err: the wrapper stays
            arm("to_int", &["s"], call("builtin_to_int", vec![ident("s")])),
            // the parameters cross: a decision, not a rename
            arm("flip", &["a", "b"], call("builtin_append", vec![ident("b"), ident("a")])),
            // more than its parameters
            arm("one", &["a"], call("builtin_append", vec![ident("a"), Expr::Int(kanso::number::Big { negative: false, digits: vec![1] }, at(1))])),
        ],
        types: vec![],
    };
    assert_eq!(
        sorted(aliases(&program)),
        vec![
            ("append".to_string(), 2, "builtin_append".to_string()),
            ("push2".to_string(), 2, "builtin_append".to_string()),
        ]
    );
}

#[test]
fn a_hop_through_a_dispatch_is_no_rename() {
    let program = Program {
        fns: vec![
            arm("split", &["s", "by"], call("builtin_split", vec![ident("s"), ident("by")])),
            arm("split", &["s", "by"], ident("s")),
            arm("cut", &["s", "by"], call("split", vec![ident("s"), ident("by")])),
        ],
        types: vec![],
    };
    assert_eq!(sorted(aliases(&program)), vec![("split".to_string(), 2, "builtin_split".to_string())]);
}

#[test]
fn calls_of_a_single_arm_rename_reach_the_builtin() {
    let lambda = Expr::Lambda {
        params: vec![("x".to_string(), at(1))],
        body: Box::new(call("append", vec![ident("xs"), ident("x")])),
        span: at(1),
    };
    let mut program = Program {
        fns: vec![
            arm("append", &["acc", "x"], call("builtin_append", vec![ident("acc"), ident("x")])),
            arm("split", &["s", "by"], call("builtin_split", vec![ident("s"), ident("by")])),
            arm("split", &["s", "by"], ident("s")),
            arm("main", &[], call("map", vec![lambda, call("split", vec![ident("a"), ident("b")])])),
        ],
        types: vec![],
    };
    inline_builtin_wrappers(&mut program);
    let Stmt::Expr(Expr::App { head, args, .. }) = &program.fns[3].body[0] else { panic!() };
    assert!(matches!(head.as_ref(), Expr::Ident(n, _) if n == "map"));
    let Expr::Lambda { body, .. } = &args[0] else { panic!() };
    let Expr::App { head, args: inner, span, .. } = body.as_ref() else { panic!() };
    assert!(matches!(head.as_ref(), Expr::Ident(n, s) if n == "builtin_append" && *s == at(7)));
    assert_eq!(*span, at(3));
    assert_eq!(inner.len(), 2);
    // a dispatch keeps its calls
    let Expr::App { head, .. } = &args[1] else { panic!() };
    assert!(matches!(head.as_ref(), Expr::Ident(n, _) if n == "split"));
    // the wrapper's own arm still calls the builtin
    let Stmt::Expr(Expr::App { head, .. }) = &program.fns[0].body[0] else { panic!() };
    assert!(matches!(head.as_ref(), Expr::Ident(n, _) if n == "builtin_append"));
}

#[test]
fn without_renames_nothing_changes() {
    let mut program = Program {
        fns: vec![arm("main", &[], call("go", vec![ident("x")])), arm("go", &["x"], ident("x"))],
        types: vec![],
    };
    let before = format!("{program:?}");
    inline_builtin_wrappers(&mut program);
    assert_eq!(format!("{program:?}"), before);
}
