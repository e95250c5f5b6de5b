use kanso::ast::{Expr, FnDecl, Pattern, Program, Stmt};
use kanso::diag::Span;
use kanso::passes::{bare_aliases, canonicalize_bare_aliases};

fn ident(name: &str) -> Expr {
    Expr::Ident(name.to_string(), Span::at(9, 1))
}

fn call(head: &str, args: Vec<Expr>) -> Expr {
    Expr::App { head: Box::new(ident(head)), args, span: Span::at(9, 1), piped: false }
}

fn arm(name: &str, file: &str, at: Span, params: Vec<Pattern>, body: Vec<Stmt>, synthetic: bool) -> FnDecl {
    FnDecl { name: name.to_string(), is_pub: true, span: at, params, body, file: file.to_string(), synthetic }
}

fn var(n: &str) -> Pattern {
    Pattern::Var(n.to_string(), Span::at(1, 1))
}

/// `geo/area` as the module declared it, the bare clone an import enrolled
/// for it, and a caller of the bare name.
fn geo(caller_body: Vec<Stmt>) -> Vec<FnDecl> {
    let site = Span::at(4, 1);
    vec![
        arm("geo/area", "geo.kso", site, vec![var("s")], vec![Stmt::Expr(call("area", vec![ident("s")]))], false),
        arm("area", "geo.kso", site, vec![var("s")], vec![], true),
        arm("main", "main.kso", Span::at(1, 1), vec![], caller_body, false),
    ]
}

#[test]
fn a_clone_group_respells_every_bare_reference() {
    let body = vec![Stmt::Expr(Expr::Lambda {
        params: vec![("x".to_string(), Span::at(2, 1))],
        body: Box::new(call("area", vec![Expr::Partial("area".to_string(), Span::at(2, 3))])),
        span: Span::at(2, 1),
    })];
    let mut program = Program { fns: geo(body), types: vec![] };
    let aliases = canonicalize_bare_aliases(&mut program, &vec![]);
    assert_eq!(aliases, vec![("area".to_string(), "geo/area".to_string())]);
    let names: Vec<&str> = program.fns.iter().map(|d| d.name.as_str()).collect();
    assert_eq!(names, vec!["geo/area", "main"]);
    // the module's own recursion now reads as self-recursion
    match &program.fns[0].body[0] {
        Stmt::Expr(Expr::App { head, .. }) => assert!(matches!(&**head, Expr::Ident(n, _) if n == "geo/area")),
        other => panic!("the call changed shape: {other:?}"),
    }
    match &program.fns[1].body[0] {
        Stmt::Expr(Expr::Lambda { body, .. }) => match &**body {
            Expr::App { head, args, .. } => {
                assert!(matches!(&**head, Expr::Ident(n, _) if n == "geo/area"));
                assert!(matches!(&args[0], Expr::Partial(n, _) if n == "geo/area"));
            }
            other => panic!("the lambda's body changed shape: {other:?}"),
        },
        other => panic!("the lambda changed shape: {other:?}"),
    }
}

#[test]
fn a_bare_name_with_an_arm_of_its_own_is_a_real_overload() {
    let mut fns = geo(vec![Stmt::Expr(call("area", vec![]))]);
    fns.push(arm("area", "main.kso", Span::at(7, 1), vec![var("s")], vec![], false));
    let mut program = Program { fns, types: vec![] };
    assert!(canonicalize_bare_aliases(&mut program, &vec![]).is_empty());
    assert_eq!(program.fns.len(), 4);
}

#[test]
fn a_name_bound_as_a_local_anywhere_is_kept() {
    let bound = vec![Stmt::Bind { pattern: var("area"), expr: ident("x") }, Stmt::Expr(ident("area"))];
    let mut program = Program { fns: geo(bound), types: vec![] };
    assert!(canonicalize_bare_aliases(&mut program, &vec![]).is_empty());
    match &program.fns[2].body[1] {
        Stmt::Expr(Expr::Ident(n, _)) => assert_eq!(n, "area"),
        other => panic!("the local changed: {other:?}"),
    }
}

#[test]
fn a_skipped_name_is_kept() {
    let mut program = Program { fns: geo(vec![Stmt::Expr(call("area", vec![]))]), types: vec![] };
    assert!(canonicalize_bare_aliases(&mut program, &vec!["area".to_string()]).is_empty());
    assert_eq!(program.fns.len(), 3);
}

#[test]
fn clones_of_two_declarations_are_no_alias() {
    let mut fns = geo(vec![]);
    let other = Span::at(8, 1);
    fns.push(arm("shape/area", "shape.kso", other, vec![var("s")], vec![], false));
    fns.push(arm("area", "shape.kso", other, vec![var("s")], vec![], true));
    assert!(bare_aliases(&fns, &vec![]).is_empty());
    // a twin at another position, or of another arity, stands for nothing
    let mut fns = geo(vec![]);
    fns[1].span = Span::at(5, 1);
    assert!(bare_aliases(&fns, &vec![]).is_empty());
}
