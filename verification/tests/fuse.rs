use kanso::ast::{Expr, FnDecl, Pattern, Program, Stmt};
use kanso::diag::Span;
use kanso::lexer::Op;
use kanso::passes::{fuse_enumerable, fuse_names};

fn at(col: usize) -> Span {
    Span::at(2, col)
}

fn ident(name: &str) -> Expr {
    Expr::Ident(name.to_string(), at(1))
}

fn call(head: &str, args: Vec<Expr>) -> Expr {
    Expr::App { head: Box::new(ident(head)), args, span: at(1), piped: false }
}

fn pipe(head: &str, args: Vec<Expr>) -> Expr {
    Expr::App { head: Box::new(ident(head)), args, span: at(1), piped: true }
}

fn decl_in(file: &str, name: &str, body: Vec<Stmt>) -> FnDecl {
    FnDecl {
        name: name.to_string(),
        is_pub: true,
        span: at(1),
        params: vec![],
        body,
        file: file.to_string(),
        synthetic: false,
    }
}

fn list_lib() -> Vec<FnDecl> {
    ["fold", "map", "select", "reject", "sum", "count", "to_list", "take"]
        .iter()
        .map(|n| decl_in("std/list.kso", n, vec![]))
        .collect()
}

fn program_with(user: Vec<FnDecl>) -> Program {
    let mut fns = list_lib();
    fns.extend(user);
    Program { fns, types: vec![] }
}

fn name_of(e: &Expr) -> &str {
    match e {
        Expr::Ident(n, _) => n.as_str(),
        _ => panic!("not a name: {e:?}"),
    }
}

fn parts(e: &Expr) -> (&str, &Vec<Expr>) {
    match e {
        Expr::App { head, args, .. } => (name_of(head), args),
        _ => panic!("not a call: {e:?}"),
    }
}

fn lambda(e: &Expr) -> (Vec<&str>, &Expr) {
    match e {
        Expr::Lambda { params, body, .. } => (params.iter().map(|(p, _)| p.as_str()).collect(), body),
        _ => panic!("not a lambda: {e:?}"),
    }
}

fn only_expr(d: &FnDecl) -> &Expr {
    assert_eq!(d.body.len(), 1);
    match &d.body[0] {
        Stmt::Expr(e) => e,
        other => panic!("not an expression statement: {other:?}"),
    }
}

#[test]
fn a_sum_over_a_map_becomes_one_fold() {
    // sum (map xs f)
    let body = call("sum", vec![call("map", vec![ident("xs"), ident("f")])]);
    let mut program = program_with(vec![decl_in("main.kso", "main", vec![Stmt::Expr(body)])]);
    fuse_enumerable(&mut program);
    let fused = only_expr(&program.fns[8]);
    let (head, args) = parts(fused);
    assert_eq!(head, "fold");
    assert_eq!(args.len(), 3);
    assert_eq!(name_of(&args[0]), "xs");
    match &args[1] {
        Expr::Int(b, _) => assert!(!b.negative && b.digits.is_empty()),
        other => panic!("the start is not zero: {other:?}"),
    }
    // the map step wraps the sum's reducer; the inner `map` call took the
    // first count when fusion tried it on its own
    let (outer, step) = lambda(&args[2]);
    assert_eq!(outer, vec!["facc3", "felem3"]);
    let (inner_call, inner_args) = match step {
        Expr::App { head, args, .. } => (head, args),
        _ => panic!("the step is not a call"),
    };
    assert_eq!(name_of(&inner_args[0]), "facc3");
    let (f, fx) = parts(&inner_args[1]);
    assert_eq!(f, "f");
    assert_eq!(name_of(&fx[0]), "felem3");
    let (sum_params, sum_body) = lambda(inner_call);
    assert_eq!(sum_params, vec!["facc2", "felem2"]);
    match sum_body {
        Expr::BinOp { op, lhs, rhs, .. } => {
            assert_eq!(*op, Op::Plus);
            assert_eq!(name_of(lhs), "facc2");
            assert_eq!(name_of(rhs), "felem2");
        }
        other => panic!("the sum's step is not an addition: {other:?}"),
    }
}

#[test]
fn a_consumer_of_a_bare_list_is_left_alone() {
    let body = call("sum", vec![ident("xs")]);
    let mut program = program_with(vec![decl_in("main.kso", "main", vec![Stmt::Expr(body)])]);
    fuse_enumerable(&mut program);
    let (head, args) = parts(only_expr(&program.fns[8]));
    assert_eq!(head, "sum");
    assert_eq!(name_of(&args[0]), "xs");
}

#[test]
fn without_a_fold_in_std_list_nothing_changes() {
    let body = call("sum", vec![call("map", vec![ident("xs"), ident("f")])]);
    let mut program = Program {
        fns: vec![decl_in("std/list.kso", "sum", vec![]), decl_in("std/list.kso", "map", vec![]), decl_in("main.kso", "main", vec![Stmt::Expr(body)])],
        types: vec![],
    };
    assert!(fuse_names(&program.fns).is_none());
    fuse_enumerable(&mut program);
    let (head, args) = parts(only_expr(&program.fns[2]));
    assert_eq!(head, "sum");
    assert_eq!(parts(&args[0]).0, "map");
}

#[test]
fn declarations_of_std_are_not_rewritten() {
    let body = call("sum", vec![call("map", vec![ident("xs"), ident("f")])]);
    let mut fns = list_lib();
    fns.push(decl_in("std/text.kso", "lengths", vec![Stmt::Expr(body)]));
    let mut program = Program { fns, types: vec![] };
    fuse_enumerable(&mut program);
    assert_eq!(parts(only_expr(&program.fns[8])).0, "sum");
}

#[test]
fn the_counter_runs_on_into_the_next_declaration() {
    let one = call("sum", vec![call("map", vec![ident("xs"), ident("f")])]);
    let two = call("to_list", vec![call("select", vec![ident("ys"), ident("p")])]);
    let mut program = program_with(vec![
        decl_in("main.kso", "first", vec![Stmt::Expr(one)]),
        decl_in("main.kso", "second", vec![Stmt::Expr(two)]),
    ]);
    fuse_enumerable(&mut program);
    let (head, args) = parts(only_expr(&program.fns[9]));
    assert_eq!(head, "fold");
    assert_eq!(name_of(&args[0]), "ys");
    match &args[1] {
        Expr::List(items, _) => assert!(items.is_empty()),
        other => panic!("to_list does not start from an empty list: {other:?}"),
    }
    // select: if (p x) (push acc x) acc, numbered after the three counts
    // the first declaration took
    let (params, body) = lambda(&args[2]);
    assert_eq!(params, vec!["facc6", "felem6"]);
    let (iff, branches) = parts(body);
    assert_eq!(iff, "if");
    assert_eq!(parts(&branches[0]).0, "p");
    assert_eq!(name_of(&branches[2]), "facc6");
}

#[test]
fn a_chain_bound_once_and_consumed_is_inlined_then_fused() {
    // ys = map xs f; count ys p
    let bind = Stmt::Bind { pattern: Pattern::Var("ys".to_string(), at(1)), expr: call("map", vec![ident("xs"), ident("f")]) };
    let use_it = Stmt::Expr(call("count", vec![ident("ys"), ident("p")]));
    let mut program = program_with(vec![decl_in("main.kso", "main", vec![bind, use_it])]);
    fuse_enumerable(&mut program);
    let (head, args) = parts(only_expr(&program.fns[8]));
    assert_eq!(head, "fold");
    assert_eq!(name_of(&args[0]), "xs");
}

#[test]
fn a_piped_chain_keeps_its_pipes_beside_the_fold() {
    // xs |> map f |> sum
    let chain = pipe("sum", vec![pipe("map", vec![ident("xs"), ident("f")])]);
    let mut program = program_with(vec![decl_in("main.kso", "main", vec![Stmt::Expr(chain)])]);
    fuse_enumerable(&mut program);
    let block = only_expr(&program.fns[8]);
    let stmts = match block {
        Expr::Block(stmts, _) => stmts,
        other => panic!("not a block: {other:?}"),
    };
    assert_eq!(stmts.len(), 2);
    match &stmts[0] {
        Stmt::Bind { pattern: Pattern::Var(v, _), expr } => {
            assert_eq!(v, "froot1");
            assert_eq!(name_of(expr), "xs");
        }
        other => panic!("the subject is not bound: {other:?}"),
    }
    let picked = match &stmts[1] {
        Stmt::Expr(e) => e,
        other => panic!("no choice follows: {other:?}"),
    };
    let (iff, arms) = parts(picked);
    assert_eq!(iff, "if");
    let (test, on) = parts(&arms[0]);
    assert_eq!(test, "is_desc");
    assert_eq!(name_of(&on[0]), "froot1");
    match &arms[1] {
        Expr::App { head, piped: true, args, .. } => {
            assert_eq!(name_of(head), "sum");
            match &args[0] {
                Expr::App { head, piped: true, args, .. } => {
                    assert_eq!(name_of(head), "map");
                    assert_eq!(name_of(&args[0]), "froot1");
                }
                other => panic!("the pipes are not kept: {other:?}"),
            }
        }
        other => panic!("the pipes are not kept: {other:?}"),
    }
    let (fold, fargs) = parts(&arms[2]);
    assert_eq!(fold, "fold");
    assert_eq!(name_of(&fargs[0]), "froot1");
    assert_eq!(lambda(&fargs[2]).0, vec!["facc3", "felem3"]);
}

#[test]
fn the_names_table_lists_what_std_list_declares() {
    let mut fns = list_lib();
    fns.push(decl_in("main.kso", "app/map", vec![]));
    fns.push(decl_in("main.kso", "shout", vec![]));
    let names = fuse_names(&fns).expect("a fold is declared");
    assert_eq!(names.fold, "fold");
    assert!(names.enumerable.contains(&"app/map".to_string()));
    assert!(!names.enumerable.contains(&"shout".to_string()));
    assert_eq!(names.bump, None);
}
