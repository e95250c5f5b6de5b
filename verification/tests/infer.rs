use kanso::infer::work::{pass, passes, reset, round, taken, visit, Work};
use kanso::infer::{builtin_set, BOOL, BYTES, DESC, ERR, INT, LIST, MAP, NONE, STR, TOP};

#[test]
fn a_builtin_answers_its_own_set() {
    assert_eq!(builtin_set("length", &[LIST]), INT);
    assert_eq!(builtin_set("builtin_length", &[LIST]), INT);
    assert_eq!(builtin_set("to_int", &[STR]), INT | ERR);
    assert_eq!(builtin_set("is_desc", &[]), BOOL);
    assert_eq!(builtin_set("put", &[MAP, STR, INT]), MAP);
    assert_eq!(builtin_set("print_it", &[]), TOP);
    assert_eq!(builtin_set("write", &[STR]), DESC);
}

#[test]
fn a_failure_in_an_argument_passes_through() {
    assert_eq!(builtin_set("length", &[LIST | ERR]), INT | ERR);
    assert_eq!(builtin_set("sqrt", &[INT | ERR]) & ERR, ERR);
}

#[test]
fn indexing_answers_by_what_is_indexed() {
    assert_eq!(builtin_set("at", &[BYTES, INT]), NONE | INT);
    assert_eq!(builtin_set("at", &[STR, INT]), NONE | STR);
    assert_eq!(builtin_set("slice", &[STR | INT, INT, INT]), STR);
}

#[test]
fn work_is_counted_and_reset() {
    let mut w = Work::default();
    pass(&mut w);
    pass(&mut w);
    round(&mut w);
    visit(&mut w);
    visit(&mut w);
    visit(&mut w);
    assert_eq!(passes(&w), 2);
    assert_eq!(taken(&w), (1, 3));
    reset(&mut w);
    assert_eq!((passes(&w), taken(&w)), (0, (0, 0)));
}

use kanso::ast::{Expr, FnDecl, Pattern, Program, Stmt, TypeDecl};
use kanso::diag::Span;
use kanso::infer::{callee_first, infer, post_order, FN, REC};
use kanso::lexer::Op;
use kanso::number::Big;

fn at() -> Span {
    Span::at(1, 1)
}

fn name(n: &str) -> Expr {
    Expr::Ident(n.to_string(), at())
}

fn num(k: u32) -> Expr {
    Expr::Int(Big { negative: false, digits: vec![k] }, at())
}

fn apply(head: &str, args: Vec<Expr>) -> Expr {
    Expr::App { head: Box::new(name(head)), args, span: at(), piped: false }
}

fn func(n: &str, params: Vec<Pattern>, body: Expr) -> FnDecl {
    FnDecl { name: n.to_string(), is_pub: false, span: at(), params, body: vec![Stmt::Expr(body)], file: "m.kso".to_string(), synthetic: false }
}

#[test]
fn a_parameter_takes_the_sets_it_is_called_with() {
    let double = func(
        "double",
        vec![Pattern::Var("x".to_string(), at())],
        Expr::BinOp { op: Op::Plus, lhs: Box::new(name("x")), rhs: Box::new(name("x")), span: at() },
    );
    let main = func("main", vec![], apply("double", vec![num(2)]));
    let program = Program { fns: vec![main, double], types: vec![] };
    let mut work = Work::default();
    let inf = infer(&program, &vec![], &mut work);
    assert_eq!(inf.params, vec![vec![], vec![INT]]);
    assert_eq!(inf.returns, vec![INT, INT]);
    assert_eq!(passes(&work), 1);
    assert!(taken(&work).0 >= 2);
}

#[test]
fn a_constructed_record_widens_its_fields() {
    let point = TypeDecl {
        name: "point".to_string(),
        is_pub: true,
        span: at(),
        synthetic: false,
        origin: None,
        parent: None,
        members: vec![],
        fields: vec![("x".to_string(), vec!["int".to_string()], at())],
    };
    let make = func("make", vec![], apply("point", vec![num(1)]));
    let pick = func("pick", vec![], apply("if", vec![name("true"), num(1), Expr::Str(vec![], at())]));
    let hold = func("hold", vec![], Expr::Lambda { params: vec![], body: Box::new(num(1)), span: at() });
    let program = Program { fns: vec![make, pick, hold], types: vec![point] };
    let inf = infer(&program, &vec![], &mut Work::default());
    assert_eq!(inf.type_fields, vec![vec![INT]]);
    assert_eq!(inf.returns, vec![REC, INT | STR, FN]);
}

#[test]
fn callees_come_before_their_callers_and_every_function_once() {
    let a = func("a", vec![], apply("b", vec![]));
    let b = func("b", vec![], apply("c", vec![]));
    let c = func("c", vec![], num(1));
    let program = Program { fns: vec![a, b, c], types: vec![] };
    assert_eq!(callee_first(&program), vec![2, 1, 0]);
    // a cycle is walked once round, each node still once
    assert_eq!(post_order(&vec![vec![1], vec![0], vec![]]), vec![1, 0, 2]);
}

#[test]
fn every_set_is_within_top_and_a_pass_counts_once() {
    let double = func(
        "double",
        vec![Pattern::Var("x".to_string(), at())],
        Expr::BinOp { op: Op::Plus, lhs: Box::new(name("x")), rhs: Box::new(name("x")), span: at() },
    );
    let main = func("main", vec![], apply("double", vec![num(2)]));
    let program = Program { fns: vec![main, double], types: vec![] };
    let mut work = Work::default();
    let (r0, v0) = taken(&work);
    let inf = infer(&program, &vec![], &mut work);
    for s in inf.returns.iter().chain(inf.params.iter().flatten()) {
        assert_eq!(s & !TOP, 0);
    }
    assert_eq!(passes(&work), 1);
    let (r1, v1) = taken(&work);
    assert!(r1 >= r0 + 1 && r1 <= r0 + 200);
    assert!(v1 >= v0);
}

#[test]
fn a_callee_comes_before_its_caller_off_a_cycle() {
    // 0 calls 1, 1 calls 2; 3 and 4 call each other
    let order = post_order(&vec![vec![1], vec![2], vec![], vec![4], vec![3]]);
    let at_pos = |f: usize| order.iter().position(|&x| x == f).unwrap();
    assert!(at_pos(2) < at_pos(1) && at_pos(1) < at_pos(0));
    assert_eq!(order.len(), 5);
}
