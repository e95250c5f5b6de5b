use kanso::ast::{Expr, FnDecl, Pattern, Program, Stmt, TemplatePart};
use kanso::diag::Span;
use kanso::linear::{fold_spellings, in_place_pushes};
use kanso::number::Big;

fn at(line: usize, col: usize) -> Span {
    Span::at(line, col)
}

fn ident(name: &str, line: usize, col: usize) -> Expr {
    Expr::Ident(name.to_string(), at(line, col))
}

fn num(n: u32, line: usize, col: usize) -> Expr {
    Expr::Int(Big { negative: false, digits: vec![n] }, at(line, col))
}

fn call(head: Expr, args: Vec<Expr>, line: usize, col: usize) -> Expr {
    Expr::App { head: Box::new(head), args, span: at(line, col), piped: false }
}

fn decl(name: &str, params: Vec<Pattern>, body: Vec<Stmt>, file: &str) -> FnDecl {
    FnDecl {
        name: name.to_string(),
        is_pub: false,
        span: at(1, 1),
        params,
        body,
        file: file.to_string(),
        synthetic: false,
    }
}

/// `main = print "{length (NAME ARG)}"` on `line`.
fn main_printing(name: &str, arg: Expr, line: usize, file: &str) -> FnDecl {
    let inner = call(ident("length", line, 16), vec![call(ident(name, line, 24), vec![arg], line, 24)], line, 16);
    let text = Expr::Str(vec![TemplatePart::Interp(Box::new(inner))], at(line, 14));
    decl("main", vec![], vec![Stmt::Expr(call(ident("print", line, 8), vec![text], line, 8))], file)
}

// The program, as its source reads:
//
//   fn dup xs
//     a = push xs 1
//     b = push xs 2
//     push a b
//
//   main = print "{length (dup [1 2 3])}"
#[test]
fn aliased_list_not_flagged() {
    // xs is pushed twice, so neither push uniquely owns it — mutating in
    // place would corrupt the other reference. Must stay allocating.
    let dup = decl(
        "dup",
        vec![Pattern::Var("xs".to_string(), at(1, 8))],
        vec![
            Stmt::Bind {
                pattern: Pattern::Var("a".to_string(), at(2, 3)),
                expr: call(ident("push", 2, 7), vec![ident("xs", 2, 12), num(1, 2, 15)], 2, 7),
            },
            Stmt::Bind {
                pattern: Pattern::Var("b".to_string(), at(3, 3)),
                expr: call(ident("push", 3, 7), vec![ident("xs", 3, 12), num(2, 3, 15)], 3, 7),
            },
            Stmt::Expr(call(ident("push", 4, 3), vec![ident("a", 4, 8), ident("b", 4, 10)], 4, 3)),
        ],
        "test.kso",
    );
    let list = Expr::List(vec![num(1, 6, 29), num(2, 6, 31), num(3, 6, 33)], at(6, 28));
    let main = main_printing("dup", list, 6, "test.kso");
    let program = Program { fns: vec![dup, main], types: vec![] };
    assert!(in_place_pushes(&program).is_empty(), "aliased pushes must not be marked in-place");
}

// fn build xs
//   push xs 1
//
// main = print "{length (build [])}"
#[test]
fn moved_accumulator_is_flagged() {
    let build = decl(
        "build",
        vec![Pattern::Var("xs".to_string(), at(1, 10))],
        vec![Stmt::Expr(call(ident("push", 2, 3), vec![ident("xs", 2, 8), num(1, 2, 11)], 2, 3))],
        "acc.kso",
    );
    let main = main_printing("build", Expr::List(vec![], at(4, 30)), 4, "acc.kso");
    let program = Program { fns: vec![build, main], types: vec![] };
    let sites = in_place_pushes(&program);
    assert_eq!(sites, vec![("acc.kso".to_string(), 2, 3)]);
}

// The same function, but a caller keeps the list it hands over:
// main = print "{length (build xs)}" with xs used again elsewhere is not
// fresh; here the argument is a bare name bound nowhere, so nothing is.
#[test]
fn unknown_source_is_not_flagged() {
    let build = decl(
        "build",
        vec![Pattern::Var("xs".to_string(), at(1, 10))],
        vec![Stmt::Expr(call(ident("push", 2, 3), vec![ident("xs", 2, 8), num(1, 2, 11)], 2, 3))],
        "acc.kso",
    );
    let main = main_printing("build", ident("shared", 4, 30), 4, "acc.kso");
    let program = Program { fns: vec![build, main], types: vec![] };
    assert!(in_place_pushes(&program).is_empty());
}

#[test]
fn fold_spellings_take_every_qualification() {
    let params = || {
        vec![
            Pattern::Var("xs".to_string(), at(1, 1)),
            Pattern::Var("seed".to_string(), at(1, 1)),
            Pattern::Var("f".to_string(), at(1, 1)),
        ]
    };
    let program = Program {
        fns: vec![
            decl("fold", params(), vec![], "std/list/list.kso"),
            decl("list/fold", params(), vec![], "std/list/list.kso"),
            decl("fold", vec![], vec![], "std/list/list.kso"),
            decl("folder", params(), vec![], "std/list/list.kso"),
            decl("fold", params(), vec![], "mine.kso"),
        ],
        types: vec![],
    };
    assert_eq!(fold_spellings(&program), vec!["fold".to_string(), "list/fold".to_string()]);
}

use kanso::ast::TypeDecl;
use kanso::linear::{reusable_records, string_builders};

fn var(name: &str) -> Pattern {
    Pattern::Var(name.to_string(), at(1, 1))
}

fn binop(op: kanso::lexer::Op, l: Expr, r: Expr, line: usize, col: usize) -> Expr {
    Expr::BinOp { op, lhs: Box::new(l), rhs: Box::new(r), span: at(line, col) }
}

fn point_type() -> TypeDecl {
    TypeDecl {
        name: "point".to_string(),
        is_pub: false,
        span: at(1, 1),
        synthetic: false,
        origin: None,
        parent: None,
        members: vec![],
        fields: vec![("x".to_string(), vec!["int".to_string()], at(1, 1)), ("y".to_string(), vec!["int".to_string()], at(1, 1))],
    }
}

// fn shift n p
//   shift (n - 1) (point (p.x + 1) p.y)
//
// main = shift 3 (point 1 2)
#[test]
fn a_record_read_only_by_its_successor_is_reused() {
    let read = |field: &str, col: usize| call(ident(&kanso::ast::getter_name(field), 3, col), vec![ident("p", 3, col)], 3, col);
    let ctor = call(
        ident("point", 3, 18),
        vec![binop(kanso::lexer::Op::Plus, read("x", 25), num(1, 3, 31), 3, 29), read("y", 34)],
        3,
        18,
    );
    let step = call(ident("shift", 3, 3), vec![binop(kanso::lexer::Op::Minus, ident("n", 3, 10), num(1, 3, 14), 3, 12), ctor], 3, 3);
    let shift = decl("shift", vec![var("n"), var("p")], vec![Stmt::Expr(step)], "geo.kso");
    let start = call(ident("shift", 5, 8), vec![num(3, 5, 14), call(ident("point", 5, 17), vec![num(1, 5, 23), num(2, 5, 25)], 5, 17)], 5, 8);
    let main = decl("main", vec![], vec![Stmt::Expr(start)], "geo.kso");
    let program = Program { fns: vec![shift, main], types: vec![point_type()] };
    let found = reusable_records(&program);
    assert_eq!(found, vec![(("geo.kso".to_string(), 3, 18), "p".to_string())]);
}

#[test]
fn a_record_read_after_the_constructor_is_not_reused() {
    // fn keep p
    //   q = point 1 p.y
    //   p
    let ctor = call(ident("point", 2, 7), vec![num(1, 2, 13), call(ident(&kanso::ast::getter_name("y"), 2, 15), vec![ident("p", 2, 15)], 2, 15)], 2, 7);
    let keep = decl("keep", vec![var("p")], vec![Stmt::Bind { pattern: var("q"), expr: ctor }, Stmt::Expr(ident("p", 3, 3))], "geo.kso");
    let main = decl("main", vec![], vec![Stmt::Expr(call(ident("keep", 5, 8), vec![call(ident("point", 5, 13), vec![num(1, 5, 19), num(2, 5, 21)], 5, 13)], 5, 8))], "geo.kso");
    let program = Program { fns: vec![keep, main], types: vec![point_type()] };
    assert!(reusable_records(&program).is_empty());
}

// fn text_build n s
//   text_build (n - 1) "{s}x"
//
// fn wrap n s
//   text_build n s
//
// main = wrap 3 ""
#[test]
fn a_string_joined_onto_itself_is_a_builder() {
    let join = Expr::Str(
        vec![TemplatePart::Interp(Box::new(ident("s", 2, 23))), TemplatePart::Lit("x".to_string())],
        at(2, 22),
    );
    let step = call(ident("text_build", 2, 3), vec![binop(kanso::lexer::Op::Minus, ident("n", 2, 15), num(1, 2, 19), 2, 17), join], 2, 3);
    let build = decl("text_build", vec![var("n"), var("s")], vec![Stmt::Expr(step)], "t.kso");
    let forward = call(ident("text_build", 5, 3), vec![ident("n", 5, 14), ident("s", 5, 16)], 5, 3);
    let wrap = decl("wrap", vec![var("n"), var("s")], vec![Stmt::Expr(forward)], "t.kso");
    let main = decl(
        "main",
        vec![],
        vec![Stmt::Expr(call(ident("wrap", 7, 8), vec![num(3, 7, 13), Expr::Str(vec![], at(7, 15))], 7, 8))],
        "t.kso",
    );
    let program = Program { fns: vec![build, wrap, main], types: vec![] };
    let (joins, mut accs, carried) = string_builders(&program);
    accs.sort();
    assert_eq!(joins, vec![("t.kso".to_string(), 2, 22)]);
    assert_eq!(accs, vec![("text_build".to_string(), 2, 1), ("wrap".to_string(), 2, 1)]);
    assert_eq!(carried, vec![("t.kso".to_string(), 5, 16)]);
}

// lib/json's sources are not at hand, so its two accumulators are written
// out as they stand: the array parser pushes each element onto the list it
// was handed, and the string scanner pushes each piece onto its buffer.
//
//   value.kso:  fn elements acc  =  push acc item
//   text.kso:   fn pieces buf    =  push buf "x"
//   main = print "{length (elements [])}" >> print "{length (pieces [])}"
#[test]
fn json_accumulator_pushes_flagged() {
    let elements = decl(
        "elements",
        vec![Pattern::Var("acc".to_string(), at(1, 13))],
        vec![Stmt::Expr(call(ident("push", 2, 3), vec![ident("acc", 2, 8), ident("item", 2, 12)], 2, 3))],
        "lib/json/value.kso",
    );
    let pieces = decl(
        "pieces",
        vec![Pattern::Var("buf".to_string(), at(1, 11))],
        vec![Stmt::Expr(call(
            ident("push", 2, 3),
            vec![ident("buf", 2, 8), Expr::Str(vec![TemplatePart::Lit("x".to_string())], at(2, 12))],
            2,
            3,
        ))],
        "lib/json/text.kso",
    );
    let first = main_printing("elements", Expr::List(vec![], at(4, 30)), 4, "lib/json/main.kso");
    let second = main_printing("pieces", Expr::List(vec![], at(5, 30)), 5, "lib/json/main.kso");
    let main = decl(
        "main",
        vec![],
        vec![Stmt::Expr(Expr::Sequence(
            Box::new(match first.body.into_iter().next() {
                Some(Stmt::Expr(e)) => e,
                _ => unreachable!(),
            }),
            Box::new(match second.body.into_iter().next() {
                Some(Stmt::Expr(e)) => e,
                _ => unreachable!(),
            }),
            at(4, 1),
        ))],
        "lib/json/main.kso",
    );
    let program = Program { fns: vec![elements, pieces, main], types: vec![] };
    let p = in_place_pushes(&program);
    assert!(
        p.iter().any(|(f, _, _)| f.ends_with("value.kso")),
        "array accumulator push should be in-place, got {p:?}"
    );
    assert!(
        p.iter().any(|(f, _, _)| f.ends_with("text.kso")),
        "string accumulator pushes should be in-place, got {p:?}"
    );
}
