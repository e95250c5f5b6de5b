use kanso::ast::{any_child, for_each_child, Expr, FnDecl, Program, Stmt, TemplatePart};
use kanso::diag::Span;
use kanso::passes::{stack_exhausted, stack_hint};

fn at(col: usize) -> Span {
    Span::at(1, col)
}

fn ident(name: &str) -> Expr {
    Expr::Ident(name.to_string(), at(1))
}

fn call(head: &str, args: Vec<Expr>) -> Expr {
    Expr::App { head: Box::new(ident(head)), args, span: at(1), piped: false }
}

fn decl(name: &str, body: Vec<Stmt>) -> FnDecl {
    FnDecl {
        name: name.to_string(),
        is_pub: false,
        span: at(1),
        params: vec![],
        body,
        file: "loop.kso".to_string(),
        synthetic: false,
    }
}

const SAID: &str = "error[runtime]: the program ran out of stack: recursion went deeper than the stack holds";

#[test]
fn a_function_calling_itself_right_of_a_sequence_is_named() {
    // fn tick
    //   print "x" >> tick
    let body = Expr::Sequence(Box::new(call("print", vec![ident("x")])), Box::new(call("tick", vec![])), at(1));
    let program = Program { fns: vec![decl("main", vec![]), decl("tick", vec![Stmt::Expr(body)])], types: vec![] };
    let hint = "\n  `tick` calls itself in the right side of `>>`, which builds the whole chain before running any of it. `.` hands each step over as it goes.";
    assert_eq!(stack_hint(&program), hint);
    assert_eq!(stack_exhausted(Some(&program)), format!("{SAID}{hint}"));
}

#[test]
fn a_call_on_the_left_or_of_another_function_is_no_hint() {
    let left = Expr::Sequence(Box::new(call("tick", vec![])), Box::new(call("print", vec![ident("x")])), at(1));
    let other = Expr::Sequence(Box::new(call("print", vec![])), Box::new(call("tock", vec![])), at(1));
    let program = Program {
        fns: vec![decl("tick", vec![Stmt::Expr(left)]), decl("tick2", vec![Stmt::Expr(other)])],
        types: vec![],
    };
    assert_eq!(stack_hint(&program), "");
    assert_eq!(stack_exhausted(Some(&program)), SAID);
    assert_eq!(stack_exhausted(None), SAID);
}

#[test]
fn the_call_may_sit_deep_inside_the_right_operand() {
    // fn go
    //   print "{go}" >> (list [go])
    let deep = call("list", vec![Expr::List(vec![call("go", vec![])], at(1))]);
    let body = Expr::Sequence(Box::new(call("print", vec![])), Box::new(deep), at(1));
    let wrapped = Expr::Block(vec![Stmt::Expr(body)], at(1));
    let program = Program { fns: vec![decl("go", vec![Stmt::Expr(wrapped)])], types: vec![] };
    assert!(stack_hint(&program).starts_with("\n  `go` calls itself"));
}

#[test]
fn children_come_in_source_order() {
    let e = call("f", vec![ident("a"), ident("b")]);
    let kids: Vec<String> = for_each_child(&e)
        .into_iter()
        .map(|c| match c {
            Expr::Ident(n, _) => n.clone(),
            _ => String::new(),
        })
        .collect();
    assert_eq!(kids, vec!["f", "a", "b"]);
    let s = Expr::Str(
        vec![TemplatePart::Lit("n=".to_string()), TemplatePart::Interp(Box::new(ident("n")))],
        at(1),
    );
    assert_eq!(for_each_child(&s).len(), 1);
    let m = Expr::MapLit(vec![(ident("k"), ident("v"))], at(1));
    assert_eq!(for_each_child(&m).len(), 2);
    assert!(for_each_child(&ident("x")).is_empty());
}

#[test]
fn any_child_stops_at_the_first_match() {
    let e = call("f", vec![ident("a"), ident("b")]);
    assert!(any_child(&e, |c| matches!(c, Expr::Ident(n, _) if n == "a")));
    assert!(!any_child(&e, |c| matches!(c, Expr::Int(..))));
}

use kanso::ast::{getter_field, getter_name, Pattern, TypeDecl};
use kanso::lexer::Op;
use kanso::passes::{canonicalize_types, desugar_field_reads, desugar_inequality, prune_unused_getters};

fn arm(name: &str, params: Vec<Pattern>, body: Vec<Stmt>) -> FnDecl {
    FnDecl { name: name.to_string(), is_pub: true, span: at(1), params, body, file: "m.kso".to_string(), synthetic: false }
}

fn var(name: &str) -> Pattern {
    Pattern::Var(name.to_string(), at(1))
}

fn ne(l: Expr, r: Expr) -> Expr {
    Expr::BinOp { op: Op::Ne, lhs: Box::new(l), rhs: Box::new(r), span: at(3) }
}

fn record(name: &str, origin: Option<&str>, fields: Vec<(&str, Vec<&str>)>) -> TypeDecl {
    TypeDecl {
        name: name.to_string(),
        is_pub: true,
        span: at(1),
        synthetic: false,
        origin: origin.map(|o| o.to_string()),
        parent: None,
        members: vec![],
        fields: fields
            .into_iter()
            .map(|(f, tys)| (f.to_string(), tys.into_iter().map(|t| t.to_string()).collect(), at(1)))
            .collect(),
    }
}

#[test]
fn inequality_becomes_the_denial_of_an_armed_equality() {
    let eq_arm = arm("==", vec![var("a"), var("b")], vec![Stmt::Expr(ident("true"))]);
    let user = arm("main", vec![], vec![Stmt::Expr(ne(ident("x"), ident("y")))]);
    let mut program = Program { fns: vec![eq_arm, user], types: vec![] };
    desugar_inequality(&mut program);
    match &program.fns[1].body[0] {
        Stmt::Expr(Expr::App { head, args, span, piped }) => {
            assert!(matches!(head.as_ref(), Expr::Ident(n, s) if n == "if" && *s == at(3)));
            assert_eq!(*span, at(3));
            assert!(!piped);
            assert_eq!(args.len(), 3);
            assert!(matches!(&args[0], Expr::BinOp { op: Op::EqEq, .. }));
            assert!(matches!(&args[1], Expr::Ident(n, _) if n == "false"));
            assert!(matches!(&args[2], Expr::Ident(n, _) if n == "true"));
        }
        other => panic!("not rewritten: {other:?}"),
    }
}

#[test]
fn inequality_stays_builtin_without_an_arm() {
    let user = arm("main", vec![], vec![Stmt::Expr(ne(ident("x"), ident("y")))]);
    let one_param_eq = arm("==", vec![var("a")], vec![]);
    let mut program = Program { fns: vec![one_param_eq, user], types: vec![] };
    let before = format!("{program:?}");
    desugar_inequality(&mut program);
    assert_eq!(format!("{program:?}"), before);
}

#[test]
fn clone_type_names_settle_on_their_origin() {
    let ctor = Pattern::Ctor { ty: "pt2".to_string(), fields: vec![var("x"), Pattern::Annotated { name: "y".to_string(), ty: "pt2".to_string(), span: at(1) }], whole: None };
    let bind = Stmt::Bind { pattern: Pattern::Annotated { name: "p".to_string(), ty: "pt2".to_string(), span: at(1) }, expr: ident("q") };
    let mut program = Program {
        fns: vec![arm("f", vec![ctor, var("z")], vec![bind, Stmt::Expr(ident("pt2"))])],
        types: vec![record("point", None, vec![]), record("pt2", Some("point"), vec![("next", vec!["pt2", "int"])])],
    };
    canonicalize_types(&mut program);
    match &program.fns[0].params[0] {
        Pattern::Ctor { ty, fields, .. } => {
            assert_eq!(ty, "point");
            assert!(matches!(&fields[1], Pattern::Annotated { ty, .. } if ty == "point"));
        }
        other => panic!("{other:?}"),
    }
    assert!(matches!(&program.fns[0].body[0], Stmt::Bind { pattern: Pattern::Annotated { ty, .. }, .. } if ty == "point"));
    // an expression is no type position
    assert!(matches!(&program.fns[0].body[1], Stmt::Expr(Expr::Ident(n, _)) if n == "pt2"));
    assert_eq!(program.types[1].fields[0].1, vec!["point".to_string(), "int".to_string()]);
    assert_eq!(program.types[1].name, "pt2");
}

#[test]
fn without_clones_types_are_untouched() {
    let mut program = Program {
        fns: vec![arm("f", vec![Pattern::Ctor { ty: "pt2".to_string(), fields: vec![], whole: None }], vec![])],
        types: vec![record("pt2", None, vec![("a", vec!["pt2"])])],
    };
    let before = format!("{program:?}");
    canonicalize_types(&mut program);
    assert_eq!(format!("{program:?}"), before);
}

#[test]
fn a_field_read_calls_its_getter() {
    // p.next.x
    let inner = Expr::Field { base: Box::new(ident("p")), name: "next".to_string(), span: at(4) };
    let outer = Expr::Field { base: Box::new(inner), name: "x".to_string(), span: at(9) };
    let mut program = Program { fns: vec![arm("main", vec![], vec![Stmt::Expr(outer)])], types: vec![] };
    desugar_field_reads(&mut program);
    match &program.fns[0].body[0] {
        Stmt::Expr(Expr::App { head, args, span, piped: false }) => {
            assert!(matches!(head.as_ref(), Expr::Ident(n, s) if *n == getter_name("x") && *s == at(9)));
            assert_eq!(*span, at(9));
            match &args[0] {
                Expr::App { head, args, .. } => {
                    assert!(matches!(head.as_ref(), Expr::Ident(n, _) if *n == getter_name("next")));
                    assert!(matches!(&args[0], Expr::Ident(n, _) if n == "p"));
                }
                other => panic!("{other:?}"),
            }
        }
        other => panic!("{other:?}"),
    }
}

#[test]
fn a_getter_name_gives_back_its_field() {
    assert_eq!(getter_field(&getter_name("width")), Some("width".to_string()));
    assert_eq!(getter_field("width"), None);
}

#[test]
fn getters_nothing_reads_are_pruned() {
    let read_x = arm("main", vec![], vec![Stmt::Expr(call(&getter_name("x"), vec![ident("p")]))]);
    let read_z = arm("g", vec![], vec![Stmt::Expr(call(&format!("geo/{}", getter_name("z")), vec![ident("p")]))]);
    // a getter naming another getter keeps nothing alive
    let getter_y = arm(&getter_name("y"), vec![], vec![Stmt::Expr(ident(&getter_name("w")))]);
    let getter_x = arm(&getter_name("x"), vec![], vec![]);
    let getter_z = arm(&getter_name("z"), vec![], vec![]);
    let getter_w = arm(&getter_name("w"), vec![], vec![]);
    let mut program = Program { fns: vec![getter_y, read_x, getter_x, getter_w, read_z, getter_z], types: vec![] };
    prune_unused_getters(&mut program);
    let names: Vec<String> = program.fns.iter().map(|d| d.name.clone()).collect();
    assert_eq!(names, vec!["main".to_string(), getter_name("x"), "g".to_string(), getter_name("z")]);
}

#[test]
fn pruning_again_prunes_nothing_more() {
    let read_x = arm("main", vec![], vec![Stmt::Expr(call(&getter_name("x"), vec![ident("p")]))]);
    let getter_y = arm(&getter_name("y"), vec![], vec![Stmt::Expr(ident(&getter_name("x")))]);
    let getter_x = arm(&getter_name("x"), vec![], vec![]);
    let mut program = Program { fns: vec![getter_y, read_x, getter_x], types: vec![] };
    prune_unused_getters(&mut program);
    let once: Vec<String> = program.fns.iter().map(|d| d.name.clone()).collect();
    prune_unused_getters(&mut program);
    let twice: Vec<String> = program.fns.iter().map(|d| d.name.clone()).collect();
    assert_eq!(once, twice);
    assert_eq!(twice, vec!["main".to_string(), getter_name("x")]);
}

use kanso::passes::hoist_repeated_strings;

fn key(col: usize) -> Expr {
    // "k{i}"
    Expr::Str(vec![TemplatePart::Lit("k".to_string()), TemplatePart::Interp(Box::new(ident("i")))], at(col))
}

fn put_bump() -> Expr {
    // put m "k{i}" (bump m["k{i}"])
    let read = Expr::Index { base: Box::new(ident("m")), index: Box::new(key(20)), strict: true, span: at(18) };
    call("put", vec![ident("m"), key(7), call("bump", vec![read])])
}

#[test]
fn a_key_built_twice_is_built_once() {
    let mut program = Program { fns: vec![arm("main", vec![], vec![Stmt::Expr(put_bump())])], types: vec![] };
    hoist_repeated_strings(&mut program);
    let body = &program.fns[0].body;
    assert_eq!(body.len(), 2);
    match &body[0] {
        Stmt::Bind { pattern: Pattern::Var(n, s), expr: Expr::Str(parts, sp) } => {
            assert_eq!(n, "once0");
            assert_eq!(*s, at(7));
            assert_eq!(*sp, at(7));
            assert_eq!(parts.len(), 2);
        }
        other => panic!("{other:?}"),
    }
    let Stmt::Expr(Expr::App { args, .. }) = &body[1] else { panic!() };
    assert!(matches!(&args[1], Expr::Ident(n, s) if n == "once0" && *s == at(7)));
    let Expr::App { args: inner, .. } = &args[2] else { panic!() };
    let Expr::Index { index, .. } = &inner[0] else { panic!() };
    assert!(matches!(index.as_ref(), Expr::Ident(n, s) if n == "once0" && *s == at(20)));
}

#[test]
fn names_run_on_across_statements_and_skip_what_the_compiler_made() {
    let mut made = arm("made", vec![], vec![Stmt::Expr(put_bump())]);
    made.synthetic = true;
    let mut program = Program {
        fns: vec![
            arm("a", vec![], vec![Stmt::Expr(put_bump()), Stmt::Expr(put_bump())]),
            made,
            arm("b", vec![], vec![Stmt::Expr(put_bump())]),
        ],
        types: vec![],
    };
    hoist_repeated_strings(&mut program);
    let bound = |s: &Stmt| match s {
        Stmt::Bind { pattern: Pattern::Var(n, _), .. } => n.clone(),
        _ => String::new(),
    };
    assert_eq!(program.fns[0].body.len(), 4);
    assert_eq!(bound(&program.fns[0].body[0]), "once0");
    assert_eq!(bound(&program.fns[0].body[2]), "once1");
    assert_eq!(program.fns[1].body.len(), 1);
    assert_eq!(bound(&program.fns[2].body[0]), "once2");
}

#[test]
fn only_computation_over_names_is_hoisted() {
    // "k{f i}" twice: a call can fail or reach an effect
    let called = || Expr::Str(vec![TemplatePart::Interp(Box::new(call("f", vec![ident("i")])))], at(2));
    let once = call("put", vec![ident("m"), key(3)]);
    let lambda = Expr::Lambda { params: vec![], body: Box::new(call("g", vec![key(4), key(5)])), span: at(1) };
    let sum = || {
        Expr::Str(
            vec![TemplatePart::Interp(Box::new(Expr::BinOp {
                op: Op::Plus,
                lhs: Box::new(ident("i")),
                rhs: Box::new(ident("j")),
                span: at(1),
            }))],
            at(6),
        )
    };
    let mut program = Program {
        fns: vec![arm(
            "main",
            vec![],
            vec![
                Stmt::Expr(call("h", vec![called(), called()])),
                Stmt::Expr(once),
                Stmt::Expr(lambda),
                Stmt::Expr(call("h", vec![sum(), sum()])),
            ],
        )],
        types: vec![],
    };
    hoist_repeated_strings(&mut program);
    let body = &program.fns[0].body;
    assert_eq!(body.len(), 5);
    assert!(matches!(&body[3], Stmt::Bind { pattern: Pattern::Var(n, _), .. } if n == "once0"));
}
