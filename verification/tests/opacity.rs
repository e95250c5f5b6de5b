use kanso::ast::{Expr, FnDecl, Pattern, Program, Stmt, TypeDecl};
use kanso::diag::Span;
use kanso::passes::{collapse_diamonds, expr_span, foreign_destructures, private_uses};

fn ctor(ty: &str, fields: Vec<Pattern>) -> Pattern {
    Pattern::Ctor { ty: ty.to_string(), fields, whole: None }
}

fn var(n: &str) -> Pattern {
    Pattern::Var(n.to_string(), Span::at(1, 1))
}

#[test]
fn opening_a_foreign_type_is_refused_where_it_is_written() {
    let bound = Expr::Ident("p".to_string(), Span::at(3, 9));
    let d = FnDecl {
        name: "area".to_string(),
        is_pub: false,
        span: Span::at(2, 1),
        params: vec![ctor("box", vec![ctor("geo/point", vec![var("x")])]), ctor("geo/blank", vec![])],
        body: vec![Stmt::Bind { pattern: ctor("geo/shape", vec![var("s")]), expr: bound }],
        file: "main.kso".to_string(),
        synthetic: false,
    };
    let diags = foreign_destructures(&Program { fns: vec![d], types: vec![] });
    assert_eq!(diags.len(), 2);
    assert_eq!(diags[0].kind, "opacity");
    assert_eq!(
        diags[0].message,
        "`geo/point` is foreign — its structure does not cross an import; use its module's pub operations"
    );
    assert_eq!(diags[0].span, Span::at(2, 1));
    assert!(diags[1].message.starts_with("`geo/shape`"));
    assert_eq!(diags[1].span, Span::at(3, 9));
}

#[test]
fn a_private_qualified_name_is_refused_and_a_shadowed_one_explained() {
    let body = Expr::App {
        head: Box::new(Expr::Ident("geo/hidden".to_string(), Span::at(4, 2))),
        args: vec![Expr::Ident("geo/taken".to_string(), Span::at(4, 13)), Expr::Ident("geo/open".to_string(), Span::at(4, 23))],
        span: Span::at(4, 1),
        piped: false,
    };
    let exports = vec![
        ("geo/hidden".to_string(), false),
        ("geo/taken".to_string(), false),
        ("geo/open".to_string(), true),
    ];
    let diags = private_uses(&Stmt::Expr(body), &exports, &vec!["geo/taken".to_string()]);
    assert_eq!(diags.len(), 2);
    assert_eq!(diags[0].message, "`hidden` is private to module `geo` — only pub names cross an import");
    assert_eq!(diags[0].span, Span::at(4, 2));
    assert_eq!(
        diags[1].message,
        "`geo` declares `taken` pub, but an import of `geo` exports `taken` too and took the name — rename that import inside `geo`"
    );
    assert_eq!(expr_span(&Expr::Ident("x".to_string(), Span::at(7, 3))), Span::at(7, 3));
}

#[test]
fn a_declaration_reached_twice_is_kept_once() {
    let arm = |file: &str, col: usize| FnDecl {
        name: "shape/area".to_string(),
        is_pub: true,
        span: Span::at(1, col),
        params: vec![],
        body: vec![],
        file: file.to_string(),
        synthetic: false,
    };
    let ty = |col: usize| TypeDecl {
        name: "shape/box".to_string(),
        is_pub: true,
        span: Span::at(2, col),
        synthetic: false,
        origin: None,
        parent: None,
        members: vec![],
        fields: vec![],
    };
    // the same file by two spellings, then a second arm at another column
    let mut program = Program {
        fns: vec![arm("shape/shape.kso", 1), arm("mid/../shape/shape.kso", 1), arm("shape/shape.kso", 5)],
        types: vec![ty(1), ty(1), ty(3)],
    };
    collapse_diamonds(&mut program, &vec![7, 7, 7]);
    assert_eq!(program.fns.len(), 2);
    assert_eq!(program.fns[0].file, "shape/shape.kso");
    assert_eq!(program.fns[1].span, Span::at(1, 5));
    assert_eq!(program.types.len(), 2);
    // two different files are two declarations
    let mut program = Program { fns: vec![arm("a.kso", 1), arm("b.kso", 1)], types: vec![] };
    collapse_diamonds(&mut program, &vec![1, 2]);
    assert_eq!(program.fns.len(), 2);
}
