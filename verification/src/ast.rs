//! The syntax tree the passes read: expressions, statements, patterns and
//! function declarations, each carrying the span it was written at.

use vstd::prelude::*;
use crate::diag::Span;
use crate::lexer::Op;
use crate::number::Big;

mod copy;

pub use self::copy::{
    big_twin, copy_expr, copy_pattern, entries_twin, fields_twin, part_shell_twin, pattern_twin, shell_twin, stmt_shell_twin,
    stmts_shell_twin, twin, twins_among,
};

verus! {

#[derive(Debug)]
pub enum Expr {
    Int(Big, Span),
    /// A float literal, as written.
    Float(String, Span),
    Str(Vec<TemplatePart>, Span),
    Ident(String, Span),
    /// A partial application's placeholder name.
    Partial(String, Span),
    List(Vec<Expr>, Span),
    MapLit(Vec<(Expr, Expr)>, Span),
    BinOp { op: Op, lhs: Box<Expr>, rhs: Box<Expr>, span: Span },
    Join { lhs: Box<Expr>, rhs: Box<Expr>, span: Span },
    /// `a >> b`: run `a`, then `b`.
    Sequence(Box<Expr>, Box<Expr>, Span),
    App { head: Box<Expr>, args: Vec<Expr>, span: Span, piped: bool },
    Field { base: Box<Expr>, name: String, span: Span },
    Index { base: Box<Expr>, index: Box<Expr>, strict: bool, span: Span },
    Upcast { expr: Box<Expr>, span: Span },
    Lambda { params: Vec<(String, Span)>, body: Box<Expr>, span: Span },
    /// An early return: when `cond` holds the value is `early`, else the
    /// statements that follow.
    Guard { cond: Box<Expr>, early: Box<Expr>, rest: Vec<Stmt>, span: Span },
    Block(Vec<Stmt>, Span),
    Build(Vec<Stmt>, Span),
}

/// A piece of a string template: literal text, or an interpolated value.
#[derive(Debug)]
pub enum TemplatePart {
    Lit(String),
    Interp(Box<Expr>),
}

#[derive(Debug)]
pub enum Stmt {
    Bind { pattern: Pattern, expr: Expr },
    Expr(Expr),
    /// `set name value`, inside a `build`.
    Assign { name: String, value: Expr },
}

#[derive(Debug)]
pub enum Pattern {
    Var(String, Span),
    Wildcard(Span),
    IntLit(Big, Span),
    StrLit(String, Span),
    Nullary(String, Span),
    Annotated { name: String, ty: String, span: Span },
    Ctor { ty: String, fields: Vec<Pattern>, whole: Option<String> },
    Keyed { entries: Vec<(String, Pattern)>, span: Span },
}

/// A function declaration: one arm of an overload group.
#[derive(Debug)]
pub struct FnDecl {
    pub name: String,
    pub is_pub: bool,
    pub span: Span,
    pub params: Vec<Pattern>,
    pub body: Vec<Stmt>,
    pub file: String,
    pub synthetic: bool,
}

/// A type declaration. A record lists its fields, each with the types it
/// admits; a type set lists its members; a refinement names its parent. A
/// clone that an import enrolled under another name keeps the name it was
/// declared with as its origin.
#[derive(Debug)]
pub struct TypeDecl {
    pub name: String,
    pub is_pub: bool,
    pub span: Span,
    pub synthetic: bool,
    pub origin: Option<String>,
    pub parent: Option<String>,
    pub members: Vec<String>,
    pub fields: Vec<(String, Vec<String>, Span)>,
}

/// The types and function declarations of a program, in order.
#[derive(Debug)]
pub struct Program {
    pub fns: Vec<FnDecl>,
    pub types: Vec<TypeDecl>,
}

/// The name of the function that reads field `field`: the field's name
/// behind a dot, a spelling no program can write as a name of its own.
pub open spec fn getter_of(field: Seq<char>) -> Seq<char> {
    seq!['.'] + field
}

/// Whether `name` is a field getter's.
pub open spec fn is_getter_name(name: Seq<char>) -> bool {
    name.len() >= 1 && name[0] == '.'
}

/// The getter that reads `field`.
pub fn getter_name(field: &str) -> (r: String)
    ensures
        r@ == getter_of(field@),
{
    let mut cs: Vec<char> = Vec::new();
    cs.push('.');
    crate::text::push_str(&mut cs, field);
    assert(cs@ =~= getter_of(field@));
    crate::text::string_from_chars(cs.as_slice())
}

/// The field a getter reads, when `name` is a getter's.
pub fn getter_field(name: &str) -> (r: Option<String>)
    ensures
        r is Some <==> is_getter_name(name@),
        r matches Some(f) ==> getter_of(f@) == name@,
{
    let cs = crate::text::chars_of(name);
    if cs.len() >= 1 && cs[0] == '.' {
        let rest = crate::text::slice_vec(cs.as_slice(), 1, cs.len());
        assert(getter_of(rest@) =~= name@);
        Some(crate::text::string_from_chars(rest.as_slice()))
    } else {
        None
    }
}

impl FnDecl {
    /// Whether this arm is a field getter.
    pub fn is_getter(&self) -> (r: bool)
        ensures
            r == is_getter_name(self.name@),
    {
        let cs = crate::text::chars_of(self.name.as_str());
        cs.len() >= 1 && cs[0] == '.'
    }
}

/// The expression a statement carries.
pub open spec fn stmt_expr(s: Stmt) -> Expr {
    match s {
        Stmt::Bind { expr, .. } => expr,
        Stmt::Expr(e) => e,
        Stmt::Assign { value, .. } => value,
    }
}

/// How many expression nodes `e` holds, itself included.
pub open spec fn size(e: Expr) -> nat
    decreases e, 0nat,
{
    match e {
        Expr::Int(..) => 1,
        Expr::Float(..) => 1,
        Expr::Ident(..) => 1,
        Expr::Partial(..) => 1,
        Expr::Str(parts, _) => 1 + parts_size(parts@, parts@.len()),
        Expr::List(items, _) => 1 + exprs_size(items@, items@.len()),
        Expr::MapLit(pairs, _) => 1 + pairs_size(pairs@, pairs@.len()),
        Expr::BinOp { lhs, rhs, .. } => 1 + size(*lhs) + size(*rhs),
        Expr::Join { lhs, rhs, .. } => 1 + size(*lhs) + size(*rhs),
        Expr::Sequence(a, b, _) => 1 + size(*a) + size(*b),
        Expr::App { head, args, .. } => 1 + size(*head) + exprs_size(args@, args@.len()),
        Expr::Field { base, .. } => 1 + size(*base),
        Expr::Index { base, index, .. } => 1 + size(*base) + size(*index),
        Expr::Upcast { expr, .. } => 1 + size(*expr),
        Expr::Lambda { body, .. } => 1 + size(*body),
        Expr::Guard { cond, early, rest, .. } => 1 + size(*cond) + size(*early) + stmts_size(rest@, rest@.len()),
        Expr::Block(ss, _) => 1 + stmts_size(ss@, ss@.len()),
        Expr::Build(ss, _) => 1 + stmts_size(ss@, ss@.len()),
    }
}

pub open spec fn exprs_size(es: Seq<Expr>, n: nat) -> nat
    decreases es, n,
{
    if n == 0 || n > es.len() {
        0
    } else {
        exprs_size(es, (n - 1) as nat) + size(es[n - 1])
    }
}

pub open spec fn stmts_size(ss: Seq<Stmt>, n: nat) -> nat
    decreases ss, n,
{
    if n == 0 || n > ss.len() {
        0
    } else {
        stmts_size(ss, (n - 1) as nat) + match ss[n - 1] {
            Stmt::Bind { expr, .. } => size(expr),
            Stmt::Expr(e) => size(e),
            Stmt::Assign { value, .. } => size(value),
        }
    }
}

pub open spec fn pairs_size(ps: Seq<(Expr, Expr)>, n: nat) -> nat
    decreases ps, n,
{
    if n == 0 || n > ps.len() {
        0
    } else {
        pairs_size(ps, (n - 1) as nat) + size(ps[n - 1].0) + size(ps[n - 1].1)
    }
}

pub open spec fn parts_size(ps: Seq<TemplatePart>, n: nat) -> nat
    decreases ps, n,
{
    if n == 0 || n > ps.len() {
        0
    } else {
        parts_size(ps, (n - 1) as nat) + match ps[n - 1] {
            TemplatePart::Lit(_) => 0,
            TemplatePart::Interp(b) => size(*b),
        }
    }
}

/// The expressions of statements, in order.
pub open spec fn stmt_exprs(ss: Seq<Stmt>) -> Seq<Expr> {
    ss.map_values(|s: Stmt| stmt_expr(s))
}

/// Each pair's key, then its value, pair after pair.
pub open spec fn pair_exprs(ps: Seq<(Expr, Expr)>) -> Seq<Expr>
    decreases ps.len(),
{
    if ps.len() == 0 {
        Seq::empty()
    } else {
        pair_exprs(ps.drop_last()) + seq![ps.last().0, ps.last().1]
    }
}

/// The interpolated values of a template, in order.
pub open spec fn interps(ps: Seq<TemplatePart>) -> Seq<Expr>
    decreases ps.len(),
{
    if ps.len() == 0 {
        Seq::empty()
    } else {
        interps(ps.drop_last()) + match ps.last() {
            TemplatePart::Lit(_) => Seq::<Expr>::empty(),
            TemplatePart::Interp(b) => seq![*b],
        }
    }
}

/// Every direct sub-expression of `e`, in source order.
pub open spec fn children(e: Expr) -> Seq<Expr> {
    match e {
        Expr::Int(..) => Seq::empty(),
        Expr::Float(..) => Seq::empty(),
        Expr::Ident(..) => Seq::empty(),
        Expr::Partial(..) => Seq::empty(),
        Expr::Upcast { expr, .. } => seq![*expr],
        Expr::Guard { cond, early, rest, .. } => seq![*cond, *early] + stmt_exprs(rest@),
        Expr::Block(ss, _) => stmt_exprs(ss@),
        Expr::Build(ss, _) => stmt_exprs(ss@),
        Expr::App { head, args, .. } => seq![*head] + args@,
        Expr::Field { base, .. } => seq![*base],
        Expr::Index { base, index, .. } => seq![*base, *index],
        Expr::BinOp { lhs, rhs, .. } => seq![*lhs, *rhs],
        Expr::Join { lhs, rhs, .. } => seq![*lhs, *rhs],
        Expr::Sequence(a, b, _) => seq![*a, *b],
        Expr::Lambda { body, .. } => seq![*body],
        Expr::List(items, _) => items@,
        Expr::MapLit(pairs, _) => pair_exprs(pairs@),
        Expr::Str(parts, _) => interps(parts@),
    }
}

proof fn lemma_exprs_size(es: Seq<Expr>, n: nat)
    requires
        n <= es.len(),
    ensures
        forall|i: int| 0 <= i < n ==> size(#[trigger] es[i]) <= exprs_size(es, n),
    decreases n,
{
    if n > 0 {
        lemma_exprs_size(es, (n - 1) as nat);
    }
}

pub(crate) proof fn lemma_stmts_size(ss: Seq<Stmt>, n: nat)
    requires
        n <= ss.len(),
    ensures
        forall|i: int| 0 <= i < n ==> size(#[trigger] stmt_exprs(ss)[i]) <= stmts_size(ss, n),
    decreases n,
{
    if n > 0 {
        lemma_stmts_size(ss, (n - 1) as nat);
        assert(stmt_exprs(ss)[n - 1] == stmt_expr(ss[n - 1]));
    }
}

proof fn lemma_pairs_size(ps: Seq<(Expr, Expr)>, n: nat)
    requires
        n <= ps.len(),
    ensures
        pair_exprs(ps.subrange(0, n as int)).len() == 2 * n,
        forall|i: int| 0 <= i < 2 * n ==> size(#[trigger] pair_exprs(ps.subrange(0, n as int))[i]) <= pairs_size(ps, n),
    decreases n,
{
    if n > 0 {
        lemma_pairs_size(ps, (n - 1) as nat);
        let sub = ps.subrange(0, n as int);
        assert(sub.drop_last() =~= ps.subrange(0, n - 1));
        assert(sub.last() == ps[n - 1]);
    } else {
        assert(ps.subrange(0, 0) =~= Seq::<(Expr, Expr)>::empty());
    }
}

proof fn lemma_parts_size(ps: Seq<TemplatePart>, n: nat)
    requires
        n <= ps.len(),
    ensures
        forall|i: int| 0 <= i < interps(ps.subrange(0, n as int)).len() ==> size(#[trigger] interps(ps.subrange(0, n as int))[i])
            <= parts_size(ps, n),
    decreases n,
{
    if n > 0 {
        lemma_parts_size(ps, (n - 1) as nat);
        let sub = ps.subrange(0, n as int);
        let prev = ps.subrange(0, n - 1);
        assert(sub.drop_last() =~= prev);
        assert(sub.last() == ps[n - 1]);
        let whole = interps(sub);
        assert forall|i: int| 0 <= i < whole.len() implies size(#[trigger] whole[i]) <= parts_size(ps, n) by {
            if i < interps(prev).len() {
                assert(whole[i] == interps(prev)[i]);
            } else {
                match ps[n - 1] {
                    TemplatePart::Lit(_) => {},
                    TemplatePart::Interp(b) => {
                        assert(whole[i] == *b);
                    },
                }
            }
        }
    } else {
        assert(ps.subrange(0, 0) =~= Seq::<TemplatePart>::empty());
    }
}

/// The parts of a call, a guard and a lambda are smaller than the whole.
pub proof fn lemma_parts_smaller(e: Expr)
    ensures
        e is App ==> size(*e->head) < size(e) && forall|k: int| 0 <= k < e->args@.len() ==> size(#[trigger] e->args@[k]) < size(e),
        e is Guard ==> size(*e->cond) < size(e) && size(*e->early) < size(e) && forall|k: int|
            0 <= k < e->rest@.len() ==> size(#[trigger] stmt_expr(e->rest@[k])) < size(e),
        e is Lambda ==> size(*e->body) < size(e),
{
    lemma_children_smaller(e);
    match e {
        Expr::App { head, args, .. } => {
            assert(children(e)[0] == *head);
            assert forall|k: int| 0 <= k < args@.len() implies size(#[trigger] args@[k]) < size(e) by {
                assert(children(e)[k + 1] == args@[k]);
            }
        },
        Expr::Guard { cond, early, rest, .. } => {
            assert(children(e)[0] == *cond);
            assert(children(e)[1] == *early);
            assert forall|k: int| 0 <= k < rest@.len() implies size(#[trigger] stmt_expr(rest@[k])) < size(e) by {
                assert(children(e)[k + 2] == stmt_exprs(rest@)[k]);
            }
        },
        Expr::Lambda { body, .. } => {
            assert(children(e)[0] == *body);
        },
        _ => {},
    }
}

/// Every direct sub-expression is smaller than the expression holding it.
pub proof fn lemma_children_smaller(e: Expr)
    ensures
        forall|i: int| 0 <= i < children(e).len() ==> size(#[trigger] children(e)[i]) < size(e),
{
    match e {
        Expr::Guard { cond, early, rest, .. } => {
            lemma_stmts_size(rest@, rest@.len());
            assert forall|i: int| 0 <= i < children(e).len() implies size(#[trigger] children(e)[i]) < size(e) by {
                if i >= 2 {
                    assert(children(e)[i] == stmt_exprs(rest@)[i - 2]);
                }
            }
        },
        Expr::Block(ss, _) => {
            lemma_stmts_size(ss@, ss@.len());
        },
        Expr::Build(ss, _) => {
            lemma_stmts_size(ss@, ss@.len());
        },
        Expr::App { head, args, .. } => {
            lemma_exprs_size(args@, args@.len());
            assert forall|i: int| 0 <= i < children(e).len() implies size(#[trigger] children(e)[i]) < size(e) by {
                if i >= 1 {
                    assert(children(e)[i] == args@[i - 1]);
                }
            }
        },
        Expr::List(items, _) => {
            lemma_exprs_size(items@, items@.len());
        },
        Expr::MapLit(pairs, _) => {
            lemma_pairs_size(pairs@, pairs@.len());
            assert(pairs@.subrange(0, pairs@.len() as int) =~= pairs@);
        },
        Expr::Str(parts, _) => {
            lemma_parts_size(parts@, parts@.len());
            assert(parts@.subrange(0, parts@.len() as int) =~= parts@);
        },
        _ => {},
    }
}

} // verus!

verus! {

/// The expressions a run of references points at.
pub open spec fn refs(rs: Seq<&Expr>) -> Seq<Expr> {
    rs.map_values(|r: &Expr| *r)
}

pub(crate) fn stmt_expr_of(s: &Stmt) -> (r: &Expr)
    ensures
        *r == stmt_expr(*s),
{
    match s {
        Stmt::Bind { expr, .. } => expr,
        Stmt::Expr(e) => e,
        Stmt::Assign { value, .. } => value,
    }
}

fn push_stmts<'a>(out: &mut Vec<&'a Expr>, ss: &'a Vec<Stmt>)
    ensures
        refs(final(out)@) == refs(old(out)@) + stmt_exprs(ss@),
{
    let mut i: usize = 0;
    while i < ss.len()
        invariant
            i <= ss@.len(),
            refs(out@) == refs(old(out)@) + stmt_exprs(ss@).subrange(0, i as int),
        decreases ss@.len() - i,
    {
        let ghost before = out@;
        out.push(stmt_expr_of(&ss[i]));
        assert(refs(out@) =~= refs(before).push(stmt_expr(ss@[i as int])));
        i += 1;
        assert(stmt_exprs(ss@).subrange(0, i as int) =~= stmt_exprs(ss@).subrange(0, i - 1).push(
            stmt_expr(ss@[i - 1]),
        ));
    }
    assert(stmt_exprs(ss@).subrange(0, i as int) =~= stmt_exprs(ss@));
}

fn push_exprs<'a>(out: &mut Vec<&'a Expr>, es: &'a Vec<Expr>)
    ensures
        refs(final(out)@) == refs(old(out)@) + es@,
{
    let mut i: usize = 0;
    while i < es.len()
        invariant
            i <= es@.len(),
            refs(out@) == refs(old(out)@) + es@.subrange(0, i as int),
        decreases es@.len() - i,
    {
        let ghost before = out@;
        out.push(&es[i]);
        assert(refs(out@) =~= refs(before).push(es@[i as int]));
        i += 1;
        assert(es@.subrange(0, i as int) =~= es@.subrange(0, i - 1).push(es@[i - 1]));
    }
    assert(es@.subrange(0, i as int) =~= es@);
}

fn push_pairs<'a>(out: &mut Vec<&'a Expr>, ps: &'a Vec<(Expr, Expr)>)
    ensures
        refs(final(out)@) == refs(old(out)@) + pair_exprs(ps@),
{
    let mut i: usize = 0;
    assert(ps@.subrange(0, 0) =~= Seq::<(Expr, Expr)>::empty());
    while i < ps.len()
        invariant
            i <= ps@.len(),
            refs(out@) == refs(old(out)@) + pair_exprs(ps@.subrange(0, i as int)),
        decreases ps@.len() - i,
    {
        let ghost before = out@;
        out.push(&ps[i].0);
        out.push(&ps[i].1);
        let ghost sub = ps@.subrange(0, i + 1);
        assert(sub.drop_last() =~= ps@.subrange(0, i as int));
        assert(refs(out@) =~= refs(before) + seq![ps@[i as int].0, ps@[i as int].1]);
        i += 1;
    }
    assert(ps@.subrange(0, i as int) =~= ps@);
}

fn push_interps<'a>(out: &mut Vec<&'a Expr>, ps: &'a Vec<TemplatePart>)
    ensures
        refs(final(out)@) == refs(old(out)@) + interps(ps@),
{
    let mut i: usize = 0;
    assert(ps@.subrange(0, 0) =~= Seq::<TemplatePart>::empty());
    while i < ps.len()
        invariant
            i <= ps@.len(),
            refs(out@) == refs(old(out)@) + interps(ps@.subrange(0, i as int)),
        decreases ps@.len() - i,
    {
        let ghost before = out@;
        let ghost sub = ps@.subrange(0, i + 1);
        assert(sub.drop_last() =~= ps@.subrange(0, i as int));
        match &ps[i] {
            TemplatePart::Lit(_) => {
                assert(refs(out@) =~= refs(old(out)@) + interps(sub));
            },
            TemplatePart::Interp(b) => {
                out.push(&**b);
                assert(refs(out@) =~= refs(before).push(**b));
                assert(refs(out@) =~= refs(old(out)@) + interps(sub));
            },
        }
        i += 1;
    }
    assert(ps@.subrange(0, i as int) =~= ps@);
}

/// Every direct sub-expression of `e`, in source order.
pub fn for_each_child(e: &Expr) -> (r: Vec<&Expr>)
    ensures
        refs(r@) == children(*e),
{
    let mut out: Vec<&Expr> = Vec::new();
    assert(refs(out@) =~= Seq::<Expr>::empty());
    match e {
        Expr::Int(..) => {},
        Expr::Float(..) => {},
        Expr::Ident(..) => {},
        Expr::Partial(..) => {},
        Expr::Upcast { expr, .. } => {
            out.push(&**expr);
        },
        Expr::Guard { cond, early, rest, .. } => {
            out.push(&**cond);
            out.push(&**early);
            assert(refs(out@) =~= seq![**cond, **early]);
            push_stmts(&mut out, rest);
        },
        Expr::Block(ss, _) => {
            push_stmts(&mut out, ss);
        },
        Expr::Build(ss, _) => {
            push_stmts(&mut out, ss);
        },
        Expr::App { head, args, .. } => {
            out.push(&**head);
            assert(refs(out@) =~= seq![**head]);
            push_exprs(&mut out, args);
        },
        Expr::Field { base, .. } => {
            out.push(&**base);
        },
        Expr::Index { base, index, .. } => {
            out.push(&**base);
            out.push(&**index);
        },
        Expr::BinOp { lhs, rhs, .. } => {
            out.push(&**lhs);
            out.push(&**rhs);
        },
        Expr::Join { lhs, rhs, .. } => {
            out.push(&**lhs);
            out.push(&**rhs);
        },
        Expr::Sequence(a, b, _) => {
            out.push(&**a);
            out.push(&**b);
        },
        Expr::Lambda { body, .. } => {
            out.push(&**body);
        },
        Expr::List(items, _) => {
            push_exprs(&mut out, items);
        },
        Expr::MapLit(pairs, _) => {
            push_pairs(&mut out, pairs);
        },
        Expr::Str(parts, _) => {
            push_interps(&mut out, parts);
        },
    }
    assert(refs(out@) =~= children(*e));
    out
}

/// Whether any direct sub-expression of `e` satisfies `p`, asking in
/// source order and stopping at the first that does.
pub fn any_child<'a, P: Fn(&'a Expr) -> bool>(e: &'a Expr, p: P) -> (r: bool)
    requires
        forall|c: &'a Expr| children(*e).contains(*c) ==> #[trigger] p.requires((c,)),
    ensures
        r ==> exists|i: int| 0 <= i < children(*e).len() && p.ensures((&children(*e)[i],), true),
        !r ==> forall|i: int| 0 <= i < children(*e).len() ==> p.ensures((&children(*e)[i],), false),
{
    let kids = for_each_child(e);
    let mut i: usize = 0;
    while i < kids.len()
        invariant
            i <= kids@.len(),
            refs(kids@) == children(*e),
            forall|c: &'a Expr| children(*e).contains(*c) ==> #[trigger] p.requires((c,)),
            forall|j: int| 0 <= j < i ==> p.ensures((&children(*e)[j],), false),
        decreases kids@.len() - i,
    {
        let c = kids[i];
        assert(refs(kids@)[i as int] == *c);
        assert(children(*e).contains(*c));
        if p(c) {
            return true;
        }
        i += 1;
    }
    false
}

} // verus!

verus! {

/// Two statements alike but for the expression they carry.
pub open spec fn same_stmt_shape(a: Stmt, b: Stmt) -> bool {
    match (a, b) {
        (Stmt::Bind { pattern: p, .. }, Stmt::Bind { pattern: q, .. }) => p == q,
        (Stmt::Expr(_), Stmt::Expr(_)) => true,
        (Stmt::Assign { name: n, .. }, Stmt::Assign { name: m, .. }) => n == m,
        _ => false,
    }
}

pub open spec fn same_stmts_shape(a: Seq<Stmt>, b: Seq<Stmt>) -> bool {
    a.len() == b.len() && forall|i: int| 0 <= i < a.len() ==> same_stmt_shape(#[trigger] a[i], b[i])
}

/// Two template parts alike but for an interpolated value.
pub open spec fn same_part_shape(a: TemplatePart, b: TemplatePart) -> bool {
    match (a, b) {
        (TemplatePart::Lit(s), TemplatePart::Lit(t)) => s == t,
        (TemplatePart::Interp(_), TemplatePart::Interp(_)) => true,
        _ => false,
    }
}

/// Two expressions alike in everything but their direct sub-expressions:
/// the same variant, with the same names, operators, spans and patterns.
pub open spec fn same_shape(a: Expr, b: Expr) -> bool {
    match (a, b) {
        (Expr::Int(x, s), Expr::Int(y, t)) => x == y && s == t,
        (Expr::Float(x, s), Expr::Float(y, t)) => x == y && s == t,
        (Expr::Str(ps, s), Expr::Str(qs, t)) => s == t && ps@.len() == qs@.len() && forall|i: int|
            0 <= i < ps@.len() ==> same_part_shape(#[trigger] ps@[i], qs@[i]),
        (Expr::Ident(x, s), Expr::Ident(y, t)) => x == y && s == t,
        (Expr::Partial(x, s), Expr::Partial(y, t)) => x == y && s == t,
        (Expr::List(xs, s), Expr::List(ys, t)) => s == t && xs@.len() == ys@.len(),
        (Expr::MapLit(xs, s), Expr::MapLit(ys, t)) => s == t && xs@.len() == ys@.len(),
        (Expr::BinOp { op: o, span: s, .. }, Expr::BinOp { op: p, span: t, .. }) => o == p && s == t,
        (Expr::Join { span: s, .. }, Expr::Join { span: t, .. }) => s == t,
        (Expr::Sequence(_, _, s), Expr::Sequence(_, _, t)) => s == t,
        (Expr::App { args: x, span: s, piped: p, .. }, Expr::App { args: y, span: t, piped: q, .. }) => x@.len()
            == y@.len() && s == t && p == q,
        (Expr::Field { name: n, span: s, .. }, Expr::Field { name: m, span: t, .. }) => n == m && s == t,
        (Expr::Index { strict: x, span: s, .. }, Expr::Index { strict: y, span: t, .. }) => x == y && s == t,
        (Expr::Upcast { span: s, .. }, Expr::Upcast { span: t, .. }) => s == t,
        (Expr::Lambda { params: x, span: s, .. }, Expr::Lambda { params: y, span: t, .. }) => x@ == y@ && s == t,
        (Expr::Guard { rest: x, span: s, .. }, Expr::Guard { rest: y, span: t, .. }) => same_stmts_shape(x@, y@)
            && s == t,
        (Expr::Block(x, s), Expr::Block(y, t)) => same_stmts_shape(x@, y@) && s == t,
        (Expr::Build(x, s), Expr::Build(y, t)) => same_stmts_shape(x@, y@) && s == t,
        _ => false,
    }
}

/// `f` took each of `from` to the same place in `to`.
pub open spec fn mapped_by<F: Fn(Expr) -> Expr>(f: F, from: Seq<Expr>, to: Seq<Expr>) -> bool {
    from.len() == to.len() && forall|i: int| 0 <= i < from.len() ==> f.ensures((from[i],), #[trigger] to[i])
}

fn map_exprs<F: Fn(Expr) -> Expr>(v: Vec<Expr>, f: &F) -> (r: Vec<Expr>)
    requires
        forall|i: int| 0 <= i < v@.len() ==> f.requires((#[trigger] v@[i],)),
    ensures
        mapped_by(*f, v@, r@),
{
    let ghost orig = v@;
    let mut v = v;
    let mut back: Vec<Expr> = Vec::new();
    while v.len() > 0
        invariant
            v@.len() + back@.len() == orig.len(),
            v@ == orig.subrange(0, v@.len() as int),
            forall|i: int| 0 <= i < back@.len() ==> back@[i] == orig[orig.len() - 1 - i],
        decreases v@.len(),
    {
        let x = v.pop().unwrap();
        back.push(x);
        assert(v@ =~= orig.subrange(0, v@.len() as int));
    }
    let mut out: Vec<Expr> = Vec::new();
    while back.len() > 0
        invariant
            back@.len() + out@.len() == orig.len(),
            forall|i: int| 0 <= i < back@.len() ==> back@[i] == orig[orig.len() - 1 - i],
            forall|i: int| 0 <= i < orig.len() ==> f.requires((#[trigger] orig[i],)),
            forall|i: int| 0 <= i < out@.len() ==> f.ensures((orig[i],), #[trigger] out@[i]),
        decreases back@.len(),
    {
        let x = back.pop().unwrap();
        assert(x == orig[out@.len() as int]);
        let y = f(x);
        out.push(y);
    }
    out
}

pub fn map_stmts<F: Fn(Expr) -> Expr>(v: Vec<Stmt>, f: &F) -> (r: Vec<Stmt>)
    requires
        forall|i: int| 0 <= i < v@.len() ==> f.requires((#[trigger] stmt_exprs(v@)[i],)),
    ensures
        same_stmts_shape(v@, r@),
        mapped_by(*f, stmt_exprs(v@), stmt_exprs(r@)),
{
    let ghost orig = v@;
    let mut v = v;
    let mut back: Vec<Stmt> = Vec::new();
    while v.len() > 0
        invariant
            v@.len() + back@.len() == orig.len(),
            v@ == orig.subrange(0, v@.len() as int),
            forall|i: int| 0 <= i < back@.len() ==> back@[i] == orig[orig.len() - 1 - i],
        decreases v@.len(),
    {
        let x = v.pop().unwrap();
        back.push(x);
        assert(v@ =~= orig.subrange(0, v@.len() as int));
    }
    let mut out: Vec<Stmt> = Vec::new();
    while back.len() > 0
        invariant
            back@.len() + out@.len() == orig.len(),
            forall|i: int| 0 <= i < back@.len() ==> back@[i] == orig[orig.len() - 1 - i],
            forall|i: int| 0 <= i < orig.len() ==> f.requires((#[trigger] stmt_exprs(orig)[i],)),
            forall|i: int| 0 <= i < out@.len() ==> same_stmt_shape(#[trigger] orig[i], out@[i]),
            forall|i: int| 0 <= i < out@.len() ==> f.ensures((stmt_expr(orig[i]),), stmt_expr(#[trigger] out@[i])),
        decreases back@.len(),
    {
        let x = back.pop().unwrap();
        let k = out.len();
        assert(x == orig[k as int]);
        assert(stmt_exprs(orig)[k as int] == stmt_expr(x));
        let y = match x {
            Stmt::Bind { pattern, expr } => Stmt::Bind { pattern, expr: f(expr) },
            Stmt::Expr(e) => Stmt::Expr(f(e)),
            Stmt::Assign { name, value } => Stmt::Assign { name, value: f(value) },
        };
        out.push(y);
    }
    proof {
        assert forall|i: int| 0 <= i < orig.len() implies f.ensures((stmt_exprs(orig)[i],), #[trigger] stmt_exprs(out@)[i]) by {
            assert(stmt_exprs(orig)[i] == stmt_expr(orig[i]));
            assert(stmt_exprs(out@)[i] == stmt_expr(out@[i]));
        }
    }
    out
}

pub proof fn lemma_pair_exprs(ps: Seq<(Expr, Expr)>)
    ensures
        pair_exprs(ps).len() == 2 * ps.len(),
        forall|k: int| 0 <= k < ps.len() ==> pair_exprs(ps)[2 * k] == (#[trigger] ps[k]).0 && pair_exprs(ps)[2 * k + 1] == ps[k].1,
    decreases ps.len(),
{
    if ps.len() > 0 {
        lemma_pair_exprs(ps.drop_last());
        assert forall|k: int| 0 <= k < ps.len() implies pair_exprs(ps)[2 * k] == (#[trigger] ps[k]).0 && pair_exprs(ps)[2 * k + 1] == ps[k].1 by {
            if k < ps.len() - 1 {
                assert(ps.drop_last()[k] == ps[k]);
            }
        }
    }
}

fn map_pairs<F: Fn(Expr) -> Expr>(v: Vec<(Expr, Expr)>, f: &F) -> (r: Vec<(Expr, Expr)>)
    requires
        forall|i: int| 0 <= i < pair_exprs(v@).len() ==> f.requires((#[trigger] pair_exprs(v@)[i],)),
    ensures
        r@.len() == v@.len(),
        mapped_by(*f, pair_exprs(v@), pair_exprs(r@)),
{
    let ghost orig = v@;
    proof {
        lemma_pair_exprs(orig);
    }
    let mut v = v;
    let mut back: Vec<(Expr, Expr)> = Vec::new();
    while v.len() > 0
        invariant
            v@.len() + back@.len() == orig.len(),
            v@ == orig.subrange(0, v@.len() as int),
            forall|i: int| 0 <= i < back@.len() ==> back@[i] == orig[orig.len() - 1 - i],
        decreases v@.len(),
    {
        let x = v.pop().unwrap();
        back.push(x);
        assert(v@ =~= orig.subrange(0, v@.len() as int));
    }
    let mut out: Vec<(Expr, Expr)> = Vec::new();
    while back.len() > 0
        invariant
            back@.len() + out@.len() == orig.len(),
            forall|i: int| 0 <= i < back@.len() ==> back@[i] == orig[orig.len() - 1 - i],
            pair_exprs(orig).len() == 2 * orig.len(),
            forall|k: int| 0 <= k < orig.len() ==> pair_exprs(orig)[2 * k] == (#[trigger] orig[k]).0 && pair_exprs(orig)[2 * k + 1] == orig[k].1,
            forall|i: int| 0 <= i < pair_exprs(orig).len() ==> f.requires((#[trigger] pair_exprs(orig)[i],)),
            forall|i: int| 0 <= i < out@.len() ==> f.ensures((orig[i].0,), (#[trigger] out@[i]).0) && f.ensures((orig[i].1,), out@[i].1),
        decreases back@.len(),
    {
        let x = back.pop().unwrap();
        let k = out.len();
        assert(x == orig[k as int]);
        assert(pair_exprs(orig)[2 * k] == orig[k as int].0);
        assert(pair_exprs(orig)[2 * k + 1] == orig[k as int].1);
        let (a, b) = x;
        let fa = f(a);
        let fb = f(b);
        out.push((fa, fb));
    }
    proof {
        lemma_pair_exprs(out@);
        assert forall|i: int| 0 <= i < pair_exprs(orig).len() implies f.ensures((pair_exprs(orig)[i],), #[trigger] pair_exprs(out@)[i]) by {
            let k = i / 2;
            if i % 2 == 0 {
                assert(i == 2 * k);
                assert(pair_exprs(orig)[2 * k] == orig[k].0);
                assert(pair_exprs(out@)[2 * k] == out@[k].0);
            } else {
                assert(i == 2 * k + 1);
                assert(pair_exprs(orig)[2 * k + 1] == orig[k].1);
                assert(pair_exprs(out@)[2 * k + 1] == out@[k].1);
            }
        }
    }
    out
}

} // verus!

verus! {

/// Each part of `to` is the part of `from` at its place, with an
/// interpolated value mapped by `f`.
pub open spec fn parts_mapped_by<F: Fn(Expr) -> Expr>(f: F, from: Seq<TemplatePart>, to: Seq<TemplatePart>) -> bool {
    &&& from.len() == to.len()
    &&& forall|i: int| 0 <= i < from.len() ==> same_part_shape(#[trigger] from[i], to[i])
    &&& forall|i: int|
        0 <= i < from.len() ==> match (#[trigger] from[i], to[i]) {
            (TemplatePart::Interp(a), TemplatePart::Interp(b)) => f.ensures((*a,), *b),
            _ => true,
        }
}

proof fn lemma_interps_mapped<F: Fn(Expr) -> Expr>(f: F, from: Seq<TemplatePart>, to: Seq<TemplatePart>)
    requires
        parts_mapped_by(f, from, to),
    ensures
        mapped_by(f, interps(from), interps(to)),
    decreases from.len(),
{
    if from.len() > 0 {
        let a = from.drop_last();
        let b = to.drop_last();
        assert forall|i: int| 0 <= i < a.len() implies same_part_shape(#[trigger] a[i], b[i]) by {
            assert(a[i] == from[i] && b[i] == to[i]);
        }
        assert forall|i: int| 0 <= i < a.len() implies match (#[trigger] a[i], b[i]) {
            (TemplatePart::Interp(x), TemplatePart::Interp(y)) => f.ensures((*x,), *y),
            _ => true,
        } by {
            assert(a[i] == from[i] && b[i] == to[i]);
        }
        lemma_interps_mapped(f, a, b);
        let last = from.len() - 1;
        assert(same_part_shape(from[last], to[last]));
        assert(from.last() == from[last] && to.last() == to[last]);
        let ia = interps(a);
        let ib = interps(b);
        assert forall|i: int| 0 <= i < interps(from).len() implies f.ensures((interps(from)[i],), #[trigger] interps(to)[i]) by {
            if i < ia.len() {
                assert(interps(from)[i] == ia[i]);
                assert(interps(to)[i] == ib[i]);
            } else {
                match (from[last], to[last]) {
                    (TemplatePart::Interp(x), TemplatePart::Interp(y)) => {
                        assert(interps(from)[i] == *x);
                        assert(interps(to)[i] == *y);
                    },
                    _ => {},
                }
            }
        }
    }
}

fn map_parts<F: Fn(Expr) -> Expr>(v: Vec<TemplatePart>, f: &F) -> (r: Vec<TemplatePart>)
    requires
        forall|i: int| 0 <= i < interps(v@).len() ==> f.requires((#[trigger] interps(v@)[i],)),
    ensures
        parts_mapped_by(*f, v@, r@),
        mapped_by(*f, interps(v@), interps(r@)),
{
    let ghost orig = v@;
    let mut v = v;
    let mut back: Vec<TemplatePart> = Vec::new();
    while v.len() > 0
        invariant
            v@.len() + back@.len() == orig.len(),
            v@ == orig.subrange(0, v@.len() as int),
            forall|i: int| 0 <= i < back@.len() ==> back@[i] == orig[orig.len() - 1 - i],
        decreases v@.len(),
    {
        let x = v.pop().unwrap();
        back.push(x);
        assert(v@ =~= orig.subrange(0, v@.len() as int));
    }
    let mut out: Vec<TemplatePart> = Vec::new();
    while back.len() > 0
        invariant
            back@.len() + out@.len() == orig.len(),
            forall|i: int| 0 <= i < back@.len() ==> back@[i] == orig[orig.len() - 1 - i],
            forall|i: int| 0 <= i < interps(orig).len() ==> f.requires((#[trigger] interps(orig)[i],)),
            forall|i: int| 0 <= i < out@.len() ==> same_part_shape(#[trigger] orig[i], out@[i]),
            forall|i: int|
                0 <= i < out@.len() ==> match (#[trigger] orig[i], out@[i]) {
                    (TemplatePart::Interp(a), TemplatePart::Interp(b)) => f.ensures((*a,), *b),
                    _ => true,
                },
        decreases back@.len(),
    {
        let x = back.pop().unwrap();
        let k = out.len();
        assert(x == orig[k as int]);
        let y = match x {
            TemplatePart::Lit(s) => TemplatePart::Lit(s),
            TemplatePart::Interp(b) => {
                proof {
                    assert(orig[k as int] == TemplatePart::Interp(b));
                    lemma_interps_has(orig, k as int);
                }
                TemplatePart::Interp(Box::new(f(*b)))
            },
        };
        out.push(y);
    }
    proof {
        lemma_interps_mapped(*f, orig, out@);
    }
    out
}

pub proof fn lemma_interps_has(ps: Seq<TemplatePart>, k: int)
    requires
        0 <= k < ps.len(),
        ps[k] is Interp,
    ensures
        interps(ps).contains(*ps[k]->Interp_0),
    decreases ps.len(),
{
    let a = ps.drop_last();
    if k < ps.len() - 1 {
        assert(a[k] == ps[k]);
        lemma_interps_has(a, k);
        let j = choose|j: int| 0 <= j < interps(a).len() && interps(a)[j] == *ps[k]->Interp_0;
        assert(interps(ps)[j] == interps(a)[j]);
    } else {
        assert(ps.last() == ps[k]);
        assert(interps(ps)[interps(a).len() as int] == *ps[k]->Interp_0);
    }
}

} // verus!

verus! {

/// `e` with each direct sub-expression replaced by what `f` makes of it,
/// and everything else kept.
pub fn map_children<F: Fn(Expr) -> Expr>(e: Expr, f: F) -> (r: Expr)
    requires
        forall|i: int| 0 <= i < children(e).len() ==> f.requires((#[trigger] children(e)[i],)),
    ensures
        same_shape(e, r),
        mapped_by(f, children(e), children(r)),
{
    let ghost g = e;
    match e {
        Expr::Int(x, s) => Expr::Int(x, s),
        Expr::Float(x, s) => Expr::Float(x, s),
        Expr::Ident(x, s) => Expr::Ident(x, s),
        Expr::Partial(x, s) => Expr::Partial(x, s),
        Expr::Str(parts, s) => Expr::Str(map_parts(parts, &f), s),
        Expr::List(items, s) => Expr::List(map_exprs(items, &f), s),
        Expr::MapLit(pairs, s) => Expr::MapLit(map_pairs(pairs, &f), s),
        Expr::BinOp { op, lhs, rhs, span } => {
            assert(children(g)[0] == *lhs && children(g)[1] == *rhs);
            let l = f(*lhs);
            let r = f(*rhs);
            Expr::BinOp { op, lhs: Box::new(l), rhs: Box::new(r), span }
        },
        Expr::Join { lhs, rhs, span } => {
            assert(children(g)[0] == *lhs && children(g)[1] == *rhs);
            let l = f(*lhs);
            let r = f(*rhs);
            Expr::Join { lhs: Box::new(l), rhs: Box::new(r), span }
        },
        Expr::Sequence(a, b, s) => {
            assert(children(g)[0] == *a && children(g)[1] == *b);
            let x = f(*a);
            let y = f(*b);
            Expr::Sequence(Box::new(x), Box::new(y), s)
        },
        Expr::App { head, args, span, piped } => {
            assert(children(g)[0] == *head);
            assert forall|i: int| 0 <= i < args@.len() implies f.requires((#[trigger] args@[i],)) by {
                assert(children(g)[i + 1] == args@[i]);
            }
            let h = f(*head);
            let a = map_exprs(args, &f);
            let r = Expr::App { head: Box::new(h), args: a, span, piped };
            assert(children(r) == seq![h] + a@);
            assert forall|i: int| 0 <= i < children(g).len() implies f.ensures((children(g)[i],), #[trigger] children(r)[i]) by {
                if i > 0 {
                    assert(children(g)[i] == args@[i - 1]);
                    assert(children(r)[i] == a@[i - 1]);
                }
            }
            r
        },
        Expr::Field { base, name, span } => {
            assert(children(g)[0] == *base);
            Expr::Field { base: Box::new(f(*base)), name, span }
        },
        Expr::Index { base, index, strict, span } => {
            assert(children(g)[0] == *base && children(g)[1] == *index);
            let b = f(*base);
            let i = f(*index);
            Expr::Index { base: Box::new(b), index: Box::new(i), strict, span }
        },
        Expr::Upcast { expr, span } => {
            assert(children(g)[0] == *expr);
            Expr::Upcast { expr: Box::new(f(*expr)), span }
        },
        Expr::Lambda { params, body, span } => {
            assert(children(g)[0] == *body);
            Expr::Lambda { params, body: Box::new(f(*body)), span }
        },
        Expr::Guard { cond, early, rest, span } => {
            assert(children(g)[0] == *cond && children(g)[1] == *early);
            assert forall|i: int| 0 <= i < rest@.len() implies f.requires((#[trigger] stmt_exprs(rest@)[i],)) by {
                assert(children(g)[i + 2] == stmt_exprs(rest@)[i]);
            }
            let c = f(*cond);
            let x = f(*early);
            let ghost before = rest@;
            let rs = map_stmts(rest, &f);
            let r = Expr::Guard { cond: Box::new(c), early: Box::new(x), rest: rs, span };
            assert forall|i: int| 0 <= i < children(g).len() implies f.ensures((children(g)[i],), #[trigger] children(r)[i]) by {
                if i >= 2 {
                    assert(children(g)[i] == stmt_exprs(before)[i - 2]);
                    assert(children(r)[i] == stmt_exprs(rs@)[i - 2]);
                }
            }
            r
        },
        Expr::Block(ss, s) => Expr::Block(map_stmts(ss, &f), s),
        Expr::Build(ss, s) => Expr::Build(map_stmts(ss, &f), s),
    }
}

} // verus!

verus! {

pub(crate) fn swap_stmt(s: Stmt, k: Expr) -> (r: (Stmt, Expr))
    ensures
        same_stmt_shape(s, r.0),
        stmt_expr(r.0) == k,
        r.1 == stmt_expr(s),
{
    match s {
        Stmt::Bind { pattern, expr } => (Stmt::Bind { pattern, expr: k }, expr),
        Stmt::Expr(x) => (Stmt::Expr(k), x),
        Stmt::Assign { name, value } => (Stmt::Assign { name, value: k }, value),
    }
}

fn swap_stmts(ss: Vec<Stmt>, kids: Vec<Expr>) -> (r: (Vec<Stmt>, Vec<Expr>))
    requires
        kids@.len() == ss@.len(),
    ensures
        same_stmts_shape(ss@, r.0@),
        stmt_exprs(r.0@) == kids@,
        r.1@ == stmt_exprs(ss@),
    decreases ss@.len(),
{
    let ghost s0 = ss@;
    let ghost k0 = kids@;
    let mut ss = ss;
    let mut kids = kids;
    if ss.len() == 0 {
        assert(stmt_exprs(ss@) =~= kids@);
        return (ss, kids);
    }
    let s = ss.pop().unwrap();
    let k = kids.pop().unwrap();
    let (mut done, mut old) = swap_stmts(ss, kids);
    let (t, x) = swap_stmt(s, k);
    let ghost d0 = done@;
    done.push(t);
    old.push(x);
    assert(s0 =~= s0.drop_last().push(s));
    assert(k0 =~= k0.drop_last().push(k));
    assert(stmt_exprs(done@) =~= k0);
    assert(old@ =~= stmt_exprs(s0));
    assert forall|i: int| 0 <= i < s0.len() implies same_stmt_shape(#[trigger] s0[i], done@[i]) by {
        if i < s0.len() - 1 {
            assert(s0[i] == s0.drop_last()[i]);
        }
    }
    (done, old)
}

fn swap_pairs(ps: Vec<(Expr, Expr)>, kids: Vec<Expr>) -> (r: (Vec<(Expr, Expr)>, Vec<Expr>))
    requires
        kids@.len() == pair_exprs(ps@).len(),
    ensures
        r.0@.len() == ps@.len(),
        pair_exprs(r.0@) == kids@,
        r.1@ == pair_exprs(ps@),
    decreases ps@.len(),
{
    let ghost p0 = ps@;
    let ghost k0 = kids@;
    let mut ps = ps;
    let mut kids = kids;
    if ps.len() == 0 {
        assert(kids@ =~= pair_exprs(ps@));
        return (ps, kids);
    }
    proof {
        lemma_pair_exprs(ps@);
        lemma_pair_exprs(ps@.drop_last());
    }
    let (a, b) = ps.pop().unwrap();
    let y = kids.pop().unwrap();
    let x = kids.pop().unwrap();
    assert(kids@ =~= k0.subrange(0, k0.len() - 2));
    let (mut done, mut old) = swap_pairs(ps, kids);
    let ghost d0 = done@;
    done.push((x, y));
    old.push(a);
    old.push(b);
    assert(done@.drop_last() =~= d0);
    assert(pair_exprs(done@) =~= k0);
    assert(p0.drop_last() =~= ps@);
    assert(old@ =~= pair_exprs(p0));
    (done, old)
}

fn swap_parts(ps: Vec<TemplatePart>, kids: Vec<Expr>) -> (r: (Vec<TemplatePart>, Vec<Expr>))
    requires
        kids@.len() == interps(ps@).len(),
    ensures
        r.0@.len() == ps@.len(),
        forall|i: int| 0 <= i < ps@.len() ==> same_part_shape(#[trigger] ps@[i], r.0@[i]),
        interps(r.0@) == kids@,
        r.1@ == interps(ps@),
    decreases ps@.len(),
{
    let ghost p0 = ps@;
    let ghost k0 = kids@;
    let mut ps = ps;
    let mut kids = kids;
    if ps.len() == 0 {
        assert(kids@ =~= interps(ps@));
        return (ps, kids);
    }
    let part = ps.pop().unwrap();
    assert(p0.drop_last() =~= ps@);
    match part {
        TemplatePart::Lit(t) => {
            assert(interps(p0) =~= interps(ps@));
            let (mut done, old) = swap_parts(ps, kids);
            let ghost d0 = done@;
            done.push(TemplatePart::Lit(t));
            assert(done@.drop_last() =~= d0);
            assert(interps(done@) =~= interps(d0));
            assert forall|i: int| 0 <= i < p0.len() implies same_part_shape(#[trigger] p0[i], done@[i]) by {
                if i < p0.len() - 1 {
                    assert(p0[i] == p0.drop_last()[i]);
                }
            }
            (done, old)
        },
        TemplatePart::Interp(b) => {
            let k = kids.pop().unwrap();
            assert(kids@.len() == interps(ps@).len());
            let (mut done, mut old) = swap_parts(ps, kids);
            let ghost d0 = done@;
            done.push(TemplatePart::Interp(Box::new(k)));
            old.push(*b);
            assert(done@.drop_last() =~= d0);
            assert(interps(done@) =~= k0);
            assert(old@ =~= interps(p0));
            assert forall|i: int| 0 <= i < p0.len() implies same_part_shape(#[trigger] p0[i], done@[i]) by {
                if i < p0.len() - 1 {
                    assert(p0[i] == p0.drop_last()[i]);
                }
            }
            (done, old)
        },
    }
}

fn take_two(kids: Vec<Expr>) -> (r: (Expr, Expr))
    requires
        kids@.len() == 2,
    ensures
        r.0 == kids@[0],
        r.1 == kids@[1],
{
    let mut kids = kids;
    let b = kids.pop().unwrap();
    let a = kids.pop().unwrap();
    (a, b)
}

fn take_one(kids: Vec<Expr>) -> (r: Expr)
    requires
        kids@.len() == 1,
    ensures
        r == kids@[0],
{
    let mut kids = kids;
    kids.pop().unwrap()
}

/// `e` with its direct sub-expressions exchanged for `kids`, in order, and
/// everything else kept; the sub-expressions it held come back beside it.
pub fn swap_children(e: Expr, kids: Vec<Expr>) -> (r: (Expr, Vec<Expr>))
    requires
        kids@.len() == children(e).len(),
    ensures
        same_shape(e, r.0),
        children(r.0) == kids@,
        r.1@ == children(e),
{
    let ghost k0 = kids@;
    match e {
        Expr::Int(x, s) => (Expr::Int(x, s), kids),
        Expr::Float(x, s) => (Expr::Float(x, s), kids),
        Expr::Ident(x, s) => (Expr::Ident(x, s), kids),
        Expr::Partial(x, s) => (Expr::Partial(x, s), kids),
        Expr::Str(parts, s) => {
            let (ps, old) = swap_parts(parts, kids);
            (Expr::Str(ps, s), old)
        },
        Expr::List(items, s) => (Expr::List(kids, s), items),
        Expr::MapLit(pairs, s) => {
            let (ps, old) = swap_pairs(pairs, kids);
            (Expr::MapLit(ps, s), old)
        },
        Expr::BinOp { op, lhs, rhs, span } => {
            let (a, b) = take_two(kids);
            (Expr::BinOp { op, lhs: Box::new(a), rhs: Box::new(b), span }, vec![*lhs, *rhs])
        },
        Expr::Join { lhs, rhs, span } => {
            let (a, b) = take_two(kids);
            (Expr::Join { lhs: Box::new(a), rhs: Box::new(b), span }, vec![*lhs, *rhs])
        },
        Expr::Sequence(x, y, s) => {
            let (a, b) = take_two(kids);
            (Expr::Sequence(Box::new(a), Box::new(b), s), vec![*x, *y])
        },
        Expr::App { head, args, span, piped } => {
            let mut rest = kids;
            let h = rest.remove(0);
            assert(rest@ =~= k0.subrange(1, k0.len() as int));
            let mut old = vec![*head];
            let mut args = args;
            let ghost a0 = args@;
            old.append(&mut args);
            let r = Expr::App { head: Box::new(h), args: rest, span, piped };
            assert(children(r) =~= k0);
            assert(old@ =~= seq![*head] + a0);
            (r, old)
        },
        Expr::Field { base, name, span } => {
            let a = take_one(kids);
            (Expr::Field { base: Box::new(a), name, span }, vec![*base])
        },
        Expr::Index { base, index, strict, span } => {
            let (a, b) = take_two(kids);
            (Expr::Index { base: Box::new(a), index: Box::new(b), strict, span }, vec![*base, *index])
        },
        Expr::Upcast { expr, span } => {
            let a = take_one(kids);
            (Expr::Upcast { expr: Box::new(a), span }, vec![*expr])
        },
        Expr::Lambda { params, body, span } => {
            let a = take_one(kids);
            (Expr::Lambda { params, body: Box::new(a), span }, vec![*body])
        },
        Expr::Guard { cond, early, rest, span } => {
            let mut tail = kids;
            let c = tail.remove(0);
            let x = tail.remove(0);
            assert(tail@ =~= k0.subrange(2, k0.len() as int));
            let (rs, mut olds) = swap_stmts(rest, tail);
            let mut old = vec![*cond, *early];
            old.append(&mut olds);
            let r = Expr::Guard { cond: Box::new(c), early: Box::new(x), rest: rs, span };
            assert(children(r) =~= k0);
            (r, old)
        },
        Expr::Block(ss, s) => {
            let (rs, old) = swap_stmts(ss, kids);
            (Expr::Block(rs, s), old)
        },
        Expr::Build(ss, s) => {
            let (rs, old) = swap_stmts(ss, kids);
            (Expr::Build(rs, s), old)
        },
    }
}

} // verus!
