//! Copies of syntax: the same tree, node for node, written at the same places.

use vstd::prelude::*;
use crate::number::Big;
use super::{
    children, interps, lemma_children_smaller, lemma_pair_exprs, pair_exprs, size, stmt_expr, stmt_exprs, Expr,
    Pattern, Stmt, TemplatePart,
};

verus! {

/// The same number, digit for digit.
pub open spec fn big_twin(x: Big, y: Big) -> bool {
    x.negative == y.negative && x.digits@ == y.digits@
}

/// Two patterns alike in every part.
pub open spec fn pattern_twin(p: Pattern, q: Pattern) -> bool
    decreases p, 1nat, 0nat,
{
    match (p, q) {
        (Pattern::Var(x, s), Pattern::Var(y, t)) => x@ == y@ && s == t,
        (Pattern::Wildcard(s), Pattern::Wildcard(t)) => s == t,
        (Pattern::IntLit(x, s), Pattern::IntLit(y, t)) => big_twin(x, y) && s == t,
        (Pattern::StrLit(x, s), Pattern::StrLit(y, t)) => x@ == y@ && s == t,
        (Pattern::Nullary(x, s), Pattern::Nullary(y, t)) => x@ == y@ && s == t,
        (Pattern::Annotated { name: n, ty: x, span: s }, Pattern::Annotated { name: m, ty: y, span: t }) => n@ == m@
            && x@ == y@ && s == t,
        (Pattern::Ctor { ty: x, fields: fs, whole: w }, Pattern::Ctor { ty: y, fields: gs, whole: v }) => {
            &&& x@ == y@ && fs@.len() == gs@.len()
            &&& (w is None <==> v is None) && (w is Some ==> w->0@ == v->0@)
            &&& fields_twin(p, q, fs@.len())
        },
        (Pattern::Keyed { entries: es, span: s }, Pattern::Keyed { entries: fs, span: t }) => s == t && es@.len()
            == fs@.len() && entries_twin(p, q, es@.len()),
        _ => false,
    }
}

pub open spec fn fields_twin(p: Pattern, q: Pattern, n: nat) -> bool
    decreases p, 0nat, n,
{
    if n == 0 {
        true
    } else if !(p is Ctor) || !(q is Ctor) || n > p->Ctor_fields@.len() || n > q->Ctor_fields@.len() {
        false
    } else {
        fields_twin(p, q, (n - 1) as nat) && pattern_twin(p->Ctor_fields@[n - 1], q->Ctor_fields@[n - 1])
    }
}

pub open spec fn entries_twin(p: Pattern, q: Pattern, n: nat) -> bool
    decreases p, 0nat, n,
{
    if n == 0 {
        true
    } else if !(p is Keyed) || !(q is Keyed) || n > p->Keyed_entries@.len() || n > q->Keyed_entries@.len() {
        false
    } else {
        entries_twin(p, q, (n - 1) as nat) && p->Keyed_entries@[n - 1].0@ == q->Keyed_entries@[n - 1].0@
            && pattern_twin(p->Keyed_entries@[n - 1].1, q->Keyed_entries@[n - 1].1)
    }
}

/// Two statements alike but for the expression they carry.
pub open spec fn stmt_shell_twin(a: Stmt, b: Stmt) -> bool {
    match (a, b) {
        (Stmt::Bind { pattern: p, .. }, Stmt::Bind { pattern: q, .. }) => pattern_twin(p, q),
        (Stmt::Expr(_), Stmt::Expr(_)) => true,
        (Stmt::Assign { name: n, .. }, Stmt::Assign { name: m, .. }) => n@ == m@,
        _ => false,
    }
}

pub open spec fn stmts_shell_twin(a: Seq<Stmt>, b: Seq<Stmt>) -> bool {
    a.len() == b.len() && forall|i: int| 0 <= i < a.len() ==> #[trigger] stmt_shell_twin(a[i], b[i])
}

/// Two template pieces alike but for an interpolated value.
pub open spec fn part_shell_twin(a: TemplatePart, b: TemplatePart) -> bool {
    match (a, b) {
        (TemplatePart::Lit(x), TemplatePart::Lit(y)) => x@ == y@,
        (TemplatePart::Interp(_), TemplatePart::Interp(_)) => true,
        _ => false,
    }
}

/// Two expressions alike in everything but their direct sub-expressions.
pub open spec fn shell_twin(a: Expr, b: Expr) -> bool {
    match (a, b) {
        (Expr::Int(x, s), Expr::Int(y, t)) => big_twin(x, y) && s == t,
        (Expr::Float(x, s), Expr::Float(y, t)) => x@ == y@ && s == t,
        (Expr::Ident(x, s), Expr::Ident(y, t)) => x@ == y@ && s == t,
        (Expr::Partial(x, s), Expr::Partial(y, t)) => x@ == y@ && s == t,
        (Expr::Str(ps, s), Expr::Str(qs, t)) => s == t && ps@.len() == qs@.len() && forall|i: int|
            0 <= i < ps@.len() ==> #[trigger] part_shell_twin(ps@[i], qs@[i]),
        (Expr::List(xs, s), Expr::List(ys, t)) => s == t && xs@.len() == ys@.len(),
        (Expr::MapLit(xs, s), Expr::MapLit(ys, t)) => s == t && xs@.len() == ys@.len(),
        (Expr::BinOp { op: o, span: s, .. }, Expr::BinOp { op: p, span: t, .. }) => o == p && s == t,
        (Expr::Join { span: s, .. }, Expr::Join { span: t, .. }) => s == t,
        (Expr::Sequence(_, _, s), Expr::Sequence(_, _, t)) => s == t,
        (Expr::App { args: x, span: s, piped: p, .. }, Expr::App { args: y, span: t, piped: q, .. }) => x@.len()
            == y@.len() && s == t && p == q,
        (Expr::Field { name: n, span: s, .. }, Expr::Field { name: m, span: t, .. }) => n@ == m@ && s == t,
        (Expr::Index { strict: x, span: s, .. }, Expr::Index { strict: y, span: t, .. }) => x == y && s == t,
        (Expr::Upcast { span: s, .. }, Expr::Upcast { span: t, .. }) => s == t,
        (Expr::Lambda { params: x, span: s, .. }, Expr::Lambda { params: y, span: t, .. }) => s == t && x@.len()
            == y@.len() && forall|i: int| 0 <= i < x@.len() ==> (#[trigger] x@[i]).0@ == y@[i].0@ && x@[i].1 == y@[i].1,
        (Expr::Guard { rest: x, span: s, .. }, Expr::Guard { rest: y, span: t, .. }) => stmts_shell_twin(x@, y@)
            && s == t,
        (Expr::Block(x, s), Expr::Block(y, t)) => stmts_shell_twin(x@, y@) && s == t,
        (Expr::Build(x, s), Expr::Build(y, t)) => stmts_shell_twin(x@, y@) && s == t,
        _ => false,
    }
}

/// `b` is a copy of `a`: the same tree, node for node, with the same names,
/// numbers and spans.
pub open spec fn twin(a: Expr, b: Expr) -> bool
    decreases size(a), 1nat, 0nat,
{
    shell_twin(a, b) && children(b).len() == children(a).len() && twins_among(a, b, children(a).len())
}

/// The first `n` direct sub-expressions of `b` are copies of those of `a`.
pub open spec fn twins_among(a: Expr, b: Expr, n: nat) -> bool
    decreases size(a), 0nat, n,
    via twins_among_decreases
{
    if n == 0 {
        true
    } else if n > children(a).len() || n > children(b).len() {
        false
    } else {
        twins_among(a, b, (n - 1) as nat) && twin(children(a)[n - 1], children(b)[n - 1])
    }
}

#[via_fn]
proof fn twins_among_decreases(a: Expr, b: Expr, n: nat) {
    lemma_children_smaller(a);
}

proof fn lemma_twins_among(a: Expr, b: Expr, n: nat)
    requires
        n <= children(a).len() == children(b).len(),
        forall|i: int| 0 <= i < children(a).len() ==> twin(#[trigger] children(a)[i], children(b)[i]),
    ensures
        twins_among(a, b, n),
    decreases n,
{
    if n > 0 {
        lemma_twins_among(a, b, (n - 1) as nat);
    }
}

proof fn lemma_fields_twin(p: Pattern, q: Pattern, n: nat)
    requires
        p is Ctor && q is Ctor,
        n <= p->Ctor_fields@.len() && n <= q->Ctor_fields@.len(),
        forall|i: int| 0 <= i < n ==> #[trigger] pattern_twin(p->Ctor_fields@[i], q->Ctor_fields@[i]),
    ensures
        fields_twin(p, q, n),
    decreases n,
{
    if n > 0 {
        lemma_fields_twin(p, q, (n - 1) as nat);
        assert(pattern_twin(p->Ctor_fields@[n - 1], q->Ctor_fields@[n - 1]));
    }
}

proof fn lemma_entries_twin(p: Pattern, q: Pattern, n: nat)
    requires
        p is Keyed && q is Keyed,
        n <= p->Keyed_entries@.len() && n <= q->Keyed_entries@.len(),
        forall|i: int| 0 <= i < n ==> (#[trigger] p->Keyed_entries@[i]).0@ == q->Keyed_entries@[i].0@
            && pattern_twin(p->Keyed_entries@[i].1, q->Keyed_entries@[i].1),
    ensures
        entries_twin(p, q, n),
    decreases n,
{
    if n > 0 {
        lemma_entries_twin(p, q, (n - 1) as nat);
        assert(p->Keyed_entries@[n - 1].0@ == q->Keyed_entries@[n - 1].0@);
    }
}

fn copy_text(s: &String) -> (r: String)
    ensures
        r@ == s@,
{
    s.clone()
}

fn copy_big(x: &Big) -> (r: Big)
    ensures
        big_twin(*x, r),
{
    let mut digits: Vec<u32> = Vec::new();
    let mut i: usize = 0;
    while i < x.digits.len()
        invariant
            i <= x.digits@.len(),
            digits@ == x.digits@.subrange(0, i as int),
        decreases x.digits@.len() - i,
    {
        digits.push(x.digits[i]);
        i += 1;
        assert(digits@ =~= x.digits@.subrange(0, i as int));
    }
    assert(x.digits@.subrange(0, i as int) =~= x.digits@);
    Big { negative: x.negative, digits }
}

/// A copy of a pattern.
pub fn copy_pattern(p: &Pattern) -> (r: Pattern)
    ensures
        pattern_twin(*p, r),
    decreases *p,
{
    match p {
        Pattern::Var(x, s) => Pattern::Var(copy_text(x), *s),
        Pattern::Wildcard(s) => Pattern::Wildcard(*s),
        Pattern::IntLit(x, s) => Pattern::IntLit(copy_big(x), *s),
        Pattern::StrLit(x, s) => Pattern::StrLit(copy_text(x), *s),
        Pattern::Nullary(x, s) => Pattern::Nullary(copy_text(x), *s),
        Pattern::Annotated { name, ty, span } => Pattern::Annotated { name: copy_text(name), ty: copy_text(ty), span: *span },
        Pattern::Ctor { ty, fields, whole } => {
            let mut out: Vec<Pattern> = Vec::new();
            let mut i: usize = 0;
            while i < fields.len()
                invariant
                    i <= fields@.len(),
                    out@.len() == i,
                    *p == (Pattern::Ctor { ty: *ty, fields: *fields, whole: *whole }),
                    forall|j: int| 0 <= j < i ==> #[trigger] pattern_twin(fields@[j], out@[j]),
                decreases fields@.len() - i,
            {
                assert(decreases_to!(*p => fields@[i as int])) by {
                    assert(decreases_to!(*p => p->Ctor_fields));
                    assert(decreases_to!(p->Ctor_fields => p->Ctor_fields@));
                    assert(decreases_to!(p->Ctor_fields@ => p->Ctor_fields@[i as int]));
                }
                out.push(copy_pattern(&fields[i]));
                i += 1;
            }
            let w = match whole {
                Some(x) => Some(copy_text(x)),
                None => None,
            };
            let r = Pattern::Ctor { ty: copy_text(ty), fields: out, whole: w };
            proof {
                lemma_fields_twin(*p, r, fields@.len());
            }
            r
        },
        Pattern::Keyed { entries, span } => {
            let mut out: Vec<(String, Pattern)> = Vec::new();
            let mut i: usize = 0;
            while i < entries.len()
                invariant
                    i <= entries@.len(),
                    out@.len() == i,
                    *p == (Pattern::Keyed { entries: *entries, span: *span }),
                    forall|j: int| 0 <= j < i ==> (#[trigger] entries@[j]).0@ == out@[j].0@ && pattern_twin(entries@[j].1, out@[j].1),
                decreases entries@.len() - i,
            {
                assert(decreases_to!(*p => entries@[i as int].1)) by {
                    assert(decreases_to!(*p => p->Keyed_entries));
                    assert(decreases_to!(p->Keyed_entries => p->Keyed_entries@));
                    assert(decreases_to!(p->Keyed_entries@ => p->Keyed_entries@[i as int]));
                    assert(decreases_to!(p->Keyed_entries@[i as int] => p->Keyed_entries@[i as int].1));
                }
                let q = copy_pattern(&entries[i].1);
                out.push((copy_text(&entries[i].0), q));
                i += 1;
            }
            let r = Pattern::Keyed { entries: out, span: *span };
            proof {
                assert forall|j: int| 0 <= j < entries@.len() implies (#[trigger] p->Keyed_entries@[j]).0@ == r->Keyed_entries@[j].0@
                    && pattern_twin(p->Keyed_entries@[j].1, r->Keyed_entries@[j].1) by {
                    assert(entries@[j].0@ == out@[j].0@);
                }
                lemma_entries_twin(*p, r, entries@.len());
            }
            r
        },
    }
}

proof fn lemma_interps_twin(ps: Seq<TemplatePart>, qs: Seq<TemplatePart>)
    requires
        ps.len() == qs.len(),
        forall|i: int| 0 <= i < ps.len() ==> #[trigger] part_shell_twin(ps[i], qs[i]),
        forall|i: int| 0 <= i < ps.len() && ps[i] is Interp ==> twin(*(#[trigger] ps[i])->Interp_0, *qs[i]->Interp_0),
    ensures
        interps(ps).len() == interps(qs).len(),
        forall|k: int| 0 <= k < interps(ps).len() ==> twin(#[trigger] interps(ps)[k], interps(qs)[k]),
    decreases ps.len(),
{
    if ps.len() > 0 {
        let a = ps.drop_last();
        let b = qs.drop_last();
        assert forall|i: int| 0 <= i < a.len() implies #[trigger] part_shell_twin(a[i], b[i]) by {
            assert(a[i] == ps[i] && b[i] == qs[i]);
        }
        assert forall|i: int| 0 <= i < a.len() && a[i] is Interp implies twin(*(#[trigger] a[i])->Interp_0, *b[i]->Interp_0) by {
            assert(a[i] == ps[i] && b[i] == qs[i]);
        }
        lemma_interps_twin(a, b);
        assert(part_shell_twin(ps[ps.len() - 1], qs[qs.len() - 1]));
        assert forall|k: int| 0 <= k < interps(ps).len() implies twin(#[trigger] interps(ps)[k], interps(qs)[k]) by {
            if k < interps(a).len() {
                assert(interps(ps)[k] == interps(a)[k]);
                assert(interps(qs)[k] == interps(b)[k]);
            } else {
                assert(ps.last() is Interp);
            }
        }
    }
}

/// Copies of the expressions of `v`, each smaller than `bound`.
fn copy_exprs(v: &Vec<Expr>, bound: Ghost<nat>) -> (r: Vec<Expr>)
    requires
        forall|i: int| 0 <= i < v@.len() ==> size(#[trigger] v@[i]) < bound@,
    ensures
        r@.len() == v@.len(),
        forall|i: int| 0 <= i < v@.len() ==> twin(#[trigger] v@[i], r@[i]),
    decreases bound@, 0nat,
{
    let mut out: Vec<Expr> = Vec::new();
    let mut i: usize = 0;
    while i < v.len()
        invariant
            i <= v@.len(),
            out@.len() == i,
            forall|j: int| 0 <= j < v@.len() ==> size(#[trigger] v@[j]) < bound@,
            forall|j: int| 0 <= j < i ==> twin(#[trigger] v@[j], out@[j]),
        decreases v@.len() - i,
    {
        assert(size(v@[i as int]) < bound@);
        out.push(copy_expr(&v[i]));
        i += 1;
    }
    out
}

/// Copies of statements whose expressions are each smaller than `bound`.
fn copy_stmts(v: &Vec<Stmt>, bound: Ghost<nat>) -> (r: Vec<Stmt>)
    requires
        forall|i: int| 0 <= i < v@.len() ==> size(#[trigger] stmt_expr(v@[i])) < bound@,
    ensures
        stmts_shell_twin(v@, r@),
        forall|i: int| 0 <= i < v@.len() ==> twin(#[trigger] stmt_expr(v@[i]), stmt_expr(r@[i])),
    decreases bound@, 0nat,
{
    let mut out: Vec<Stmt> = Vec::new();
    let mut i: usize = 0;
    while i < v.len()
        invariant
            i <= v@.len(),
            out@.len() == i,
            forall|j: int| 0 <= j < v@.len() ==> size(#[trigger] stmt_expr(v@[j])) < bound@,
            forall|j: int| 0 <= j < i ==> #[trigger] stmt_shell_twin(v@[j], out@[j]),
            forall|j: int| 0 <= j < i ==> twin(#[trigger] stmt_expr(v@[j]), stmt_expr(out@[j])),
        decreases v@.len() - i,
    {
        assert(size(stmt_expr(v@[i as int])) < bound@);
        let s = match &v[i] {
            Stmt::Bind { pattern, expr } => Stmt::Bind { pattern: copy_pattern(pattern), expr: copy_expr(expr) },
            Stmt::Expr(e) => Stmt::Expr(copy_expr(e)),
            Stmt::Assign { name, value } => Stmt::Assign { name: copy_text(name), value: copy_expr(value) },
        };
        out.push(s);
        i += 1;
    }
    out
}

/// A copy of an expression: the same tree, node for node, written at the
/// same places.
pub fn copy_expr(e: &Expr) -> (r: Expr)
    ensures
        twin(*e, r),
    decreases size(*e), 1nat,
{
    proof {
        lemma_children_smaller(*e);
        super::lemma_parts_smaller(*e);
    }
    let r = match e {
        Expr::Int(x, s) => Expr::Int(copy_big(x), *s),
        Expr::Float(x, s) => Expr::Float(copy_text(x), *s),
        Expr::Ident(x, s) => Expr::Ident(copy_text(x), *s),
        Expr::Partial(x, s) => Expr::Partial(copy_text(x), *s),
        Expr::Str(ps, s) => {
            let mut out: Vec<TemplatePart> = Vec::new();
            let mut i: usize = 0;
            while i < ps.len()
                invariant
                    i <= ps@.len(),
                    out@.len() == i,
                    *e == Expr::Str(*ps, *s),
                    forall|j: int| 0 <= j < i ==> #[trigger] part_shell_twin(ps@[j], out@[j]),
                    forall|j: int| 0 <= j < i && ps@[j] is Interp ==> twin(*(#[trigger] ps@[j])->Interp_0, *out@[j]->Interp_0),
                decreases ps@.len() - i,
            {
                let piece = match &ps[i] {
                    TemplatePart::Lit(x) => TemplatePart::Lit(copy_text(x)),
                    TemplatePart::Interp(x) => {
                        proof {
                            super::lemma_interps_has(ps@, i as int);
                            lemma_children_smaller(*e);
                            let k = choose|k: int| 0 <= k < interps(ps@).len() && interps(ps@)[k] == **x;
                            assert(children(*e)[k] == **x);
                        }
                        TemplatePart::Interp(Box::new(copy_expr(&**x)))
                    },
                };
                out.push(piece);
                i += 1;
            }
            let r = Expr::Str(out, *s);
            proof {
                lemma_interps_twin(ps@, out@);
            }
            r
        },
        Expr::List(items, s) => {
            let out = copy_exprs(items, Ghost(size(*e)));
            Expr::List(out, *s)
        },
        Expr::MapLit(pairs, s) => {
            let mut out: Vec<(Expr, Expr)> = Vec::new();
            let mut i: usize = 0;
            proof {
                lemma_pair_exprs(pairs@);
            }
            while i < pairs.len()
                invariant
                    i <= pairs@.len(),
                    out@.len() == i,
                    *e == Expr::MapLit(*pairs, *s),
                    pair_exprs(pairs@).len() == 2 * pairs@.len(),
                    forall|k: int| 0 <= k < pairs@.len() ==> pair_exprs(pairs@)[2 * k] == (#[trigger] pairs@[k]).0
                        && pair_exprs(pairs@)[2 * k + 1] == pairs@[k].1,
                    forall|j: int| 0 <= j < children(*e).len() ==> size(#[trigger] children(*e)[j]) < size(*e),
                    forall|j: int| 0 <= j < i ==> twin((#[trigger] pairs@[j]).0, out@[j].0) && twin(pairs@[j].1, out@[j].1),
                decreases pairs@.len() - i,
            {
                assert(children(*e)[2 * i] == pairs@[i as int].0);
                assert(children(*e)[2 * i + 1] == pairs@[i as int].1);
                let k = copy_expr(&pairs[i].0);
                let v = copy_expr(&pairs[i].1);
                out.push((k, v));
                i += 1;
            }
            let r = Expr::MapLit(out, *s);
            proof {
                lemma_pair_exprs(out@);
                assert forall|j: int| 0 <= j < children(*e).len() implies twin(#[trigger] children(*e)[j], children(r)[j]) by {
                    let k = j / 2;
                    if j % 2 == 0 {
                        assert(j == 2 * k);
                        assert(twin(pairs@[k].0, out@[k].0));
                    } else {
                        assert(j == 2 * k + 1);
                        assert(twin(pairs@[k].1, out@[k].1));
                    }
                }
            }
            r
        },
        Expr::BinOp { op, lhs, rhs, span } => Expr::BinOp { op: *op, lhs: Box::new(copy_expr(&**lhs)), rhs: Box::new(copy_expr(&**rhs)), span: *span },
        Expr::Join { lhs, rhs, span } => Expr::Join { lhs: Box::new(copy_expr(&**lhs)), rhs: Box::new(copy_expr(&**rhs)), span: *span },
        Expr::Sequence(a, b, s) => Expr::Sequence(Box::new(copy_expr(&**a)), Box::new(copy_expr(&**b)), *s),
        Expr::App { head, args, span, piped } => {
            let h = copy_expr(&**head);
            let out = copy_exprs(args, Ghost(size(*e)));
            let r = Expr::App { head: Box::new(h), args: out, span: *span, piped: *piped };
            proof {
                assert forall|j: int| 0 <= j < children(*e).len() implies twin(#[trigger] children(*e)[j], children(r)[j]) by {
                    if j > 0 {
                        assert(children(*e)[j] == args@[j - 1]);
                        assert(children(r)[j] == out@[j - 1]);
                    }
                }
            }
            r
        },
        Expr::Field { base, name, span } => Expr::Field { base: Box::new(copy_expr(&**base)), name: copy_text(name), span: *span },
        Expr::Index { base, index, strict, span } => Expr::Index {
            base: Box::new(copy_expr(&**base)),
            index: Box::new(copy_expr(&**index)),
            strict: *strict,
            span: *span,
        },
        Expr::Upcast { expr, span } => Expr::Upcast { expr: Box::new(copy_expr(&**expr)), span: *span },
        Expr::Lambda { params, body, span } => {
            let mut ps: Vec<(String, crate::diag::Span)> = Vec::new();
            let mut i: usize = 0;
            while i < params.len()
                invariant
                    i <= params@.len(),
                    ps@.len() == i,
                    forall|j: int| 0 <= j < i ==> (#[trigger] params@[j]).0@ == ps@[j].0@ && params@[j].1 == ps@[j].1,
                decreases params@.len() - i,
            {
                ps.push((copy_text(&params[i].0), params[i].1));
                i += 1;
            }
            Expr::Lambda { params: ps, body: Box::new(copy_expr(&**body)), span: *span }
        },
        Expr::Guard { cond, early, rest, span } => {
            let c = copy_expr(&**cond);
            let x = copy_expr(&**early);
            let out = copy_stmts(rest, Ghost(size(*e)));
            let r = Expr::Guard { cond: Box::new(c), early: Box::new(x), rest: out, span: *span };
            proof {
                assert forall|j: int| 0 <= j < children(*e).len() implies twin(#[trigger] children(*e)[j], children(r)[j]) by {
                    if j >= 2 {
                        assert(children(*e)[j] == stmt_exprs(rest@)[j - 2]);
                        assert(children(r)[j] == stmt_exprs(out@)[j - 2]);
                    }
                }
            }
            r
        },
        Expr::Block(ss, s) => {
            proof {
                assert forall|k: int| 0 <= k < ss@.len() implies size(#[trigger] stmt_expr(ss@[k])) < size(*e) by {
                    assert(children(*e)[k] == stmt_expr(ss@[k]));
                }
            }
            let out = copy_stmts(ss, Ghost(size(*e)));
            let r = Expr::Block(out, *s);
            proof {
                assert forall|j: int| 0 <= j < children(*e).len() implies twin(#[trigger] children(*e)[j], children(r)[j]) by {
                    assert(children(*e)[j] == stmt_expr(ss@[j]));
                    assert(children(r)[j] == stmt_expr(out@[j]));
                }
            }
            r
        },
        Expr::Build(ss, s) => {
            proof {
                assert forall|k: int| 0 <= k < ss@.len() implies size(#[trigger] stmt_expr(ss@[k])) < size(*e) by {
                    assert(children(*e)[k] == stmt_expr(ss@[k]));
                }
            }
            let out = copy_stmts(ss, Ghost(size(*e)));
            let r = Expr::Build(out, *s);
            proof {
                assert forall|j: int| 0 <= j < children(*e).len() implies twin(#[trigger] children(*e)[j], children(r)[j]) by {
                    assert(children(*e)[j] == stmt_expr(ss@[j]));
                    assert(children(r)[j] == stmt_expr(out@[j]));
                }
            }
            r
        },
    };
    proof {
        assert forall|j: int| 0 <= j < children(*e).len() implies twin(#[trigger] children(*e)[j], children(r)[j]) by {}
        lemma_twins_among(*e, r, children(*e).len());
    }
    r
}

} // verus!
