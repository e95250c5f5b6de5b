//! A string built twice from the same names is built once: an interpolation
//! that a statement writes more than once, over names and arithmetic alone,
//! is bound to a fresh name just before the statement, which then reads it.
//!
//! Reading a key and then writing it is the ordinary shape of map code, and
//! spelled directly it builds the key twice: `put m "k{i}" (bump m["k{i}"])`.
//! Hoisting is only safe where evaluating once instead of twice cannot be
//! observed, so the licence is small: every piece of the interpolation is a
//! name, a number or arithmetic over those. Lambda bodies are left alone: a
//! folder's shape is what the linearity analysis matches on, and a binding in
//! front of it would hide the write that makes a fold write in place.

use vstd::prelude::*;
use crate::ast::{
    children, for_each_child, lemma_children_smaller, lemma_interps_has, map_children, refs, same_shape,
    same_stmt_shape, size, stmt_expr, Expr, FnDecl, Pattern, Program, Stmt, TemplatePart,
};
use crate::lexer::Op;

verus! {

/// The operators that compute and cannot fail or reach an effect.
pub open spec fn arith(op: Op) -> bool {
    op == Op::Plus || op == Op::Minus || op == Op::Star || op == Op::Slash || op == Op::Percent
}

/// `a` and `b` are the same computation over names and numbers: names,
/// numbers, arithmetic and interpolations of those, alike piece by piece, and
/// written at the same places too when `spans` asks it.
pub open spec fn alike(a: Expr, b: Expr, spans: bool) -> bool
    decreases size(a), 1nat, 0nat,
    via alike_decreases
{
    match (a, b) {
        (Expr::Ident(x, s), Expr::Ident(y, t)) => x@ == y@ && (spans ==> s == t),
        (Expr::Int(x, s), Expr::Int(y, t)) => x.negative == y.negative && x.digits@ == y.digits@ && (spans ==> s == t),
        (Expr::Float(x, s), Expr::Float(y, t)) => x@ == y@ && (spans ==> s == t),
        (Expr::BinOp { op: o, lhs: l1, rhs: r1, span: s }, Expr::BinOp { op: p, lhs: l2, rhs: r2, span: t }) => {
            &&& arith(o) && o == p && (spans ==> s == t)
            &&& alike(*l1, *l2, spans) && alike(*r1, *r2, spans)
        },
        (Expr::Str(ps, s), Expr::Str(qs, t)) => ps@.len() == qs@.len() && (spans ==> s == t)
            && parts_alike(a, b, spans, ps@.len()),
        _ => false,
    }
}

/// The first `n` pieces of the templates `a` and `b` are alike: the same
/// literal text, or interpolations alike.
pub open spec fn parts_alike(a: Expr, b: Expr, spans: bool, n: nat) -> bool
    decreases size(a), 0nat, n,
    via parts_alike_decreases
{
    if n == 0 {
        true
    } else if !(a is Str) || !(b is Str) || n > a->Str_0@.len() || n > b->Str_0@.len() {
        false
    } else {
        parts_alike(a, b, spans, (n - 1) as nat) && match (a->Str_0@[n - 1], b->Str_0@[n - 1]) {
            (TemplatePart::Lit(x), TemplatePart::Lit(y)) => x@ == y@,
            (TemplatePart::Interp(x), TemplatePart::Interp(y)) => alike(*x, *y, spans),
            _ => false,
        }
    }
}

proof fn lemma_part_smaller(a: Expr, k: int)
    requires
        a is Str,
        0 <= k < a->Str_0@.len(),
        a->Str_0@[k] is Interp,
    ensures
        size(*a->Str_0@[k]->Interp_0) < size(a),
{
    lemma_interps_has(a->Str_0@, k);
    lemma_children_smaller(a);
    let j = choose|j: int| 0 <= j < children(a).len() && children(a)[j] == *a->Str_0@[k]->Interp_0;
    assert(size(children(a)[j]) < size(a));
}

#[via_fn]
proof fn alike_decreases(a: Expr, b: Expr, spans: bool) {
}

#[via_fn]
proof fn parts_alike_decreases(a: Expr, b: Expr, spans: bool, n: nat) {
    if n > 0 && a is Str && n <= a->Str_0@.len() && a->Str_0@[n - 1] is Interp {
        lemma_part_smaller(a, n - 1);
    }
}

/// Arithmetic over names and numbers, and nothing else.
pub open spec fn pure(e: Expr) -> bool {
    alike(e, e, false)
}

/// Whether `e` is a template with something interpolated in it, computed from
/// names and numbers alone.
pub open spec fn hoistable(e: Expr) -> bool {
    e is Str && children(e).len() > 0 && pure(e)
}

proof fn lemma_parts_alike_weaken(a: Expr, b: Expr, n: nat)
    requires
        parts_alike(a, b, true, n),
    ensures
        parts_alike(a, b, false, n),
    decreases size(a), 0nat, n,
{
    if n > 0 {
        lemma_parts_alike_weaken(a, b, (n - 1) as nat);
        match (a->Str_0@[n - 1], b->Str_0@[n - 1]) {
            (TemplatePart::Interp(x), TemplatePart::Interp(y)) => {
                lemma_part_smaller(a, n - 1);
                lemma_alike_weaken(*x, *y);
            },
            _ => {},
        }
    }
}

/// Alike where written is alike wherever written.
pub proof fn lemma_alike_weaken(a: Expr, b: Expr)
    requires
        alike(a, b, true),
    ensures
        alike(a, b, false),
    decreases size(a), 1nat, 0nat,
{
    match (a, b) {
        (Expr::BinOp { lhs: l1, rhs: r1, .. }, Expr::BinOp { lhs: l2, rhs: r2, .. }) => {
            lemma_alike_weaken(*l1, *l2);
            lemma_alike_weaken(*r1, *r2);
        },
        (Expr::Str(ps, _), Expr::Str(_, _)) => {
            lemma_parts_alike_weaken(a, b, ps@.len());
        },
        _ => {},
    }
}

proof fn lemma_parts_alike_swap(a: Expr, b: Expr, spans: bool, n: nat)
    requires
        parts_alike(a, b, spans, n),
    ensures
        parts_alike(b, a, spans, n),
    decreases size(a), 0nat, n,
{
    if n > 0 {
        lemma_parts_alike_swap(a, b, spans, (n - 1) as nat);
        match (a->Str_0@[n - 1], b->Str_0@[n - 1]) {
            (TemplatePart::Interp(x), TemplatePart::Interp(y)) => {
                lemma_part_smaller(a, n - 1);
                lemma_alike_swap(*x, *y, spans);
            },
            _ => {},
        }
    }
}

/// Alike either way round.
pub proof fn lemma_alike_swap(a: Expr, b: Expr, spans: bool)
    requires
        alike(a, b, spans),
    ensures
        alike(b, a, spans),
    decreases size(a), 1nat, 0nat,
{
    match (a, b) {
        (Expr::BinOp { lhs: l1, rhs: r1, .. }, Expr::BinOp { lhs: l2, rhs: r2, .. }) => {
            lemma_alike_swap(*l1, *l2, spans);
            lemma_alike_swap(*r1, *r2, spans);
        },
        (Expr::Str(ps, _), Expr::Str(_, _)) => {
            lemma_parts_alike_swap(a, b, spans, ps@.len());
        },
        _ => {},
    }
}

proof fn lemma_parts_alike_chain(a: Expr, b: Expr, c: Expr, spans: bool, n: nat)
    requires
        parts_alike(a, b, spans, n),
        parts_alike(b, c, spans, n),
    ensures
        parts_alike(a, c, spans, n),
    decreases size(a), 0nat, n,
{
    if n > 0 {
        lemma_parts_alike_chain(a, b, c, spans, (n - 1) as nat);
        match (a->Str_0@[n - 1], b->Str_0@[n - 1], c->Str_0@[n - 1]) {
            (TemplatePart::Interp(x), TemplatePart::Interp(y), TemplatePart::Interp(z)) => {
                lemma_part_smaller(a, n - 1);
                lemma_alike_chain(*x, *y, *z, spans);
            },
            _ => {},
        }
    }
}

/// Alike to alike is alike.
pub proof fn lemma_alike_chain(a: Expr, b: Expr, c: Expr, spans: bool)
    requires
        alike(a, b, spans),
        alike(b, c, spans),
    ensures
        alike(a, c, spans),
    decreases size(a), 1nat, 0nat,
{
    match (a, b, c) {
        (Expr::BinOp { lhs: l1, rhs: r1, .. }, Expr::BinOp { lhs: l2, rhs: r2, .. }, Expr::BinOp { lhs: l3, rhs: r3, .. }) => {
            lemma_alike_chain(*l1, *l2, *l3, spans);
            lemma_alike_chain(*r1, *r2, *r3, spans);
        },
        (Expr::Str(ps, _), Expr::Str(_, _), Expr::Str(_, _)) => {
            lemma_parts_alike_chain(a, b, c, spans, ps@.len());
        },
        _ => {},
    }
}

fn same_digits(x: &Vec<u32>, y: &Vec<u32>) -> (r: bool)
    ensures
        r == (x@ == y@),
{
    if x.len() != y.len() {
        return false;
    }
    let mut i: usize = 0;
    while i < x.len()
        invariant
            i <= x@.len() == y@.len(),
            forall|j: int| 0 <= j < i ==> x@[j] == y@[j],
        decreases x@.len() - i,
    {
        if x[i] != y[i] {
            return false;
        }
        i += 1;
    }
    assert(x@ =~= y@);
    true
}

/// Whether `a` and `b` are alike, and written at the same places when `spans`
/// asks it.
fn alike_exprs(a: &Expr, b: &Expr, spans: bool) -> (r: bool)
    ensures
        r == alike(*a, *b, spans),
    decreases size(*a),
{
    match (a, b) {
        (Expr::Ident(x, s), Expr::Ident(y, t)) => crate::text::same_text(x.as_str(), y.as_str()) && (!spans || *s == *t),
        (Expr::Int(x, s), Expr::Int(y, t)) => x.negative == y.negative && same_digits(&x.digits, &y.digits) && (!spans
            || *s == *t),
        (Expr::Float(x, s), Expr::Float(y, t)) => crate::text::same_text(x.as_str(), y.as_str()) && (!spans || *s == *t),
        (Expr::BinOp { op: o, lhs: l1, rhs: r1, span: s }, Expr::BinOp { op: p, lhs: l2, rhs: r2, span: t }) => {
            let computes = match o {
                Op::Plus | Op::Minus | Op::Star | Op::Slash | Op::Percent => true,
                _ => false,
            };
            computes && *o == *p && (!spans || *s == *t) && alike_exprs(&**l1, &**l2, spans) && alike_exprs(
                &**r1,
                &**r2,
                spans,
            )
        },
        (Expr::Str(ps, s), Expr::Str(qs, t)) => {
            if ps.len() != qs.len() || (spans && *s != *t) {
                return false;
            }
            let mut i: usize = 0;
            while i < ps.len()
                invariant
                    i <= ps@.len() == qs@.len(),
                    *a == Expr::Str(*ps, *s) && *b == Expr::Str(*qs, *t),
                    parts_alike(*a, *b, spans, i as nat),
                decreases ps@.len() - i,
            {
                let ok = match (&ps[i], &qs[i]) {
                    (TemplatePart::Lit(x), TemplatePart::Lit(y)) => crate::text::same_text(x.as_str(), y.as_str()),
                    (TemplatePart::Interp(x), TemplatePart::Interp(y)) => {
                        proof {
                            lemma_part_smaller(*a, i as int);
                        }
                        alike_exprs(&**x, &**y, spans)
                    },
                    _ => false,
                };
                if !ok {
                    assert(!parts_alike(*a, *b, spans, (i + 1) as nat));
                    proof {
                        if parts_alike(*a, *b, spans, ps@.len()) {
                            lemma_parts_alike_prefix(*a, *b, spans, ps@.len(), (i + 1) as nat);
                        }
                    }
                    return false;
                }
                i += 1;
            }
            true
        },
        _ => false,
    }
}

/// A copy of the pure expression `e`, written at the same places.
fn copy_pure(e: &Expr) -> (r: Expr)
    requires
        pure(*e),
    ensures
        alike(*e, r, true),
    decreases size(*e),
{
    match e {
        Expr::Ident(x, s) => Expr::Ident(x.clone(), *s),
        Expr::Int(x, s) => {
            let mut digits: Vec<u32> = Vec::new();
            let mut i: usize = 0;
            while i < x.digits.len()
                invariant
                    i <= x.digits@.len(),
                    digits@ == x.digits@.subrange(0, i as int),
                decreases x.digits@.len() - i,
            {
                digits.push(x.digits[i]);
                i += 1;
                assert(digits@ =~= x.digits@.subrange(0, i as int));
            }
            assert(x.digits@.subrange(0, i as int) =~= x.digits@);
            Expr::Int(crate::number::Big { negative: x.negative, digits }, *s)
        },
        Expr::Float(x, s) => Expr::Float(x.clone(), *s),
        Expr::BinOp { op, lhs, rhs, span } => {
            let l = copy_pure(&**lhs);
            let r = copy_pure(&**rhs);
            Expr::BinOp { op: *op, lhs: Box::new(l), rhs: Box::new(r), span: *span }
        },
        Expr::Str(ps, s) => {
            let mut out: Vec<TemplatePart> = Vec::new();
            let mut i: usize = 0;
            while i < ps.len()
                invariant
                    i <= ps@.len(),
                    out@.len() == i,
                    *e == Expr::Str(*ps, *s),
                    pure(*e),
                    forall|j: int| 0 <= j < i ==> match (#[trigger] ps@[j], out@[j]) {
                        (TemplatePart::Lit(x), TemplatePart::Lit(y)) => x@ == y@,
                        (TemplatePart::Interp(x), TemplatePart::Interp(y)) => alike(*x, *y, true),
                        _ => false,
                    },
                decreases ps@.len() - i,
            {
                let piece = match &ps[i] {
                    TemplatePart::Lit(x) => TemplatePart::Lit(x.clone()),
                    TemplatePart::Interp(x) => {
                        proof {
                            lemma_part_smaller(*e, i as int);
                            lemma_parts_pure(*e, ps@.len(), i as int);
                        }
                        TemplatePart::Interp(Box::new(copy_pure(&**x)))
                    },
                };
                out.push(piece);
                i += 1;
            }
            let r = Expr::Str(out, *s);
            proof {
                lemma_parts_alike_from(*e, r, ps@.len());
            }
            r
        },
        _ => {
            proof {
                assert(false);
            }
            Expr::Ident(String::new(), crate::diag::Span::at(0, 0))
        },
    }
}

proof fn lemma_parts_alike_prefix(a: Expr, b: Expr, spans: bool, m: nat, k: nat)
    requires
        parts_alike(a, b, spans, m),
        k <= m,
    ensures
        parts_alike(a, b, spans, k),
    decreases m,
{
    if k < m {
        lemma_parts_alike_prefix(a, b, spans, (m - 1) as nat, k);
    }
}

proof fn lemma_parts_pure(e: Expr, n: nat, k: int)
    requires
        parts_alike(e, e, false, n),
        0 <= k < n,
        e->Str_0@[k] is Interp,
    ensures
        pure(*e->Str_0@[k]->Interp_0),
    decreases n,
{
    if k < n - 1 {
        lemma_parts_pure(e, (n - 1) as nat, k);
    }
}

proof fn lemma_parts_alike_from(a: Expr, b: Expr, n: nat)
    requires
        a is Str && b is Str,
        n <= a->Str_0@.len() && n <= b->Str_0@.len(),
        forall|j: int| 0 <= j < n ==> match (#[trigger] a->Str_0@[j], b->Str_0@[j]) {
            (TemplatePart::Lit(x), TemplatePart::Lit(y)) => x@ == y@,
            (TemplatePart::Interp(x), TemplatePart::Interp(y)) => alike(*x, *y, true),
            _ => false,
        },
    ensures
        parts_alike(a, b, true, n),
    decreases n,
{
    if n > 0 {
        lemma_parts_alike_from(a, b, (n - 1) as nat);
        let j = n - 1;
        assert(match (a->Str_0@[j], b->Str_0@[j]) {
            (TemplatePart::Lit(x), TemplatePart::Lit(y)) => x@ == y@,
            (TemplatePart::Interp(x), TemplatePart::Interp(y)) => alike(*x, *y, true),
            _ => false,
        });
    }
}

/// The hoistable templates of `e`, outermost first and in source order: a
/// hoistable template is taken whole, and a lambda is not looked into.
pub open spec fn hoistables(e: Expr) -> Seq<Expr>
    decreases size(e), 1nat, 0nat,
{
    if e is Lambda {
        Seq::empty()
    } else if hoistable(e) {
        seq![e]
    } else {
        hoistables_among(e, children(e).len())
    }
}

/// The hoistable templates of the first `n` direct sub-expressions of `e`.
pub open spec fn hoistables_among(e: Expr, n: nat) -> Seq<Expr>
    decreases size(e), 0nat, n,
    via hoistables_among_decreases
{
    if n == 0 || n > children(e).len() {
        Seq::empty()
    } else {
        hoistables_among(e, (n - 1) as nat) + hoistables(children(e)[n - 1])
    }
}

#[via_fn]
proof fn hoistables_among_decreases(e: Expr, n: nat) {
    lemma_children_smaller(e);
}

proof fn lemma_hoistables_pure(e: Expr)
    ensures
        forall|i: int| 0 <= i < hoistables(e).len() ==> #[trigger] hoistable(hoistables(e)[i]),
    decreases size(e), 1nat, 0nat,
{
    if !(e is Lambda) && !hoistable(e) {
        lemma_hoistables_among_pure(e, children(e).len());
        assert(hoistables(e) == hoistables_among(e, children(e).len()));
    } else if !(e is Lambda) {
        assert(hoistables(e) == seq![e]);
        assert(hoistable(hoistables(e)[0]));
    }
}

proof fn lemma_repeated_hoistable(found: Seq<Expr>, n: nat)
    requires
        forall|j: int| 0 <= j < found.len() ==> #[trigger] hoistable(found[j]),
    ensures
        forall|t: int| 0 <= t < repeated_upto(found, n).len() ==> #[trigger] hoistable(repeated_upto(found, n)[t]),
    decreases n,
{
    if n > 0 && n <= found.len() {
        lemma_repeated_hoistable(found, (n - 1) as nat);
        let r = repeated_upto(found, (n - 1) as nat);
        assert(hoistable(found[n - 1]));
        assert forall|t: int| 0 <= t < r.push(found[n - 1]).len() implies #[trigger] hoistable(r.push(found[n - 1])[t]) by {
            if t < r.len() {
                assert(r.push(found[n - 1])[t] == r[t]);
            }
        }
    }
}

proof fn lemma_hoistables_among_pure(e: Expr, n: nat)
    ensures
        forall|i: int| 0 <= i < hoistables_among(e, n).len() ==> #[trigger] hoistable(hoistables_among(e, n)[i]),
    decreases size(e), 0nat, n,
{
    if n > 0 && n <= children(e).len() {
        lemma_children_smaller(e);
        lemma_hoistables_among_pure(e, (n - 1) as nat);
        lemma_hoistables_pure(children(e)[n - 1]);
        let a = hoistables_among(e, (n - 1) as nat);
        let b = hoistables(children(e)[n - 1]);
        assert forall|i: int| 0 <= i < (a + b).len() implies #[trigger] hoistable((a + b)[i]) by {
            if i < a.len() {
                assert((a + b)[i] == a[i]);
            } else {
                assert((a + b)[i] == b[i - a.len()]);
            }
        }
    }
}

/// How many of the first `n` of `found` are alike `x`.
pub open spec fn count_alike(found: Seq<Expr>, x: Expr, n: nat) -> nat
    decreases n,
{
    if n == 0 || n > found.len() {
        0
    } else {
        count_alike(found, x, (n - 1) as nat) + if alike(x, found[n - 1], false) { 1nat } else { 0nat }
    }
}

/// Nothing before `found[j]` is alike it.
pub open spec fn first_of_kind(found: Seq<Expr>, j: int) -> bool {
    forall|i: int| 0 <= i < j ==> !alike(#[trigger] found[i], found[j], false)
}

/// Of the first `n` of `found`, each that occurs more than once, taken at its
/// first occurrence.
pub open spec fn repeated_upto(found: Seq<Expr>, n: nat) -> Seq<Expr>
    decreases n,
{
    if n == 0 || n > found.len() {
        Seq::empty()
    } else if count_alike(found, found[n - 1], found.len()) > 1 && first_of_kind(found, n - 1) {
        repeated_upto(found, (n - 1) as nat).push(found[n - 1])
    } else {
        repeated_upto(found, (n - 1) as nat)
    }
}

/// The templates `e` builds more than once, each at its first occurrence.
pub open spec fn repeated(e: Expr) -> Seq<Expr> {
    repeated_upto(hoistables(e), hoistables(e).len())
}

fn collect<'a>(e: &'a Expr, found: &mut Vec<&'a Expr>)
    ensures
        refs(final(found)@) == refs(old(found)@) + hoistables(*e),
    decreases size(*e),
{
    if let Expr::Lambda { .. } = e {
        assert(refs(found@) =~= refs(found@) + hoistables(*e));
        return;
    }
    let kids = for_each_child(e);
    if let Expr::Str(..) = e {
        if kids.len() > 0 && alike_exprs(e, e, false) {
            let ghost before = found@;
            found.push(e);
            assert(refs(found@) =~= refs(before) + hoistables(*e));
            return;
        }
    }
    assert(!hoistable(*e));
    proof {
        lemma_children_smaller(*e);
    }
    let ghost start = refs(found@);
    let mut i: usize = 0;
    assert(refs(found@) =~= start + hoistables_among(*e, 0));
    while i < kids.len()
        invariant
            i <= kids@.len(),
            refs(kids@) == children(*e),
            forall|j: int| 0 <= j < children(*e).len() ==> size(#[trigger] children(*e)[j]) < size(*e),
            refs(found@) == start + hoistables_among(*e, i as nat),
            start == refs(old(found)@),
        decreases kids@.len() - i,
    {
        assert(refs(kids@)[i as int] == *kids@[i as int]);
        assert(size(children(*e)[i as int]) < size(*e));
        collect(kids[i], found);
        assert(refs(found@) =~= start + hoistables_among(*e, (i + 1) as nat));
        i += 1;
    }
}

/// Copies of the templates among `found` that occur more than once, each at
/// its first occurrence.
fn repeated_copies(found: &Vec<&Expr>) -> (r: Vec<Expr>)
    requires
        forall|i: int| 0 <= i < found@.len() ==> #[trigger] hoistable(refs(found@)[i]),
    ensures
        r@.len() == repeated_upto(refs(found@), found@.len()).len(),
        forall|t: int| 0 <= t < r@.len() ==> alike(repeated_upto(refs(found@), found@.len())[t], #[trigger] r@[t], true),
{
    let ghost f = refs(found@);
    let mut out: Vec<Expr> = Vec::new();
    let mut j: usize = 0;
    while j < found.len()
        invariant
            j <= found@.len(),
            f == refs(found@),
            forall|i: int| 0 <= i < found@.len() ==> #[trigger] hoistable(f[i]),
            out@.len() == repeated_upto(f, j as nat).len(),
            forall|t: int| 0 <= t < out@.len() ==> alike(repeated_upto(f, j as nat)[t], #[trigger] out@[t], true),
        decreases found@.len() - j,
    {
        assert(f[j as int] == *found@[j as int]);
        let mut count: usize = 0;
        let mut first = true;
        let mut i: usize = 0;
        while i < found.len()
            invariant
                i <= found@.len(),
                j < found@.len(),
                f == refs(found@),
                f[j as int] == *found@[j as int],
                count == count_alike(f, f[j as int], i as nat),
                count <= i,
                first == (forall|q: int| 0 <= q < i && q < j ==> !alike(#[trigger] f[q], f[j as int], false)),
            decreases found@.len() - i,
        {
            assert(f[i as int] == *found@[i as int]);
            if alike_exprs(found[j], found[i], false) {
                count += 1;
            }
            if i < j && alike_exprs(found[i], found[j], false) {
                first = false;
            }
            i += 1;
        }
        assert(first == first_of_kind(f, j as int));
        if count > 1 && first {
            proof {
                assert(hoistable(f[j as int]));
            }
            let c = copy_pure(found[j]);
            out.push(c);
        }
        j += 1;
    }
    out
}

/// `b` is `a` with every template alike `rep` replaced by the name `name`,
/// written where the template was; a lambda is not looked into.
pub open spec fn swapped(a: Expr, b: Expr, rep: Expr, name: Seq<char>) -> bool
    decreases size(a), 1nat, 0nat,
    via swapped_decreases
{
    if a is Lambda {
        b == a
    } else if alike(rep, a, false) {
        b matches Expr::Ident(n, sp) && n@ == name && a is Str && sp == a->Str_1
    } else {
        same_shape(a, b) && children(b).len() == children(a).len() && swapped_among(a, b, rep, name, children(a).len())
    }
}

/// The first `n` direct sub-expressions of `b` are those of `a`, swapped.
pub open spec fn swapped_among(a: Expr, b: Expr, rep: Expr, name: Seq<char>, n: nat) -> bool
    decreases size(a), 0nat, n,
    via swapped_among_decreases
{
    if n == 0 {
        true
    } else if n > children(a).len() || n > children(b).len() {
        false
    } else {
        swapped_among(a, b, rep, name, (n - 1) as nat) && swapped(children(a)[n - 1], children(b)[n - 1], rep, name)
    }
}

#[via_fn]
proof fn swapped_decreases(a: Expr, b: Expr, rep: Expr, name: Seq<char>) {
    lemma_children_smaller(a);
}

#[via_fn]
proof fn swapped_among_decreases(a: Expr, b: Expr, rep: Expr, name: Seq<char>, n: nat) {
    lemma_children_smaller(a);
}

proof fn lemma_swapped_among(a: Expr, b: Expr, rep: Expr, name: Seq<char>, n: nat)
    requires
        n <= children(a).len() == children(b).len(),
        forall|i: int| 0 <= i < children(a).len() ==> swapped(#[trigger] children(a)[i], children(b)[i], rep, name),
    ensures
        swapped_among(a, b, rep, name, n),
    decreases n,
{
    if n > 0 {
        lemma_swapped_among(a, b, rep, name, (n - 1) as nat);
    }
}

/// Not within `n` nodes.
pub open spec fn fewer_nodes(c: Expr, n: nat) -> bool {
    size(c) < n
}

fn replace(e: Expr, rep: &Expr, spec_rep: Ghost<Expr>, name: &String) -> (r: Expr)
    requires
        spec_rep@ is Str,
        alike(spec_rep@, *rep, false),
    ensures
        swapped(e, r, spec_rep@, name@),
    decreases size(e),
{
    if let Expr::Lambda { .. } = &e {
        return e;
    }
    let hit = alike_exprs(rep, &e, false);
    proof {
        if alike(*rep, e, false) {
            lemma_alike_chain(spec_rep@, *rep, e, false);
        }
        if alike(spec_rep@, e, false) {
            lemma_alike_swap(spec_rep@, *rep, false);
            lemma_alike_chain(*rep, spec_rep@, e, false);
        }
    }
    if hit {
        let sp = match &e {
            Expr::Str(_, sp) => *sp,
            _ => {
                proof {
                    assert(false);
                }
                crate::diag::Span::at(0, 0)
            },
        };
        return Expr::Ident(name.clone(), sp);
    }
    let ghost g = e;
    let ghost bound: nat = size(e);
    proof {
        lemma_children_smaller(e);
    }
    let inner = |c: Expr| -> (d: Expr)
        requires
            fewer_nodes(c, bound),
        ensures
            swapped(c, d, spec_rep@, name@),
        { replace(c, rep, spec_rep, name) };
    let m = map_children(e, inner);
    proof {
        assert forall|i: int| 0 <= i < children(g).len() implies swapped(#[trigger] children(g)[i], children(m)[i], spec_rep@, name@) by {}
        lemma_swapped_among(g, m, spec_rep@, name@, children(g).len());
    }
    m
}

/// The name the `k`th hoisted template is bound to.
pub open spec fn once_name(k: nat) -> Seq<char> {
    "once"@ + crate::text::digits_of(k)
}

fn once_name_of(k: usize) -> (r: String)
    ensures
        r@ == once_name(k as nat),
{
    let mut cs: Vec<char> = Vec::new();
    crate::text::push_str(&mut cs, "once");
    crate::text::push_u64(k as u64, &mut cs);
    assert(cs@ =~= once_name(k as nat));
    crate::text::string_from_chars(cs.as_slice())
}

/// `b` is `a` with each of `rs` in turn replaced by the names from the
/// `c`th on.
pub open spec fn swapped_each(a: Expr, b: Expr, rs: Seq<Expr>, c: nat) -> bool
    decreases rs.len(),
{
    if rs.len() == 0 {
        b == a
    } else {
        exists|mid: Expr| swapped_each(a, mid, rs.drop_last(), c)
            && #[trigger] swapped(mid, b, rs.last(), once_name((c + rs.len() - 1) as nat))
    }
}

/// `s` binds the `k`th name to the template `rep`, written where it was.
pub open spec fn binds_rep(s: Stmt, rep: Expr, k: nat) -> bool {
    &&& s matches Stmt::Bind { pattern: Pattern::Var(n, sp), expr }
    &&& s->Bind_pattern->Var_0@ == once_name(k) && rep is Str && s->Bind_pattern->Var_1 == rep->Str_1
    &&& alike(rep, s->Bind_expr, true)
}

/// What the statement `s` becomes with `c` names already handed out: a
/// binding for each template it builds more than once, then itself reading
/// the names.
pub open spec fn chunk_for(chunk: Seq<Stmt>, s: Stmt, c: nat) -> bool {
    let rs = repeated(stmt_expr(s));
    &&& chunk.len() == rs.len() + 1
    &&& forall|t: int| 0 <= t < rs.len() ==> #[trigger] binds_rep(chunk[t], rs[t], (c + t) as nat)
    &&& same_stmt_shape(s, chunk.last())
    &&& swapped_each(stmt_expr(s), stmt_expr(chunk.last()), rs, c)
}

fn swap_all(e: Expr, copies: &Vec<Expr>, names: &Vec<String>, rs: Ghost<Seq<Expr>>, c: Ghost<nat>) -> (r: Expr)
    requires
        copies@.len() == rs@.len() == names@.len(),
        forall|t: int| 0 <= t < rs@.len() ==> (#[trigger] rs@[t]) is Str,
        forall|t: int| 0 <= t < rs@.len() ==> alike(rs@[t], #[trigger] copies@[t], true),
        forall|t: int| 0 <= t < rs@.len() ==> (#[trigger] names@[t])@ == once_name((c@ + t) as nat),
    ensures
        swapped_each(e, r, rs@, c@),
{
    let ghost e0 = e;
    let mut cur = e;
    let mut t: usize = 0;
    assert(rs@.subrange(0, 0) =~= Seq::<Expr>::empty());
    while t < copies.len()
        invariant
            t <= copies@.len() == rs@.len() == names@.len(),
            forall|q: int| 0 <= q < rs@.len() ==> (#[trigger] rs@[q]) is Str,
            forall|q: int| 0 <= q < rs@.len() ==> alike(rs@[q], #[trigger] copies@[q], true),
            forall|q: int| 0 <= q < rs@.len() ==> (#[trigger] names@[q])@ == once_name((c@ + q) as nat),
            swapped_each(e0, cur, rs@.subrange(0, t as int), c@),
        decreases copies@.len() - t,
    {
        proof {
            lemma_alike_weaken(rs@[t as int], copies@[t as int]);
        }
        let ghost mid = cur;
        let next = replace(cur, &copies[t], Ghost(rs@[t as int]), &names[t]);
        proof {
            let sub = rs@.subrange(0, t + 1);
            assert(sub.drop_last() =~= rs@.subrange(0, t as int));
            assert(sub.last() == rs@[t as int]);
            assert(swapped(mid, next, sub.last(), once_name((c@ + sub.len() - 1) as nat)));
        }
        cur = next;
        t += 1;
    }
    assert(rs@.subrange(0, t as int) =~= rs@);
    cur
}

/// The statement `s`, with its repeated templates bound before it, appended
/// to `out`; `counter` names are already handed out.
fn hoist_stmt(s: Stmt, counter: usize, out: &mut Vec<Stmt>) -> (next: usize)
    requires
        counter + repeated(stmt_expr(s)).len() <= usize::MAX,
    ensures
        next == counter + repeated(stmt_expr(s)).len(),
        final(out)@.len() == old(out)@.len() + repeated(stmt_expr(s)).len() + 1,
        final(out)@.subrange(0, old(out)@.len() as int) == old(out)@,
        chunk_for(final(out)@.subrange(old(out)@.len() as int, final(out)@.len() as int), s, counter as nat),
{
    let ghost rs = repeated(stmt_expr(s));
    let copies = {
        let mut found: Vec<&Expr> = Vec::new();
        let e = crate::ast::stmt_expr_of(&s);
        collect(e, &mut found);
        proof {
            assert(refs(found@) =~= hoistables(stmt_expr(s)));
            lemma_hoistables_pure(stmt_expr(s));
            lemma_repeated_hoistable(hoistables(stmt_expr(s)), hoistables(stmt_expr(s)).len());
        }
        repeated_copies(&found)
    };
    assert(forall|q: int| 0 <= q < rs.len() ==> (#[trigger] rs[q]) is Str) by {
        assert forall|q: int| 0 <= q < rs.len() implies (#[trigger] rs[q]) is Str by {
            assert(hoistable(rs[q]));
        }
    }
    let mut names: Vec<String> = Vec::new();
    let mut t: usize = 0;
    while t < copies.len()
        invariant
            t <= copies@.len() == rs.len(),
            counter + rs.len() <= usize::MAX,
            names@.len() == t,
            forall|q: int| 0 <= q < t ==> (#[trigger] names@[q])@ == once_name((counter + q) as nat),
        decreases copies@.len() - t,
    {
        names.push(once_name_of(counter + t));
        t += 1;
    }
    let ghost start = out@;
    let shaped = match s {
        Stmt::Bind { pattern, expr } => Stmt::Bind { pattern, expr: swap_all(expr, &copies, &names, Ghost(rs), Ghost(counter as nat)) },
        Stmt::Expr(e) => Stmt::Expr(swap_all(e, &copies, &names, Ghost(rs), Ghost(counter as nat))),
        Stmt::Assign { name, value } => Stmt::Assign { name, value: swap_all(value, &copies, &names, Ghost(rs), Ghost(counter as nat)) },
    };
    let ghost cs = copies@;
    let mut rest = super::canon::reversed(copies);
    let mut k: usize = 0;
    while rest.len() > 0
        invariant
            rest@.len() + k == cs.len() == rs.len() == names@.len(),
            counter + rs.len() <= usize::MAX,
            forall|q: int| 0 <= q < rest@.len() ==> rest@[q] == cs[cs.len() - 1 - q],
            forall|q: int| 0 <= q < rs.len() ==> alike(rs[q], #[trigger] cs[q], true),
            forall|q: int| 0 <= q < rs.len() ==> (#[trigger] rs[q]) is Str,
            forall|q: int| 0 <= q < rs.len() ==> (#[trigger] names@[q])@ == once_name((counter + q) as nat),
            out@.len() == start.len() + k,
            out@.subrange(0, start.len() as int) == start,
            forall|q: int| 0 <= q < k ==> #[trigger] binds_rep(out@[start.len() + q], rs[q], (counter + q) as nat),
        decreases rest@.len(),
    {
        let rep = rest.pop().unwrap();
        assert(rep == cs[k as int]);
        let sp = match &rep {
            Expr::Str(_, sp) => *sp,
            _ => {
                proof {
                    assert(alike(rs[k as int], cs[k as int], true));
                }
                crate::diag::Span::at(0, 0)
            },
        };
        let ghost before = out@;
        out.push(Stmt::Bind { pattern: Pattern::Var(names[k].clone(), sp), expr: rep });
        proof {
            assert(out@.subrange(0, start.len() as int) =~= before.subrange(0, start.len() as int));
            assert forall|q: int| 0 <= q < k + 1 implies #[trigger] binds_rep(out@[start.len() + q], rs[q], (counter + q) as nat) by {
                if q < k {
                    assert(out@[start.len() + q] == before[start.len() + q]);
                }
            }
        }
        k += 1;
    }
    let ghost before = out@;
    out.push(shaped);
    proof {
        assert(out@.subrange(0, start.len() as int) =~= before.subrange(0, start.len() as int));
        let chunk = out@.subrange(start.len() as int, out@.len() as int);
        assert forall|q: int| 0 <= q < rs.len() implies #[trigger] binds_rep(chunk[q], rs[q], (counter + q) as nat) by {
            assert(chunk[q] == out@[start.len() + q]);
            assert(out@[start.len() + q] == before[start.len() + q]);
        }
        assert(chunk.last() == shaped);
    }
    counter + k
}

/// How many names the statements `ss` hand out.
pub open spec fn body_hoists(ss: Seq<Stmt>) -> nat
    decreases ss.len(),
{
    if ss.len() == 0 {
        0
    } else {
        body_hoists(ss.drop_last()) + repeated(stmt_expr(ss.last())).len()
    }
}

/// `new` is the body `old` with each statement's repeated templates bound
/// before it, the names handed out in order from the `c`th.
pub open spec fn hoisted_body(old: Seq<Stmt>, new: Seq<Stmt>, c: nat) -> bool
    decreases old.len(),
{
    if old.len() == 0 {
        new.len() == 0
    } else {
        let m = repeated(stmt_expr(old.last())).len();
        let k = new.len() - (m + 1);
        &&& new.len() >= m + 1
        &&& hoisted_body(old.drop_last(), new.subrange(0, k), c)
        &&& chunk_for(new.subrange(k, new.len() as int), old.last(), c + body_hoists(old.drop_last()))
    }
}

proof fn lemma_body_hoists_prefix(ss: Seq<Stmt>, i: int)
    requires
        0 <= i <= ss.len(),
    ensures
        body_hoists(ss.subrange(0, i)) <= body_hoists(ss),
    decreases ss.len() - i,
{
    if i < ss.len() {
        lemma_body_hoists_prefix(ss, i + 1);
        assert(ss.subrange(0, i + 1).drop_last() =~= ss.subrange(0, i));
    } else {
        assert(ss.subrange(0, i) =~= ss);
    }
}

fn hoist_body(body: Vec<Stmt>, counter: usize) -> (r: (Vec<Stmt>, usize))
    requires
        counter + body_hoists(body@) <= usize::MAX,
    ensures
        hoisted_body(body@, r.0@, counter as nat),
        r.1 == counter + body_hoists(body@),
{
    let ghost orig = body@;
    let mut rest = super::canon::reversed(body);
    let mut out: Vec<Stmt> = Vec::new();
    let mut c = counter;
    let mut i: usize = 0;
    let total = rest.len();
    assert(orig.subrange(0, 0) =~= Seq::<Stmt>::empty());
    while rest.len() > 0
        invariant
            rest@.len() + i == orig.len() == total,
            forall|q: int| 0 <= q < rest@.len() ==> rest@[q] == orig[orig.len() - 1 - q],
            counter + body_hoists(orig) <= usize::MAX,
            hoisted_body(orig.subrange(0, i as int), out@, counter as nat),
            c == counter + body_hoists(orig.subrange(0, i as int)),
        decreases rest@.len(),
    {
        let st = rest.pop().unwrap();
        assert(st == orig[i as int]);
        let ghost pre = orig.subrange(0, i + 1);
        assert(pre.drop_last() =~= orig.subrange(0, i as int));
        assert(pre.last() == st);
        proof {
            lemma_body_hoists_prefix(orig, i + 1);
        }
        let ghost before = out@;
        c = hoist_stmt(st, c, &mut out);
        proof {
            let m = repeated(stmt_expr(st)).len();
            assert(out@.len() - (m + 1) == before.len());
        }
        i += 1;
    }
    assert(orig.subrange(0, i as int) =~= orig);
    (out, c)
}

/// How many names a declaration hands out: none for one the compiler made.
pub open spec fn decl_hoists(d: FnDecl) -> nat {
    if d.synthetic {
        0
    } else {
        body_hoists(d.body@)
    }
}

/// How many names the declarations `fns` hand out.
pub open spec fn fns_hoists(fns: Seq<FnDecl>) -> nat
    decreases fns.len(),
{
    if fns.len() == 0 {
        0
    } else {
        fns_hoists(fns.drop_last()) + decl_hoists(fns.last())
    }
}

/// `b` is the declaration `a` with its body hoisted from the `c`th name on; a
/// declaration the compiler made is left as it is.
pub open spec fn decl_hoisted(a: FnDecl, b: FnDecl, c: nat) -> bool {
    &&& b.name == a.name && b.is_pub == a.is_pub && b.span == a.span && b.params == a.params
    &&& b.file == a.file && b.synthetic == a.synthetic
    &&& a.synthetic ==> b.body == a.body
    &&& !a.synthetic ==> hoisted_body(a.body@, b.body@, c)
}

proof fn lemma_fns_hoists_prefix(fns: Seq<FnDecl>, i: int)
    requires
        0 <= i <= fns.len(),
    ensures
        fns_hoists(fns.subrange(0, i)) <= fns_hoists(fns),
    decreases fns.len() - i,
{
    if i < fns.len() {
        lemma_fns_hoists_prefix(fns, i + 1);
        assert(fns.subrange(0, i + 1).drop_last() =~= fns.subrange(0, i));
    } else {
        assert(fns.subrange(0, i) =~= fns);
    }
}

/// Binds each interpolation a statement builds more than once, from names
/// and numbers alone, to a fresh name `once0`, `once1`, ... just before the
/// statement, which then reads the name wherever it built the string; lambda
/// bodies are not looked into. The names run on through the whole program in
/// order, skipping declarations the compiler made, so `requires` asks that
/// they can be counted in a machine word.
pub fn hoist_repeated_strings(program: &mut Program)
    requires
        fns_hoists(old(program).fns@) <= usize::MAX,
    ensures
        final(program).types == old(program).types,
        final(program).fns@.len() == old(program).fns@.len(),
        forall|i: int| 0 <= i < old(program).fns@.len() ==> #[trigger] decl_hoisted(
            old(program).fns@[i],
            final(program).fns@[i],
            fns_hoists(old(program).fns@.subrange(0, i)),
        ),
{
    let ghost all = program.fns@;
    let mut fns: Vec<FnDecl> = Vec::new();
    std::mem::swap(&mut fns, &mut program.fns);
    let mut rest = super::canon::reversed(fns);
    let mut out: Vec<FnDecl> = Vec::new();
    let mut counter: usize = 0;
    assert(all.subrange(0, 0) =~= Seq::<FnDecl>::empty());
    while rest.len() > 0
        invariant
            rest@.len() + out@.len() == all.len(),
            forall|q: int| 0 <= q < rest@.len() ==> rest@[q] == all[all.len() - 1 - q],
            fns_hoists(all) <= usize::MAX,
            counter == fns_hoists(all.subrange(0, out@.len() as int)),
            forall|q: int| 0 <= q < out@.len() ==> #[trigger] decl_hoisted(all[q], out@[q], fns_hoists(all.subrange(0, q))),
        decreases rest@.len(),
    {
        let d = rest.pop().unwrap();
        let ghost i = out@.len() as int;
        assert(d == all[i]);
        let ghost pre = all.subrange(0, i + 1);
        assert(pre.drop_last() =~= all.subrange(0, i));
        assert(pre.last() == d);
        proof {
            lemma_fns_hoists_prefix(all, i + 1);
        }
        if d.synthetic {
            out.push(d);
        } else {
            let FnDecl { name, is_pub, span, params, body, file, synthetic } = d;
            let (new_body, next) = hoist_body(body, counter);
            counter = next;
            out.push(FnDecl { name, is_pub, span, params, body: new_body, file, synthetic });
        }
    }
    program.fns = out;
}

} // verus!
