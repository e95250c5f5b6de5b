//! Opacity across an import: a foreign type's structure is its module's
//! own, so a pattern that opens one is refused; and a qualified name its
//! module did not mark pub is refused wherever it is written.

use vstd::prelude::*;
use crate::ast::{
    children, for_each_child, lemma_children_smaller, refs, size, stmt_expr, Expr, FnDecl, Pattern, Program, Stmt,
};
use crate::diag::{Diagnostic, Span};
use crate::text::{index_of, push_str, string_from_chars};

verus! {

/// The span an expression was written at.
pub open spec fn span_of(e: Expr) -> Span {
    match e {
        Expr::Int(_, s) => s,
        Expr::Float(_, s) => s,
        Expr::Str(_, s) => s,
        Expr::Ident(_, s) => s,
        Expr::Partial(_, s) => s,
        Expr::List(_, s) => s,
        Expr::MapLit(_, s) => s,
        Expr::BinOp { span, .. } => span,
        Expr::Join { span, .. } => span,
        Expr::Sequence(_, _, s) => s,
        Expr::App { span, .. } => span,
        Expr::Field { span, .. } => span,
        Expr::Index { span, .. } => span,
        Expr::Upcast { span, .. } => span,
        Expr::Lambda { span, .. } => span,
        Expr::Guard { span, .. } => span,
        Expr::Block(_, s) => s,
        Expr::Build(_, s) => s,
    }
}

/// The span an expression was written at.
pub fn expr_span(e: &Expr) -> (r: Span)
    ensures
        r == span_of(*e),
{
    match e {
        Expr::Int(_, s) => *s,
        Expr::Float(_, s) => *s,
        Expr::Str(_, s) => *s,
        Expr::Ident(_, s) => *s,
        Expr::Partial(_, s) => *s,
        Expr::List(_, s) => *s,
        Expr::MapLit(_, s) => *s,
        Expr::BinOp { span, .. } => *span,
        Expr::Join { span, .. } => *span,
        Expr::Sequence(_, _, s) => *s,
        Expr::App { span, .. } => *span,
        Expr::Field { span, .. } => *span,
        Expr::Index { span, .. } => *span,
        Expr::Upcast { span, .. } => *span,
        Expr::Lambda { span, .. } => *span,
        Expr::Guard { span, .. } => *span,
        Expr::Block(_, s) => *s,
        Expr::Build(_, s) => *s,
    }
}

/// Whether the type name `ty` is foreign: qualified by a module.
pub open spec fn is_foreign(ty: Seq<char>) -> bool {
    index_of(ty, '/') != -1
}

/// The foreign types whose structure `p` opens, outermost first: a
/// constructor pattern of a foreign type with fields is one, and nothing
/// nested in it is looked at further.
pub open spec fn opened(p: Pattern) -> Seq<Seq<char>>
    decreases p, 1nat, 0nat,
{
    match p {
        Pattern::Ctor { ty, fields, .. } => if is_foreign(ty@) && fields@.len() > 0 {
            seq![ty@]
        } else {
            opened_among(p, fields@.len())
        },
        _ => Seq::empty(),
    }
}

/// What the first `n` fields of the constructor pattern `p` open, in order.
pub open spec fn opened_among(p: Pattern, n: nat) -> Seq<Seq<char>>
    decreases p, 0nat, n,
{
    if n == 0 || !(p is Ctor) || n > p->Ctor_fields@.len() {
        Seq::empty()
    } else {
        opened_among(p, (n - 1) as nat) + opened(p->Ctor_fields@[n - 1])
    }
}

/// Each of `tys` beside the span `s`.
pub open spec fn at_span(tys: Seq<Seq<char>>, s: Span) -> Seq<(Seq<char>, Span)> {
    tys.map_values(|t: Seq<char>| (t, s))
}

/// What the first `n` parameters of `d` open, each at the declaration.
pub open spec fn params_opened(d: FnDecl, n: nat) -> Seq<(Seq<char>, Span)>
    decreases n,
{
    if n == 0 || n > d.params@.len() {
        Seq::empty()
    } else {
        params_opened(d, (n - 1) as nat) + at_span(opened(d.params@[n - 1]), d.span)
    }
}

/// What the patterns of the first `n` bindings of `d`'s body open, each at
/// the expression bound.
pub open spec fn binds_opened(d: FnDecl, n: nat) -> Seq<(Seq<char>, Span)>
    decreases n,
{
    if n == 0 || n > d.body@.len() {
        Seq::empty()
    } else {
        binds_opened(d, (n - 1) as nat) + match d.body@[n - 1] {
            Stmt::Bind { pattern, expr } => at_span(opened(pattern), span_of(expr)),
            _ => Seq::empty(),
        }
    }
}

/// Every foreign structure the declarations `fns` open, in order, each
/// with the span it is reported at.
pub open spec fn foreign_sites(fns: Seq<FnDecl>) -> Seq<(Seq<char>, Span)>
    decreases fns.len(),
{
    if fns.len() == 0 {
        Seq::empty()
    } else {
        foreign_sites(fns.drop_last()) + params_opened(fns.last(), fns.last().params@.len()) + binds_opened(
            fns.last(),
            fns.last().body@.len(),
        )
    }
}

/// What a refused foreign destructure says.
pub open spec fn foreign_message(ty: Seq<char>) -> Seq<char> {
    "`"@ + ty + "` is foreign — its structure does not cross an import; use its module's pub operations"@
}

/// Whether `d` reports the foreign structure `site` opens.
pub open spec fn reports_foreign(d: Diagnostic, site: (Seq<char>, Span)) -> bool {
    d.kind@ == "opacity"@ && d.message@ == foreign_message(site.0) && d.span == site.1
}

fn opened_exec(p: &Pattern, out: &mut Vec<String>)
    ensures
        final(out)@.len() == old(out)@.len() + opened(*p).len(),
        forall|k: int| 0 <= k < old(out)@.len() ==> #[trigger] final(out)@[k] == old(out)@[k],
        forall|k: int| 0 <= k < opened(*p).len() ==> #[trigger] final(out)@[old(out)@.len() + k]@ == opened(*p)[k],
    decreases *p,
{
    match p {
        Pattern::Ctor { ty, fields, .. } => {
            let cs = crate::text::chars_of(ty.as_str());
            if crate::text::find_char(cs.as_slice(), '/').is_some() && fields.len() > 0 {
                out.push(ty.clone());
                return;
            }
            let ghost o0 = out@;
            let mut i: usize = 0;
            while i < fields.len()
                invariant
                    i <= fields@.len(),
                    *p is Ctor && p->Ctor_fields == *fields,
                    out@.len() == o0.len() + opened_among(*p, i as nat).len(),
                    forall|k: int| 0 <= k < o0.len() ==> #[trigger] out@[k] == o0[k],
                    forall|k: int| 0 <= k < opened_among(*p, i as nat).len() ==> #[trigger] out@[o0.len() + k]@ == opened_among(*p, i as nat)[k],
                decreases fields@.len() - i,
            {
                assert(decreases_to!(*p => fields@[i as int])) by {
                    assert(decreases_to!(*p => p->Ctor_fields));
                    assert(decreases_to!(p->Ctor_fields => p->Ctor_fields@));
                    assert(decreases_to!(p->Ctor_fields@ => p->Ctor_fields@[i as int]));
                }
                let ghost o1 = out@;
                let ghost a = opened_among(*p, i as nat);
                opened_exec(&fields[i], out);
                proof {
                    let b = opened(fields@[i as int]);
                    assert(opened_among(*p, (i + 1) as nat) == a + b);
                    assert forall|k: int| 0 <= k < o0.len() implies #[trigger] out@[k] == o0[k] by {
                        assert(out@[k] == o1[k]);
                    }
                    assert forall|k: int| 0 <= k < (a + b).len() implies #[trigger] out@[o0.len() + k]@ == (a + b)[k] by {
                        if k < a.len() {
                            assert(out@[o0.len() + k] == o1[o0.len() + k]);
                        } else {
                            assert(out@[o1.len() + (k - a.len())]@ == b[k - a.len()]);
                        }
                    }
                }
                i += 1;
            }
        },
        _ => {},
    }
}

fn foreign_diag(ty: &String, span: Span) -> (d: Diagnostic)
    ensures
        d.kind@ == "opacity"@,
        d.message@ == foreign_message(ty@),
        d.span == span,
{
    let mut m: Vec<char> = Vec::new();
    push_str(&mut m, "`");
    push_str(&mut m, ty.as_str());
    push_str(&mut m, "` is foreign — its structure does not cross an import; use its module's pub operations");
    let msg = string_from_chars(m.as_slice());
    assert(msg@ =~= foreign_message(ty@));
    Diagnostic::new("opacity", msg, span)
}

fn report_all(tys: &Vec<String>, span: Span, out: &mut Vec<Diagnostic>)
    ensures
        final(out)@.len() == old(out)@.len() + tys@.len(),
        forall|k: int| 0 <= k < old(out)@.len() ==> #[trigger] final(out)@[k] == old(out)@[k],
        forall|k: int| 0 <= k < tys@.len() ==> reports_foreign(#[trigger] final(out)@[old(out)@.len() + k], (tys@[k]@, span)),
{
    let ghost o0 = out@;
    let mut i: usize = 0;
    while i < tys.len()
        invariant
            i <= tys@.len(),
            out@.len() == o0.len() + i,
            forall|k: int| 0 <= k < o0.len() ==> #[trigger] out@[k] == o0[k],
            forall|k: int| 0 <= k < i ==> reports_foreign(#[trigger] out@[o0.len() + k], (tys@[k]@, span)),
        decreases tys@.len() - i,
    {
        let d = foreign_diag(&tys[i], span);
        out.push(d);
        i += 1;
    }
}

/// A positional read into a foreign type, refused: naming a foreign type is
/// free, opening its structure is its owner's privilege. Every parameter
/// pattern is reported at its declaration and every binding's pattern at
/// the expression it binds, in order.
pub fn foreign_destructures(program: &Program) -> (r: Vec<Diagnostic>)
    ensures
        r@.len() == foreign_sites(program.fns@).len(),
        forall|k: int| 0 <= k < r@.len() ==> reports_foreign(#[trigger] r@[k], foreign_sites(program.fns@)[k]),
{
    let mut out: Vec<Diagnostic> = Vec::new();
    let mut j: usize = 0;
    while j < program.fns.len()
        invariant
            j <= program.fns@.len(),
            out@.len() == foreign_sites(program.fns@.subrange(0, j as int)).len(),
            forall|k: int| 0 <= k < out@.len() ==> reports_foreign(#[trigger] out@[k], foreign_sites(program.fns@.subrange(0, j as int))[k]),
        decreases program.fns@.len() - j,
    {
        let d = &program.fns[j];
        let ghost before = out@;
        let ghost prior = foreign_sites(program.fns@.subrange(0, j as int));
        let mut k: usize = 0;
        while k < d.params.len()
            invariant
                k <= d.params@.len(),
                out@.len() == before.len() + params_opened(*d, k as nat).len(),
                forall|q: int| 0 <= q < before.len() ==> #[trigger] out@[q] == before[q],
                forall|q: int| 0 <= q < params_opened(*d, k as nat).len() ==> reports_foreign(#[trigger] out@[before.len() + q], params_opened(*d, k as nat)[q]),
            decreases d.params@.len() - k,
        {
            let mut tys: Vec<String> = Vec::new();
            opened_exec(&d.params[k], &mut tys);
            proof {
                assert forall|x: int| 0 <= x < opened(d.params@[k as int]).len() implies tys@[x]@ == opened(d.params@[k as int])[x] by {
                    assert(tys@[0 + x] == tys@[x]);
                }
            }
            let ghost o1 = out@;
            report_all(&tys, d.span, &mut out);
            proof {
                let a = params_opened(*d, k as nat);
                let b = at_span(opened(d.params@[k as int]), d.span);
                assert(params_opened(*d, (k + 1) as nat) == a + b);
                assert forall|q: int| 0 <= q < before.len() implies #[trigger] out@[q] == before[q] by {
                    assert(out@[q] == o1[q]);
                }
                assert forall|q: int| 0 <= q < (a + b).len() implies reports_foreign(#[trigger] out@[before.len() + q], (a + b)[q]) by {
                    if q < a.len() {
                        assert(out@[before.len() + q] == o1[before.len() + q]);
                    } else {
                        assert(out@[o1.len() + (q - a.len())] == out@[before.len() + q]);
                        assert(tys@[q - a.len()]@ == opened(d.params@[k as int])[q - a.len()]);
                    }
                }
            }
            k += 1;
        }
        let ghost mid = out@;
        let mut k: usize = 0;
        while k < d.body.len()
            invariant
                k <= d.body@.len(),
                out@.len() == mid.len() + binds_opened(*d, k as nat).len(),
                forall|q: int| 0 <= q < mid.len() ==> #[trigger] out@[q] == mid[q],
                forall|q: int| 0 <= q < binds_opened(*d, k as nat).len() ==> reports_foreign(#[trigger] out@[mid.len() + q], binds_opened(*d, k as nat)[q]),
            decreases d.body@.len() - k,
        {
            let ghost o1 = out@;
            let ghost a = binds_opened(*d, k as nat);
            match &d.body[k] {
                Stmt::Bind { pattern, expr } => {
                    let mut tys: Vec<String> = Vec::new();
                    opened_exec(pattern, &mut tys);
                    proof {
                        assert forall|x: int| 0 <= x < opened(*pattern).len() implies tys@[x]@ == opened(*pattern)[x] by {
                            assert(tys@[0 + x] == tys@[x]);
                        }
                    }
                    report_all(&tys, expr_span(expr), &mut out);
                    proof {
                        let b = at_span(opened(*pattern), span_of(*expr));
                        assert(binds_opened(*d, (k + 1) as nat) == a + b);
                        assert forall|q: int| 0 <= q < mid.len() implies #[trigger] out@[q] == mid[q] by {
                            assert(out@[q] == o1[q]);
                        }
                        assert forall|q: int| 0 <= q < (a + b).len() implies reports_foreign(#[trigger] out@[mid.len() + q], (a + b)[q]) by {
                            if q < a.len() {
                                assert(out@[mid.len() + q] == o1[mid.len() + q]);
                            } else {
                                assert(out@[o1.len() + (q - a.len())] == out@[mid.len() + q]);
                                assert(tys@[q - a.len()]@ == opened(*pattern)[q - a.len()]);
                            }
                        }
                    }
                },
                _ => {
                    assert(binds_opened(*d, (k + 1) as nat) =~= a);
                },
            }
            k += 1;
        }
        proof {
            let fs = program.fns@.subrange(0, j + 1);
            assert(fs.drop_last() =~= program.fns@.subrange(0, j as int));
            assert(fs.last() == *d);
            let all = foreign_sites(fs);
            let pa = params_opened(*d, d.params@.len());
            let bo = binds_opened(*d, d.body@.len());
            assert(all == prior + pa + bo);
            assert forall|q: int| 0 <= q < out@.len() implies reports_foreign(#[trigger] out@[q], all[q]) by {
                if q < before.len() {
                    assert(out@[q] == mid[q]);
                    assert(mid[q] == before[q]);
                } else if q < mid.len() {
                    assert(out@[q] == mid[q]);
                    assert(mid[before.len() + (q - before.len())] == mid[q]);
                } else {
                    assert(out@[mid.len() + (q - mid.len())] == out@[q]);
                }
            }
        }
        j += 1;
    }
    assert(program.fns@.subrange(0, program.fns@.len() as int) =~= program.fns@);
    out
}

/// Whether the qualified name `n` is pub, by the last word `ex` has on it.
pub open spec fn export_of(ex: Seq<(String, bool)>, n: Seq<char>) -> Option<bool>
    decreases ex.len(),
{
    if ex.len() == 0 {
        None
    } else if ex.last().0@ == n {
        Some(ex.last().1)
    } else {
        export_of(ex.drop_last(), n)
    }
}

/// Every qualified name inside `e` its module did not mark pub, in the
/// order written, each with its span.
pub open spec fn private_sites(e: Expr, ex: Seq<(String, bool)>) -> Seq<(Seq<char>, Span)>
    decreases size(e), 1nat, 0nat,
{
    private_here(e, ex) + private_among(e, ex, children(e).len())
}

/// `e` itself where it is a name its module did not mark pub.
pub open spec fn private_here(e: Expr, ex: Seq<(String, bool)>) -> Seq<(Seq<char>, Span)> {
    match e {
        Expr::Ident(n, s) => if export_of(ex, n@) == Some(false) {
            seq![(n@, s)]
        } else {
            Seq::empty()
        },
        _ => Seq::empty(),
    }
}

/// The private names inside the first `k` direct sub-expressions of `e`.
pub open spec fn private_among(e: Expr, ex: Seq<(String, bool)>, k: nat) -> Seq<(Seq<char>, Span)>
    decreases size(e), 0nat, k,
    via private_among_decreases
{
    if k == 0 || k > children(e).len() {
        Seq::empty()
    } else {
        private_among(e, ex, (k - 1) as nat) + private_sites(children(e)[k - 1], ex)
    }
}

#[via_fn]
proof fn private_among_decreases(e: Expr, ex: Seq<(String, bool)>, k: nat) {
    lemma_children_smaller(e);
}

/// The module a qualified name names: what comes before its last `/`.
pub open spec fn module_of(n: Seq<char>) -> Seq<char> {
    let i = crate::text::last_index_of(n, '/');
    if i < 0 { Seq::empty() } else { n.subrange(0, i) }
}

/// The name a qualified name gives within its module: what follows its
/// last `/`.
pub open spec fn base_of(n: Seq<char>) -> Seq<char> {
    let i = crate::text::last_index_of(n, '/');
    if i < 0 { n } else { n.subrange(i + 1, n.len() as int) }
}

/// What a private use says: that an import of the module shadowed the
/// name where `shadowed` lists it, else that the name is private.
pub open spec fn private_message(n: Seq<char>, shadowed: Seq<String>) -> Seq<char> {
    let m = module_of(n);
    let b = base_of(n);
    if crate::passes::listed(shadowed, n) {
        "`"@ + m + "` declares `"@ + b + "` pub, but an import of `"@ + m + "` exports `"@ + b
            + "` too and took the name — rename that import inside `"@ + m + "`"@
    } else {
        "`"@ + b + "` is private to module `"@ + m + "` — only pub names cross an import"@
    }
}

/// Whether `d` reports the private use `site`.
pub open spec fn reports_private(d: Diagnostic, site: (Seq<char>, Span), shadowed: Seq<String>) -> bool {
    d.kind@ == "opacity"@ && d.message@ == private_message(site.0, shadowed) && d.span == site.1
}

fn export_lookup(ex: &Vec<(String, bool)>, n: &str) -> (r: Option<bool>)
    ensures
        r == export_of(ex@, n@),
{
    let mut k = ex.len();
    assert(ex@.subrange(0, k as int) =~= ex@);
    while k > 0
        invariant
            k <= ex@.len(),
            export_of(ex@, n@) == export_of(ex@.subrange(0, k as int), n@),
        decreases k,
    {
        let ghost pre = ex@.subrange(0, k as int);
        assert(pre.drop_last() =~= ex@.subrange(0, k - 1));
        if crate::text::same_text(ex[k - 1].0.as_str(), n) {
            return Some(ex[k - 1].1);
        }
        k -= 1;
    }
    None
}

fn private_diag(n: &String, span: Span, shadowed: &Vec<String>) -> (d: Diagnostic)
    ensures
        d.kind@ == "opacity"@,
        d.message@ == private_message(n@, shadowed@),
        d.span == span,
{
    let cs = crate::text::chars_of(n.as_str());
    let len = cs.len();
    let (m, b): (Vec<char>, Vec<char>) = match crate::text::find_last_char(cs.as_slice(), '/') {
        Some(i) => (crate::text::slice_vec(cs.as_slice(), 0, i), crate::text::slice_vec(cs.as_slice(), i + 1, len)),
        None => (Vec::new(), cs),
    };
    assert(m@ == module_of(n@) && b@ == base_of(n@)) by {
        if crate::text::last_index_of(n@, '/') < 0 {
            assert(m@ =~= Seq::<char>::empty());
        }
    }
    let ms = string_from_chars(m.as_slice());
    let bs = string_from_chars(b.as_slice());
    let mut out: Vec<char> = Vec::new();
    if crate::passes::listed_exec(shadowed, n.as_str()) {
        push_str(&mut out, "`");
        push_str(&mut out, ms.as_str());
        push_str(&mut out, "` declares `");
        push_str(&mut out, bs.as_str());
        push_str(&mut out, "` pub, but an import of `");
        push_str(&mut out, ms.as_str());
        push_str(&mut out, "` exports `");
        push_str(&mut out, bs.as_str());
        push_str(&mut out, "` too and took the name — rename that import inside `");
        push_str(&mut out, ms.as_str());
        push_str(&mut out, "`");
    } else {
        push_str(&mut out, "`");
        push_str(&mut out, bs.as_str());
        push_str(&mut out, "` is private to module `");
        push_str(&mut out, ms.as_str());
        push_str(&mut out, "` — only pub names cross an import");
    }
    let msg = string_from_chars(out.as_slice());
    assert(msg@ =~= private_message(n@, shadowed@));
    Diagnostic::new("opacity", msg, span)
}

fn private_walk(e: &Expr, ex: &Vec<(String, bool)>, shadowed: &Vec<String>, out: &mut Vec<Diagnostic>)
    ensures
        final(out)@.len() == old(out)@.len() + private_sites(*e, ex@).len(),
        forall|k: int| 0 <= k < old(out)@.len() ==> #[trigger] final(out)@[k] == old(out)@[k],
        forall|k: int|
            0 <= k < private_sites(*e, ex@).len() ==> reports_private(
                #[trigger] final(out)@[old(out)@.len() + k],
                private_sites(*e, ex@)[k],
                shadowed@,
            ),
    decreases size(*e),
{
    let ghost o0 = out@;
    let ghost here = private_here(*e, ex@);
    match e {
        Expr::Ident(name, span) => {
            if export_lookup(ex, name.as_str()) == Some(false) {
                out.push(private_diag(name, *span, shadowed));
            }
        },
        _ => {},
    }
    let ghost o1 = out@;
    assert(o1.len() == o0.len() + here.len());
    proof {
        lemma_children_smaller(*e);
    }
    let kids = for_each_child(e);
    let mut i: usize = 0;
    while i < kids.len()
        invariant
            i <= kids@.len(),
            refs(kids@) == children(*e),
            forall|j: int| 0 <= j < children(*e).len() ==> size(#[trigger] children(*e)[j]) < size(*e),
            out@.len() == o1.len() + private_among(*e, ex@, i as nat).len(),
            forall|k: int| 0 <= k < o1.len() ==> #[trigger] out@[k] == o1[k],
            forall|k: int|
                0 <= k < private_among(*e, ex@, i as nat).len() ==> reports_private(
                    #[trigger] out@[o1.len() + k],
                    private_among(*e, ex@, i as nat)[k],
                    shadowed@,
                ),
        decreases kids@.len() - i,
    {
        let c = kids[i];
        assert(refs(kids@)[i as int] == *c);
        let ghost o2 = out@;
        let ghost a = private_among(*e, ex@, i as nat);
        private_walk(c, ex, shadowed, out);
        proof {
            let b = private_sites(*c, ex@);
            assert(private_among(*e, ex@, (i + 1) as nat) == a + b);
            assert forall|k: int| 0 <= k < o1.len() implies #[trigger] out@[k] == o1[k] by {
                assert(out@[k] == o2[k]);
            }
            assert forall|k: int| 0 <= k < (a + b).len() implies reports_private(#[trigger] out@[o1.len() + k], (a + b)[k], shadowed@) by {
                if k < a.len() {
                    assert(out@[o1.len() + k] == o2[o1.len() + k]);
                } else {
                    assert(out@[o2.len() + (k - a.len())] == out@[o1.len() + k]);
                }
            }
        }
        i += 1;
    }
    proof {
        let all = private_sites(*e, ex@);
        let rest = private_among(*e, ex@, children(*e).len());
        assert(all == here + rest);
        assert forall|k: int| 0 <= k < all.len() implies reports_private(#[trigger] out@[o0.len() + k], all[k], shadowed@) by {
            if k < here.len() {
                assert(out@[o0.len() + k] == o1[o0.len() + k]);
            } else {
                assert(out@[o1.len() + (k - here.len())] == out@[o0.len() + k]);
            }
        }
        assert forall|k: int| 0 <= k < o0.len() implies #[trigger] out@[k] == o0[k] by {
            assert(out@[k] == o1[k]);
        }
    }
}

/// A qualified reference to a name its module did not mark pub, refused
/// wherever the statement writes one: `exports` says which qualified names
/// are pub, and `shadowed` lists those an import of their own module took.
pub fn private_uses(stmt: &Stmt, exports: &Vec<(String, bool)>, shadowed: &Vec<String>) -> (r: Vec<Diagnostic>)
    ensures
        r@.len() == private_sites(stmt_expr(*stmt), exports@).len(),
        forall|k: int|
            0 <= k < r@.len() ==> reports_private(#[trigger] r@[k], private_sites(stmt_expr(*stmt), exports@)[k], shadowed@),
{
    let mut out: Vec<Diagnostic> = Vec::new();
    private_walk(crate::ast::stmt_expr_of(stmt), exports, shadowed, &mut out);
    proof {
        assert forall|k: int| 0 <= k < out@.len() implies reports_private(
            #[trigger] out@[k],
            private_sites(stmt_expr(*stmt), exports@)[k],
            shadowed@,
        ) by {
            assert(out@[0 + k] == out@[k]);
        }
    }
    out
}

} // verus!
