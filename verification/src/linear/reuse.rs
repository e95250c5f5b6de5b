//! Constructor sites that may build into a record that is finished.
//!
//! `shift (n - 1) (point (p.x + 1) p.y)` reads every field it needs before the
//! constructor runs, so by then `p` is done with. When every caller hands the
//! parameter over uniquely, and the only mentions of it in the arm are those
//! reads, its storage is free and the new record can go there. The runtime
//! keeps the other half: it writes through only into a record of the same
//! width, so a mismatch falls back to allocating.

use vstd::prelude::*;
use crate::ast::{
    children, for_each_child, lemma_children_smaller, refs, size, stmt_expr, stmt_expr_of, Expr, FnDecl, Pattern,
    Program, TypeDecl,
};
use crate::text::same_text;
use super::{body_uses, count_in_expr, hand_over, settled, site_view, uses_in, Analysis, Site};

verus! {

/// Whether the program declares a type called `n`.
pub open spec fn declares_type(types: Seq<TypeDecl>, n: Seq<char>) -> bool {
    exists|t: int| 0 <= t < types.len() && (#[trigger] types[t]).name@ == n
}

/// Whether `e` is a call of a declared type's constructor, with arguments,
/// written at `line`, `col`.
pub open spec fn is_ctor_at(e: Expr, types: Seq<TypeDecl>, line: usize, col: usize) -> bool {
    match e {
        Expr::App { head, args, span, .. } => span.line as usize == line && span.col as usize == col && args@.len() > 0
            && match *head {
            Expr::Ident(n, _) => declares_type(types, n@),
            _ => false,
        },
        _ => false,
    }
}

/// Whether such a call is written in `e` outside any lambda.
pub open spec fn has_ctor_at(e: Expr, types: Seq<TypeDecl>, line: usize, col: usize) -> bool
    decreases size(e), 1nat, 0nat,
{
    !(e is Lambda) && (is_ctor_at(e, types, line, col) || ctors_among(e, types, line, col, children(e).len()))
}

/// Whether one of the first `n` direct sub-expressions of `e` holds one.
pub open spec fn ctors_among(e: Expr, types: Seq<TypeDecl>, line: usize, col: usize, n: nat) -> bool
    decreases size(e), 0nat, n,
    via ctors_among_decreases
{
    if n == 0 || n > children(e).len() {
        false
    } else {
        ctors_among(e, types, line, col, (n - 1) as nat) || has_ctor_at(children(e)[n - 1], types, line, col)
    }
}

#[via_fn]
proof fn ctors_among_decreases(e: Expr, types: Seq<TypeDecl>, line: usize, col: usize, n: nat) {
    lemma_children_smaller(e);
}

proof fn lemma_ctors_among(e: Expr, types: Seq<TypeDecl>, line: usize, col: usize, k: nat, m: nat)
    requires
        k <= m <= children(e).len(),
        ctors_among(e, types, line, col, k),
    ensures
        ctors_among(e, types, line, col, m),
    decreases m - k,
{
    if k < m {
        lemma_ctors_among(e, types, line, col, k, (m - 1) as nat);
    }
}

/// Whether the pattern is the plain name `n`.
pub open spec fn names_param(p: Pattern, n: Seq<char>) -> bool {
    p matches Pattern::Var(q, _) && q@ == n
}

/// Whether `decl` has a parameter that is the plain name `n`.
pub open spec fn is_param_name(decl: FnDecl, n: Seq<char>) -> bool {
    exists|i: int| 0 <= i < decl.params@.len() && names_param(#[trigger] decl.params@[i], n)
}

/// The entry is a constructor site in `e`, written in `decl`'s file, and
/// names one of `decl`'s parameters.
pub open spec fn reuse_in(decl: FnDecl, e: Expr, types: Seq<TypeDecl>, entry: (Site, String)) -> bool {
    &&& entry.0.0@ == decl.file@
    &&& has_ctor_at(e, types, entry.0.1, entry.0.2)
    &&& is_param_name(decl, entry.1@)
}

/// No site is listed twice.
pub open spec fn distinct_entries(v: Seq<(Site, String)>) -> bool {
    forall|i: int, j: int| 0 <= i < j < v.len() ==> site_view((#[trigger] v[i]).0) != site_view((#[trigger] v[j]).0)
}

/// What a walk of `e` left in `out`, starting from `before`: every old site
/// kept, either with its parameter or with one that `e` answers for, and
/// every new site one that `e` answers for.
pub open spec fn reuse_found(before: Seq<(Site, String)>, out: Seq<(Site, String)>, decl: FnDecl, e: Expr, types: Seq<TypeDecl>) -> bool {
    &&& before.len() <= out.len()
    &&& forall|i: int| 0 <= i < before.len() ==> site_view((#[trigger] out[i]).0) == site_view(before[i].0)
        && (out[i] == before[i] || reuse_in(decl, e, types, out[i]))
    &&& forall|i: int| before.len() <= i < out.len() ==> reuse_in(decl, e, types, #[trigger] out[i])
}

fn is_type_name(types: &Vec<TypeDecl>, n: &str) -> (r: bool)
    ensures
        r == declares_type(types@, n@),
{
    let mut t: usize = 0;
    while t < types.len()
        invariant
            t <= types@.len(),
            forall|q: int| 0 <= q < t ==> (#[trigger] types@[q]).name@ != n@,
        decreases types@.len() - t,
    {
        if same_text(types[t].name.as_str(), n) {
            return true;
        }
        t += 1;
    }
    false
}

/// Enters `victim` for the site; a site already entered takes the new name.
fn put_entry(out: &mut Vec<(Site, String)>, site: Site, victim: String)
    requires
        distinct_entries(old(out)@),
    ensures
        distinct_entries(final(out)@),
        old(out)@.len() <= final(out)@.len() <= old(out)@.len() + 1,
        forall|i: int| 0 <= i < old(out)@.len() ==> site_view((#[trigger] final(out)@[i]).0) == site_view(old(out)@[i].0)
            && (final(out)@[i] == old(out)@[i] || (final(out)@[i].1 == victim && site_view(final(out)@[i].0) == site_view(site))),
        final(out)@.len() > old(out)@.len() ==> final(out)@.last().1 == victim && site_view(final(out)@.last().0) == site_view(site),
        exists|i: int| 0 <= i < final(out)@.len() && site_view((#[trigger] final(out)@[i]).0) == site_view(site) && final(out)@[i].1 == victim,
{
    let mut k: usize = 0;
    while k < out.len()
        invariant
            k <= out@.len(),
            out@ == old(out)@,
            distinct_entries(old(out)@),
            forall|j: int| 0 <= j < k ==> site_view((#[trigger] out@[j]).0) != site_view(site),
        decreases out@.len() - k,
    {
        if out[k].0.1 == site.1 && out[k].0.2 == site.2 && same_text(out[k].0.0.as_str(), site.0.as_str()) {
            let ghost before = out@;
            assert(site_view(before[k as int].0) == site_view(site));
            out.set(k, (site, victim));
            assert(distinct_entries(out@)) by {
                assert forall|i: int, j: int| 0 <= i < j < out@.len() implies site_view((#[trigger] out@[i]).0) != site_view((#[trigger] out@[j]).0) by {
                    assert(site_view(out@[i].0) == site_view(before[i].0));
                    assert(site_view(out@[j].0) == site_view(before[j].0));
                }
            }
            assert(site_view(out@[k as int].0) == site_view(site));
            return;
        }
        k += 1;
    }
    out.push((site, victim));
    assert(distinct_entries(out@)) by {
        assert forall|i: int, j: int| 0 <= i < j < out@.len() implies site_view((#[trigger] out@[i]).0) != site_view((#[trigger] out@[j]).0) by {
            if j == out@.len() - 1 {
                assert(out@[i] == old(out)@[i]);
            } else {
                assert(out@[i] == old(out)@[i] && out@[j] == old(out)@[j]);
            }
        }
    }
    assert(site_view(out@[out@.len() - 1].0) == site_view(site));
}

/// Uses of `var` in the first `n` of `args`.
pub open spec fn arg_uses(var: Seq<char>, args: Seq<Expr>, n: nat) -> usize
    decreases n,
{
    if n == 0 || n > args.len() {
        0
    } else {
        arg_uses(var, args, (n - 1) as nat).saturating_add(uses_in(var, args[n - 1]))
    }
}

/// Whether parameter `i` of `decl` is a plain name that `args` read, that
/// nothing else in the arm reads, and that every caller hands over.
pub open spec fn finished_param(
    types: Seq<String>,
    folds: Seq<String>,
    rets: Seq<(String, usize)>,
    lin: Seq<Site>,
    program: Program,
    decl: FnDecl,
    args: Seq<Expr>,
    i: int,
) -> bool {
    0 <= i < decl.params@.len() && decl.params@[i] is Var && ({
        let name = decl.params@[i]->Var_0@;
        arg_uses(name, args, args.len()) != 0 && arg_uses(name, args, args.len()) == body_uses(name, decl.body@, decl.body@.len())
            && hand_over(types, folds, rets, lin, program.fns@, decl.name@, decl.params@.len() as usize, i as usize)
    })
}

/// How many of the first `n` parameters of `decl` are finished by `args`.
pub open spec fn finished_count(
    types: Seq<String>,
    folds: Seq<String>,
    rets: Seq<(String, usize)>,
    lin: Seq<Site>,
    program: Program,
    decl: FnDecl,
    args: Seq<Expr>,
    n: nat,
) -> nat
    decreases n,
{
    if n == 0 {
        0
    } else {
        finished_count(types, folds, rets, lin, program, decl, args, (n - 1) as nat) + if finished_param(types, folds, rets, lin, program, decl, args, n - 1) {
            1nat
        } else {
            0nat
        }
    }
}

proof fn lemma_finished_count_grows(
    types: Seq<String>,
    folds: Seq<String>,
    rets: Seq<(String, usize)>,
    lin: Seq<Site>,
    program: Program,
    decl: FnDecl,
    args: Seq<Expr>,
    k: nat,
    m: nat,
)
    requires
        k <= m,
    ensures
        finished_count(types, folds, rets, lin, program, decl, args, k) <= finished_count(types, folds, rets, lin, program, decl, args, m),
    decreases m - k,
{
    if k < m {
        lemma_finished_count_grows(types, folds, rets, lin, program, decl, args, k, (m - 1) as nat);
    }
}

/// The one parameter `args` finish, when exactly one is.
pub open spec fn sole_finished(
    types: Seq<String>,
    folds: Seq<String>,
    rets: Seq<(String, usize)>,
    lin: Seq<Site>,
    program: Program,
    decl: FnDecl,
    args: Seq<Expr>,
) -> Option<Seq<char>> {
    if finished_count(types, folds, rets, lin, program, decl, args, decl.params@.len()) == 1 {
        Some(decl.params@[choose|i: int| finished_param(types, folds, rets, lin, program, decl, args, i)]->Var_0@)
    } else {
        None
    }
}

/// Whether `e` is a constructor call of a declared type, with arguments,
/// written at `line`, `col`, whose arguments finish exactly the parameter
/// `v`.
pub open spec fn reuse_here(
    types: Seq<String>,
    folds: Seq<String>,
    rets: Seq<(String, usize)>,
    lin: Seq<Site>,
    program: Program,
    decl: FnDecl,
    e: Expr,
    line: usize,
    col: usize,
    v: Seq<char>,
) -> bool {
    match e {
        Expr::App { head, args, span, .. } => span.line as usize == line && span.col as usize == col && args@.len() > 0
            && match *head {
            Expr::Ident(n, _) => declares_type(program.types@, n@) && sole_finished(types, folds, rets, lin, program, decl, args@) == Some(v),
            _ => false,
        },
        _ => false,
    }
}

/// Whether walking `e` outside any lambda finds such a call.
pub open spec fn reuse_marks(
    types: Seq<String>,
    folds: Seq<String>,
    rets: Seq<(String, usize)>,
    lin: Seq<Site>,
    program: Program,
    decl: FnDecl,
    e: Expr,
    line: usize,
    col: usize,
    v: Seq<char>,
) -> bool
    decreases size(e), 1nat, 0nat,
{
    !(e is Lambda) && (reuse_here(types, folds, rets, lin, program, decl, e, line, col, v) || reuse_kids(types, folds, rets, lin, program, decl, e, line, col, v, children(e).len()))
}

/// Whether one of the first `n` direct sub-expressions of `e` holds one.
pub open spec fn reuse_kids(
    types: Seq<String>,
    folds: Seq<String>,
    rets: Seq<(String, usize)>,
    lin: Seq<Site>,
    program: Program,
    decl: FnDecl,
    e: Expr,
    line: usize,
    col: usize,
    v: Seq<char>,
    n: nat,
) -> bool
    decreases size(e), 0nat, n,
    via reuse_kids_decreases
{
    if n == 0 || n > children(e).len() {
        false
    } else {
        reuse_kids(types, folds, rets, lin, program, decl, e, line, col, v, (n - 1) as nat) || reuse_marks(types, folds, rets, lin, program, decl, children(e)[n - 1], line, col, v)
    }
}

#[via_fn]
proof fn reuse_kids_decreases(
    types: Seq<String>,
    folds: Seq<String>,
    rets: Seq<(String, usize)>,
    lin: Seq<Site>,
    program: Program,
    decl: FnDecl,
    e: Expr,
    line: usize,
    col: usize,
    v: Seq<char>,
    n: nat,
) {
    lemma_children_smaller(e);
}

proof fn lemma_reuse_kids(
    types: Seq<String>,
    folds: Seq<String>,
    rets: Seq<(String, usize)>,
    lin: Seq<Site>,
    program: Program,
    decl: FnDecl,
    e: Expr,
    line: usize,
    col: usize,
    v: Seq<char>,
    k: nat,
    m: nat,
)
    requires
        k <= m <= children(e).len(),
        reuse_kids(types, folds, rets, lin, program, decl, e, line, col, v, k),
    ensures
        reuse_kids(types, folds, rets, lin, program, decl, e, line, col, v, m),
    decreases m - k,
{
    if k < m {
        lemma_reuse_kids(types, folds, rets, lin, program, decl, e, line, col, v, k, (m - 1) as nat);
    }
}

/// Whether `v` enters a site at (`file`, `line`, `col`).
pub open spec fn has_entry(v: Seq<(Site, String)>, file: Seq<char>, line: usize, col: usize) -> bool {
    exists|k: int| 0 <= k < v.len() && site_view((#[trigger] v[k]).0) == (file, line, col)
}

/// The entries a walk of `e` changed or added since `before` are sites it
/// marks in `decl`'s file, and every site it marks is entered.
pub open spec fn reuse_walked(
    types: Seq<String>,
    folds: Seq<String>,
    rets: Seq<(String, usize)>,
    lin: Seq<Site>,
    program: Program,
    decl: FnDecl,
    e: Expr,
    before: Seq<(Site, String)>,
    out: Seq<(Site, String)>,
) -> bool {
    &&& forall|i: int| 0 <= i < out.len() && (i >= before.len() || out[i] != before[i]) ==> (#[trigger] out[i]).0.0@ == decl.file@
        && reuse_marks(types, folds, rets, lin, program, decl, e, out[i].0.1, out[i].0.2, out[i].1@)
    &&& forall|line: usize, col: usize, v: Seq<char>| #[trigger] reuse_marks(types, folds, rets, lin, program, decl, e, line, col, v) ==> has_entry(out, decl.file@, line, col)
}

proof fn lemma_has_entry_grows(before: Seq<(Site, String)>, out: Seq<(Site, String)>, file: Seq<char>, line: usize, col: usize)
    requires
        before.len() <= out.len(),
        forall|i: int| 0 <= i < before.len() ==> site_view((#[trigger] out[i]).0) == site_view(before[i].0),
        has_entry(before, file, line, col),
    ensures
        has_entry(out, file, line, col),
{
    let k = choose|k: int| 0 <= k < before.len() && site_view((#[trigger] before[k]).0) == (file, line, col);
    assert(site_view(out[k].0) == site_view(before[k].0));
}

proof fn lemma_finished_unique(
    types: Seq<String>,
    folds: Seq<String>,
    rets: Seq<(String, usize)>,
    lin: Seq<Site>,
    program: Program,
    decl: FnDecl,
    args: Seq<Expr>,
    n: nat,
    a: int,
    b: int,
)
    requires
        finished_count(types, folds, rets, lin, program, decl, args, n) == 1,
        0 <= a < n,
        0 <= b < n,
        finished_param(types, folds, rets, lin, program, decl, args, a),
        finished_param(types, folds, rets, lin, program, decl, args, b),
    ensures
        a == b,
    decreases n,
{
    if a != b {
        let hi = if a < b { b } else { a };
        let lo = if a < b { a } else { b };
        if hi == n - 1 {
            lemma_finished_positive(types, folds, rets, lin, program, decl, args, (n - 1) as nat, lo);
        } else {
            if finished_param(types, folds, rets, lin, program, decl, args, n - 1) {
                lemma_finished_positive(types, folds, rets, lin, program, decl, args, (n - 1) as nat, a);
            } else {
                lemma_finished_unique(types, folds, rets, lin, program, decl, args, (n - 1) as nat, a, b);
            }
        }
    }
}

proof fn lemma_finished_positive(
    types: Seq<String>,
    folds: Seq<String>,
    rets: Seq<(String, usize)>,
    lin: Seq<Site>,
    program: Program,
    decl: FnDecl,
    args: Seq<Expr>,
    n: nat,
    a: int,
)
    requires
        0 <= a < n,
        finished_param(types, folds, rets, lin, program, decl, args, a),
    ensures
        finished_count(types, folds, rets, lin, program, decl, args, n) >= 1,
    decreases n,
{
    if a < n - 1 {
        lemma_finished_positive(types, folds, rets, lin, program, decl, args, (n - 1) as nat, a);
    }
}

impl<'a> Analysis<'a> {
    /// The one parameter these arguments read, when it is read nowhere else
    /// in the arm and every caller hands it over.
    fn sole_finished_record(&self, decl: &FnDecl, args: &Vec<Expr>) -> (r: Option<String>)
        ensures
            r matches Some(v) ==> is_param_name(*decl, v@),
            (match r {
                Some(v) => Some(v@),
                None => None::<Seq<char>>,
            }) == sole_finished(self.types@, self.folds@, self.returns_unique@, self.linear_params@, *self.program, *decl, args@),
    {
        let arity = decl.params.len();
        let mut candidate: Option<String> = None;
        let mut i: usize = 0;
        while i < arity
            invariant
                i <= arity == decl.params@.len(),
                candidate matches Some(v) ==> is_param_name(*decl, v@),
                candidate is None <==> finished_count(self.types@, self.folds@, self.returns_unique@, self.linear_params@, *self.program, *decl, args@, i as nat) == 0,
                candidate is Some ==> finished_count(self.types@, self.folds@, self.returns_unique@, self.linear_params@, *self.program, *decl, args@, i as nat) == 1,
                candidate matches Some(v) ==> exists|j: int| 0 <= j < i && finished_param(self.types@, self.folds@, self.returns_unique@, self.linear_params@, *self.program, *decl, args@, j)
                    && decl.params@[j]->Var_0@ == v@,
            decreases arity - i,
        {
            let ghost c0 = finished_count(self.types@, self.folds@, self.returns_unique@, self.linear_params@, *self.program, *decl, args@, i as nat);
            if let Pattern::Var(name, _) = &decl.params[i] {
                let mut here: usize = 0;
                let mut k: usize = 0;
                while k < args.len()
                    invariant
                        k <= args@.len(),
                        here == arg_uses(name@, args@, k as nat),
                    decreases args@.len() - k,
                {
                    here = here.saturating_add(count_in_expr(name.as_str(), &args[k]));
                    k += 1;
                }
                if here != 0 {
                    let mut everywhere: usize = 0;
                    let mut k: usize = 0;
                    while k < decl.body.len()
                        invariant
                            k <= decl.body@.len(),
                            everywhere == body_uses(name@, decl.body@, k as nat),
                        decreases decl.body@.len() - k,
                    {
                        everywhere = everywhere.saturating_add(count_in_expr(name.as_str(), stmt_expr_of(&decl.body[k])));
                        k += 1;
                    }
                    // read here and nowhere else, or somebody outlives the constructor
                    if here == everywhere && self.callers_hand_over(decl.name.as_str(), arity, i) {
                        assert(finished_param(self.types@, self.folds@, self.returns_unique@, self.linear_params@, *self.program, *decl, args@, i as int));
                        if candidate.is_some() {
                            proof {
                                lemma_finished_count_grows(self.types@, self.folds@, self.returns_unique@, self.linear_params@, *self.program, *decl, args@, (i + 1) as nat, decl.params@.len());
                            }
                            return None;
                        }
                        assert(names_param(decl.params@[i as int], name@));
                        candidate = Some(name.clone());
                    } else {
                        assert(!finished_param(self.types@, self.folds@, self.returns_unique@, self.linear_params@, *self.program, *decl, args@, i as int));
                    }
                } else {
                    assert(!finished_param(self.types@, self.folds@, self.returns_unique@, self.linear_params@, *self.program, *decl, args@, i as int));
                }
            } else {
                assert(!finished_param(self.types@, self.folds@, self.returns_unique@, self.linear_params@, *self.program, *decl, args@, i as int));
            }
            i += 1;
        }
        proof {
            if finished_count(self.types@, self.folds@, self.returns_unique@, self.linear_params@, *self.program, *decl, args@, decl.params@.len()) == 1 {
                let v = candidate->0;
                let j = choose|j: int| 0 <= j < decl.params@.len() && finished_param(self.types@, self.folds@, self.returns_unique@, self.linear_params@, *self.program, *decl, args@, j)
                    && decl.params@[j]->Var_0@ == v@;
                let c = choose|i: int| finished_param(self.types@, self.folds@, self.returns_unique@, self.linear_params@, *self.program, *decl, args@, i);
                lemma_finished_unique(self.types@, self.folds@, self.returns_unique@, self.linear_params@, *self.program, *decl, args@, decl.params@.len(), j, c);
            }
        }
        candidate
    }

    fn walk_for_reuse(&self, decl: &FnDecl, e: &Expr, out: &mut Vec<(Site, String)>)
        requires
            distinct_entries(old(out)@),
        ensures
            distinct_entries(final(out)@),
            reuse_found(old(out)@, final(out)@, *decl, *e, self.program.types@),
            reuse_walked(self.types@, self.folds@, self.returns_unique@, self.linear_params@, *self.program, *decl, *e, old(out)@, final(out)@),
        decreases size(*e),
    {
        let types = &self.program.types;
        if let Expr::Lambda { .. } = e {
            return;
        }
        if let Expr::App { head, args, span, .. } = e {
            if let Expr::Ident(name, _) = &**head {
                if is_type_name(types, name.as_str()) && args.len() > 0 {
                    if let Some(victim) = self.sole_finished_record(decl, args) {
                        let ghost vv = victim@;
                        let site = (decl.file.clone(), span.line as usize, span.col as usize);
                        let ghost before = out@;
                        put_entry(out, site, victim);
                        assert(is_ctor_at(*e, types@, span.line as usize, span.col as usize));
                        assert(reuse_found(before, out@, *decl, *e, types@));
                        assert(reuse_here(self.types@, self.folds@, self.returns_unique@, self.linear_params@, *self.program, *decl, *e, span.line as usize, span.col as usize, vv));
                        proof {
                            assert forall|i: int| 0 <= i < out@.len() && (i >= before.len() || out@[i] != before[i]) implies (#[trigger] out@[i]).0.0@ == decl.file@
                                && reuse_marks(self.types@, self.folds@, self.returns_unique@, self.linear_params@, *self.program, *decl, *e, out@[i].0.1, out@[i].0.2, out@[i].1@) by {
                                assert(site_view(out@[i].0) == (decl.file@, span.line as usize, span.col as usize));
                                assert(out@[i].1@ == vv);
                            }
                        }
                    }
                }
            }
        }
        let ghost here = out@;
        assert(forall|i: int| 0 <= i < here.len() && (i >= old(out)@.len() || here[i] != old(out)@[i]) ==> (#[trigger] here[i]).0.0@ == decl.file@
            && reuse_marks(self.types@, self.folds@, self.returns_unique@, self.linear_params@, *self.program, *decl, *e, here[i].0.1, here[i].0.2, here[i].1@));
        assert(forall|l: usize, c: usize, v: Seq<char>| #[trigger] reuse_here(self.types@, self.folds@, self.returns_unique@, self.linear_params@, *self.program, *decl, *e, l, c, v) ==> has_entry(here, decl.file@, l, c)) by {
            assert forall|l: usize, c: usize, v: Seq<char>| #[trigger] reuse_here(self.types@, self.folds@, self.returns_unique@, self.linear_params@, *self.program, *decl, *e, l, c, v) implies has_entry(here, decl.file@, l, c) by {
            }
        }
        proof {
            lemma_children_smaller(*e);
        }
        let kids = for_each_child(e);
        let mut k: usize = 0;
        while k < kids.len()
            invariant
                k <= kids@.len(),
                *types == self.program.types,
                !(*e is Lambda),
                refs(kids@) == children(*e),
                forall|j: int| 0 <= j < children(*e).len() ==> size(#[trigger] children(*e)[j]) < size(*e),
                distinct_entries(out@),
                reuse_found(old(out)@, out@, *decl, *e, self.program.types@),
                here.len() <= out@.len(),
                forall|i: int| 0 <= i < here.len() ==> site_view((#[trigger] out@[i]).0) == site_view(here[i].0),
                forall|i: int| 0 <= i < out@.len() && (i >= old(out)@.len() || out@[i] != old(out)@[i]) ==> (#[trigger] out@[i]).0.0@ == decl.file@
                    && reuse_marks(self.types@, self.folds@, self.returns_unique@, self.linear_params@, *self.program, *decl, *e, out@[i].0.1, out@[i].0.2, out@[i].1@),
                forall|l: usize, c: usize, v: Seq<char>| #[trigger] reuse_here(self.types@, self.folds@, self.returns_unique@, self.linear_params@, *self.program, *decl, *e, l, c, v) ==> has_entry(here, decl.file@, l, c),
                forall|l: usize, c: usize, v: Seq<char>| #[trigger] reuse_kids(self.types@, self.folds@, self.returns_unique@, self.linear_params@, *self.program, *decl, *e, l, c, v, k as nat) ==> has_entry(out@, decl.file@, l, c),
            decreases kids@.len() - k,
        {
            assert(refs(kids@)[k as int] == *kids@[k as int]);
            let ghost before = out@;
            self.walk_for_reuse(decl, kids[k], out);
            proof {
                let c = children(*e)[k as int];
                assert(c == *kids@[k as int]);
                assert(refs(kids@).len() == kids@.len());
                assert forall|i: int| 0 <= i < out@.len() && (i >= old(out)@.len() || out@[i] != old(out)@[i]) implies (#[trigger] out@[i]).0.0@ == decl.file@
                    && reuse_marks(self.types@, self.folds@, self.returns_unique@, self.linear_params@, *self.program, *decl, *e, out@[i].0.1, out@[i].0.2, out@[i].1@) by {
                    if i < before.len() && out@[i] == before[i] {
                    } else {
                        assert(reuse_marks(self.types@, self.folds@, self.returns_unique@, self.linear_params@, *self.program, *decl, c, out@[i].0.1, out@[i].0.2, out@[i].1@));
                        assert(reuse_kids(self.types@, self.folds@, self.returns_unique@, self.linear_params@, *self.program, *decl, *e, out@[i].0.1, out@[i].0.2, out@[i].1@, (k + 1) as nat));
                        lemma_reuse_kids(self.types@, self.folds@, self.returns_unique@, self.linear_params@, *self.program, *decl, *e, out@[i].0.1, out@[i].0.2, out@[i].1@, (k + 1) as nat, children(*e).len());
                    }
                }
                assert forall|i: int| 0 <= i < here.len() implies site_view((#[trigger] out@[i]).0) == site_view(here[i].0) by {
                    assert(site_view(out@[i].0) == site_view(before[i].0));
                }
                assert(c == *kids@[k as int]);
                assert(reuse_found(before, out@, *decl, c, types@));
                assert forall|i: int| 0 <= i < out@.len() && reuse_in(*decl, c, types@, #[trigger] out@[i]) implies reuse_in(*decl, *e, types@, out@[i]) by {
                    assert(ctors_among(*e, types@, out@[i].0.1, out@[i].0.2, (k + 1) as nat));
                    lemma_ctors_among(*e, types@, out@[i].0.1, out@[i].0.2, (k + 1) as nat, children(*e).len());
                }
                assert forall|i: int| 0 <= i < old(out)@.len() implies site_view((#[trigger] out@[i]).0) == site_view(old(out)@[i].0)
                    && (out@[i] == old(out)@[i] || reuse_in(*decl, *e, types@, out@[i])) by {
                    assert(site_view(out@[i].0) == site_view(before[i].0));
                    if out@[i] != before[i] {
                        assert(reuse_in(*decl, c, types@, out@[i]));
                    }
                }
                assert forall|i: int| old(out)@.len() <= i < out@.len() implies reuse_in(*decl, *e, types@, #[trigger] out@[i]) by {
                    if i < before.len() {
                        if out@[i] != before[i] {
                            assert(reuse_in(*decl, c, types@, out@[i]));
                        }
                    } else {
                        assert(reuse_in(*decl, c, types@, out@[i]));
                    }
                }
            }
            let ghost kk = k;
            k += 1;
            proof {
                let c = children(*e)[kk as int];
                assert(c == *kids@[kk as int]);
                assert forall|l: usize, cc: usize, v: Seq<char>| #[trigger] reuse_kids(self.types@, self.folds@, self.returns_unique@, self.linear_params@, *self.program, *decl, *e, l, cc, v, k as nat) implies has_entry(out@, decl.file@, l, cc) by {
                    assert(k as nat == (kk + 1) as nat);
                    if reuse_kids(self.types@, self.folds@, self.returns_unique@, self.linear_params@, *self.program, *decl, *e, l, cc, v, kk as nat) {
                        lemma_has_entry_grows(before, out@, decl.file@, l, cc);
                    } else {
                        assert(reuse_marks(self.types@, self.folds@, self.returns_unique@, self.linear_params@, *self.program, *decl, c, l, cc, v));
                    }
                }
            }
        }
        proof {
            assert forall|l: usize, cc: usize, v: Seq<char>| #[trigger] reuse_marks(self.types@, self.folds@, self.returns_unique@, self.linear_params@, *self.program, *decl, *e, l, cc, v) implies has_entry(out@, decl.file@, l, cc) by {
                if reuse_here(self.types@, self.folds@, self.returns_unique@, self.linear_params@, *self.program, *decl, *e, l, cc, v) {
                    lemma_has_entry_grows(here, out@, decl.file@, l, cc);
                } else {
                    assert(reuse_kids(self.types@, self.folds@, self.returns_unique@, self.linear_params@, *self.program, *decl, *e, l, cc, v, kids@.len() as nat));
                }
            }
        }
    }
}

/// Whether `decl` writes such a constructor call at `line`, `col`.
pub open spec fn decl_builds_at(decl: FnDecl, types: Seq<TypeDecl>, line: usize, col: usize) -> bool {
    exists|k: int| 0 <= k < decl.body@.len() && has_ctor_at(#[trigger] stmt_expr(decl.body@[k]), types, line, col)
}

/// The entry is a constructor site of a declaration the program wrote
/// itself, in that declaration's file, and names one of its parameters.
pub open spec fn reuse_at(program: Program, entry: (Site, String)) -> bool {
    exists|d: int|
        0 <= d < program.fns@.len() && !(#[trigger] program.fns@[d]).synthetic && program.fns@[d].file@ == entry.0.0@
            && decl_builds_at(program.fns@[d], program.types@, entry.0.1, entry.0.2)
            && is_param_name(program.fns@[d], entry.1@)
}

/// Whether walking a statement of a declaration the program wrote itself,
/// in the entry's file, finds the entry's constructor and parameter.
pub open spec fn reuse_source(
    program: Program,
    types: Seq<String>,
    folds: Seq<String>,
    rets: Seq<(String, usize)>,
    lin: Seq<Site>,
    entry: (Site, String),
) -> bool {
    exists|d: int, j: int|
        0 <= d < program.fns@.len() && !program.fns@[d].synthetic && program.fns@[d].file@ == entry.0.0@ && 0 <= j
            < program.fns@[d].body@.len() && #[trigger] reuse_marks(
            types,
            folds,
            rets,
            lin,
            program,
            program.fns@[d],
            stmt_expr(program.fns@[d].body@[j]),
            entry.0.1,
            entry.0.2,
            entry.1@,
        )
}

/// Whether `r` enters exactly the constructor sites that walking the
/// statements of the declarations `program` wrote itself finds, under the
/// given answers, each with a parameter found for it.
pub open spec fn reuses_found(
    program: Program,
    types: Seq<String>,
    folds: Seq<String>,
    rets: Seq<(String, usize)>,
    lin: Seq<Site>,
    r: Seq<(Site, String)>,
) -> bool {
    &&& forall|i: int| 0 <= i < r.len() ==> reuse_source(program, types, folds, rets, lin, #[trigger] r[i])
    &&& forall|d: int, j: int, line: usize, col: usize, v: Seq<char>|
        0 <= d < program.fns@.len() && !program.fns@[d].synthetic && 0 <= j < program.fns@[d].body@.len() && #[trigger] reuse_marks(
            types,
            folds,
            rets,
            lin,
            program,
            program.fns@[d],
            stmt_expr(program.fns@[d].body@[j]),
            line,
            col,
            v,
        ) ==> has_entry(r, program.fns@[d].file@, line, col)
}

/// Constructor sites, keyed (file, line, column), that may build into the
/// record a parameter held, with that parameter's name: the arguments read
/// the parameter and nothing else in the arm does, and every caller hands
/// it over. Each site is listed once, and is a constructor call of a
/// declared type, with arguments and outside any lambda, in a declaration
/// the program wrote itself; the name is one of that declaration's
/// parameters.
pub fn reusable_records(program: &Program) -> (r: Vec<(Site, String)>)
    ensures
        distinct_entries(r@),
        forall|i: int| 0 <= i < r@.len() ==> reuse_at(*program, #[trigger] r@[i]),
        exists|types: Seq<String>, folds: Seq<String>, rets: Seq<(String, usize)>, lin: Seq<Site>|
            #[trigger] settled(*program, types, folds, rets, lin) && reuses_found(*program, types, folds, rets, lin, r@),
{
    let analysis = Analysis::new(program);
    let mut out: Vec<(Site, String)> = Vec::new();
    let mut k: usize = 0;
    while k < program.fns.len()
        invariant
            k <= program.fns@.len(),
            analysis.program == program,
            distinct_entries(out@),
            forall|i: int| 0 <= i < out@.len() ==> reuse_at(*program, #[trigger] out@[i]),
            forall|i: int| 0 <= i < out@.len() ==> reuse_source(*program, analysis.types@, analysis.folds@, analysis.returns_unique@, analysis.linear_params@, #[trigger] out@[i]),
            forall|d: int, j: int, line: usize, col: usize, v: Seq<char>|
                0 <= d < k && !program.fns@[d].synthetic && 0 <= j < program.fns@[d].body@.len() && #[trigger] reuse_marks(
                analysis.types@, analysis.folds@, analysis.returns_unique@, analysis.linear_params@, *program, program.fns@[d], stmt_expr(program.fns@[d].body@[j]), line, col, v) ==> has_entry(out@, program.fns@[d].file@, line, col),
        decreases program.fns@.len() - k,
    {
        let decl = &program.fns[k];
        if !decl.synthetic {
            let mut j: usize = 0;
            while j < decl.body.len()
                invariant
                    k < program.fns@.len(),
                    *decl == program.fns@[k as int],
                    !decl.synthetic,
                    analysis.program == program,
                    j <= decl.body@.len(),
                    distinct_entries(out@),
                    forall|i: int| 0 <= i < out@.len() ==> reuse_at(*program, #[trigger] out@[i]),
                    forall|i: int| 0 <= i < out@.len() ==> reuse_source(*program, analysis.types@, analysis.folds@, analysis.returns_unique@, analysis.linear_params@, #[trigger] out@[i]),
                    forall|d: int, j: int, line: usize, col: usize, v: Seq<char>|
                        0 <= d < k && !program.fns@[d].synthetic && 0 <= j < program.fns@[d].body@.len() && #[trigger] reuse_marks(
                        analysis.types@, analysis.folds@, analysis.returns_unique@, analysis.linear_params@, *program, program.fns@[d], stmt_expr(program.fns@[d].body@[j]), line, col, v) ==> has_entry(out@, program.fns@[d].file@, line, col),
                    forall|q: int, line: usize, col: usize, v: Seq<char>|
                        0 <= q < j && #[trigger] reuse_marks(analysis.types@, analysis.folds@, analysis.returns_unique@, analysis.linear_params@, *program, *decl, stmt_expr(decl.body@[q]), line, col, v) ==> has_entry(out@, decl.file@, line, col),
                decreases decl.body@.len() - j,
            {
                let ghost before = out@;
                let e = stmt_expr_of(&decl.body[j]);
                analysis.walk_for_reuse(decl, e, &mut out);
                proof {
                    assert forall|i: int| 0 <= i < out@.len() implies reuse_source(*program, analysis.types@, analysis.folds@, analysis.returns_unique@, analysis.linear_params@, #[trigger] out@[i]) by {
                        if i < before.len() && out@[i] == before[i] {
                        } else {
                            assert(reuse_marks(analysis.types@, analysis.folds@, analysis.returns_unique@, analysis.linear_params@, *program, program.fns@[k as int], stmt_expr(program.fns@[k as int].body@[j as int]), out@[i].0.1, out@[i].0.2, out@[i].1@));
                        }
                    }
                    assert forall|d: int, jj: int, line: usize, col: usize, v: Seq<char>|
                        0 <= d < k && !program.fns@[d].synthetic && 0 <= jj < program.fns@[d].body@.len() && #[trigger] reuse_marks(
                        analysis.types@, analysis.folds@, analysis.returns_unique@, analysis.linear_params@, *program, program.fns@[d], stmt_expr(program.fns@[d].body@[jj]), line, col, v) implies has_entry(out@, program.fns@[d].file@, line, col) by {
                        lemma_has_entry_grows(before, out@, program.fns@[d].file@, line, col);
                    }
                    assert forall|q: int, line: usize, col: usize, v: Seq<char>|
                        0 <= q < j + 1 && #[trigger] reuse_marks(analysis.types@, analysis.folds@, analysis.returns_unique@, analysis.linear_params@, *program, *decl, stmt_expr(decl.body@[q]), line, col, v) implies has_entry(out@, decl.file@, line, col) by {
                        if q < j {
                            lemma_has_entry_grows(before, out@, decl.file@, line, col);
                        }
                    }
                    assert forall|i: int| 0 <= i < out@.len() implies reuse_at(*program, #[trigger] out@[i]) by {
                        if i < before.len() && out@[i] == before[i] {
                        } else {
                            assert(reuse_in(*decl, stmt_expr(decl.body@[j as int]), program.types@, out@[i]));
                            assert(decl_builds_at(program.fns@[k as int], program.types@, out@[i].0.1, out@[i].0.2));
                        }
                    }
                }
                j += 1;
            }
        }
        proof {
            assert forall|d: int, j: int, line: usize, col: usize, v: Seq<char>|
                0 <= d < k + 1 && !program.fns@[d].synthetic && 0 <= j < program.fns@[d].body@.len() && #[trigger] reuse_marks(
                analysis.types@, analysis.folds@, analysis.returns_unique@, analysis.linear_params@, *program, program.fns@[d], stmt_expr(program.fns@[d].body@[j]), line, col, v) implies has_entry(out@, program.fns@[d].file@, line, col) by {
                if d == k {
                    assert(program.fns@[d] == *decl);
                }
            }
        }
        k += 1;
    }
    assert(settled(*program, analysis.types@, analysis.folds@, analysis.returns_unique@, analysis.linear_params@));
    assert(reuses_found(*program, analysis.types@, analysis.folds@, analysis.returns_unique@, analysis.linear_params@, out@));
    out
}

} // verus!
