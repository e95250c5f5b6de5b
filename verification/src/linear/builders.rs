//! Where a string is built by joining onto itself, and which parameter holds
//! the builder.
//!
//! `text_build (n - 1) "{s}x"` reads `s` to make the new string and mentions
//! it nowhere else, so by the time the join runs `s` is finished. Asked the
//! way record reuse is asked: every caller hands the parameter over, and
//! every mention of it in the arm is inside this one expression.

use vstd::prelude::*;
use crate::ast::{
    children, for_each_child, lemma_children_smaller, refs, size, stmt_expr, stmt_expr_of, Expr, FnDecl, Pattern,
    Program, Stmt, TemplatePart,
};
use crate::text::same_text;
use super::{add_site, body_uses, lists_site, in_group, settled, holds_text, first_var_param, lemma_first_var_param, has_site, lemma_has_site_grows, hand_over, uses_in, count_in_expr, distinct_sites, has_str, has_triple, is_named, site_view, texts_of, Analysis, Site};
use super::reuse::names_param;

verus! {

/// Whether `e` is a template of more than one piece, written at `line`,
/// `col`, whose first piece interpolates one of `decl`'s parameters.
pub open spec fn is_join_at(e: Expr, decl: FnDecl, line: usize, col: usize) -> bool {
    match e {
        Expr::Str(parts, span) => span.line as usize == line && span.col as usize == col && parts@.len() > 1
            && match parts@[0] {
            TemplatePart::Interp(x) => match *x {
                Expr::Ident(n, _) => exists|i: int| 0 <= i < decl.params@.len() && names_param(#[trigger] decl.params@[i], n@),
                _ => false,
            },
            _ => false,
        },
        _ => false,
    }
}

/// Whether such a template is written in `e` outside any lambda.
pub open spec fn has_join_at(e: Expr, decl: FnDecl, line: usize, col: usize) -> bool
    decreases size(e), 1nat, 0nat,
{
    !(e is Lambda) && (is_join_at(e, decl, line, col) || joins_among(e, decl, line, col, children(e).len()))
}

pub open spec fn joins_among(e: Expr, decl: FnDecl, line: usize, col: usize, n: nat) -> bool
    decreases size(e), 0nat, n,
    via joins_among_decreases
{
    if n == 0 || n > children(e).len() {
        false
    } else {
        joins_among(e, decl, line, col, (n - 1) as nat) || has_join_at(children(e)[n - 1], decl, line, col)
    }
}

#[via_fn]
proof fn joins_among_decreases(e: Expr, decl: FnDecl, line: usize, col: usize, n: nat) {
    lemma_children_smaller(e);
}

proof fn lemma_joins_among(e: Expr, decl: FnDecl, line: usize, col: usize, k: nat, m: nat)
    requires
        k <= m <= children(e).len(),
        joins_among(e, decl, line, col, k),
    ensures
        joins_among(e, decl, line, col, m),
    decreases m - k,
{
    if k < m {
        lemma_joins_among(e, decl, line, col, k, (m - 1) as nat);
    }
}

/// Whether `e` is a call with an argument that is a name written at `line`,
/// `col`.
pub open spec fn is_arg_name_at(e: Expr, line: usize, col: usize) -> bool {
    match e {
        Expr::App { args, .. } => exists|i: int| 0 <= i < args@.len() && name_at(#[trigger] args@[i], line, col),
        _ => false,
    }
}

/// Whether `e` is a name written at `line`, `col`.
pub open spec fn name_at(e: Expr, line: usize, col: usize) -> bool {
    e matches Expr::Ident(_, sp) && sp.line as usize == line && sp.col as usize == col
}

/// Whether such a call is written anywhere in `e`.
pub open spec fn has_arg_name_at(e: Expr, line: usize, col: usize) -> bool
    decreases size(e), 1nat, 0nat,
{
    is_arg_name_at(e, line, col) || arg_names_among(e, line, col, children(e).len())
}

pub open spec fn arg_names_among(e: Expr, line: usize, col: usize, n: nat) -> bool
    decreases size(e), 0nat, n,
    via arg_names_among_decreases
{
    if n == 0 || n > children(e).len() {
        false
    } else {
        arg_names_among(e, line, col, (n - 1) as nat) || has_arg_name_at(children(e)[n - 1], line, col)
    }
}

#[via_fn]
proof fn arg_names_among_decreases(e: Expr, line: usize, col: usize, n: nat) {
    lemma_children_smaller(e);
}

proof fn lemma_arg_names_among(e: Expr, line: usize, col: usize, k: nat, m: nat)
    requires
        k <= m <= children(e).len(),
        arg_names_among(e, line, col, k),
    ensures
        arg_names_among(e, line, col, m),
    decreases m - k,
{
    if k < m {
        lemma_arg_names_among(e, line, col, k, (m - 1) as nat);
    }
}

/// A parameter position of `decl`: its group, its arity, and a plain name's
/// index among its parameters.
pub open spec fn slot_of(decl: FnDecl, t: Site) -> bool {
    &&& t.0@ == decl.name@ && t.1 == decl.params@.len() && t.2 < t.1
    &&& decl.params@[t.2 as int] is Var
}

/// Slots added to `out` since `before` are slots of `decl`.
pub open spec fn slots_added(before: Seq<Site>, out: Seq<Site>, decl: FnDecl) -> bool {
    &&& before.len() <= out.len()
    &&& forall|i: int| 0 <= i < before.len() ==> out[i] == before[i]
    &&& forall|i: int| before.len() <= i < out.len() ==> slot_of(decl, #[trigger] out[i])
}

/// Sites added to `out` since `before` are joins in `e`, in `decl`'s file.
pub open spec fn joins_added(before: Seq<Site>, out: Seq<Site>, decl: FnDecl, e: Expr) -> bool {
    &&& before.len() <= out.len()
    &&& forall|i: int| 0 <= i < before.len() ==> out[i] == before[i]
    &&& forall|i: int| before.len() <= i < out.len() ==> (#[trigger] out[i]).0@ == decl.file@ && has_join_at(e, decl, out[i].1, out[i].2)
}

/// Sites added to `out` since `before` are argument names in `e`, in
/// `decl`'s file.
pub open spec fn args_added(before: Seq<Site>, out: Seq<Site>, decl: FnDecl, e: Expr) -> bool {
    &&& before.len() <= out.len()
    &&& forall|i: int| 0 <= i < before.len() ==> out[i] == before[i]
    &&& forall|i: int| before.len() <= i < out.len() ==> (#[trigger] out[i]).0@ == decl.file@ && has_arg_name_at(e, out[i].1, out[i].2)
}

fn add_slot(out: &mut Vec<Site>, name: &String, arity: usize, i: usize)
    requires
        distinct_sites(old(out)@),
    ensures
        distinct_sites(final(out)@),
        old(out)@.len() <= final(out)@.len() <= old(out)@.len() + 1,
        forall|k: int| 0 <= k < old(out)@.len() ==> final(out)@[k] == old(out)@[k],
        final(out)@.len() > old(out)@.len() ==> site_view(final(out)@.last()) == (name@, arity, i),
        exists|k: int| 0 <= k < final(out)@.len() && site_view(#[trigger] final(out)@[k]) == (name@, arity, i),
{
    if has_triple(out, name.as_str(), arity, i) {
        return;
    }
    out.push((name.clone(), arity, i));
    assert(site_view(out@[out@.len() - 1]) == (name@, arity, i));
    assert(distinct_sites(out@)) by {
        assert forall|a: int, b: int| 0 <= a < b < out@.len() implies site_view(#[trigger] out@[a]) != site_view(#[trigger] out@[b]) by {
            if b == out@.len() - 1 {
                assert(out@[a] == old(out)@[a]);
            } else {
                assert(out@[a] == old(out)@[a] && out@[b] == old(out)@[b]);
            }
        }
    }
}

/// Whether parameter `i` of `decl`, named `name`, holds a builder: `here`
/// holds every mention of it in the arm, and every caller of the group
/// hands it over.
pub open spec fn builder_ok(
    types: Seq<String>,
    folds: Seq<String>,
    rets: Seq<(String, usize)>,
    lin: Seq<Site>,
    program: Program,
    decl: FnDecl,
    name: Seq<char>,
    here: Expr,
    i: int,
) -> bool {
    uses_in(name, here) == body_uses(name, decl.body@, decl.body@.len()) && hand_over(
        types,
        folds,
        rets,
        lin,
        program.fns@,
        decl.name@,
        decl.params@.len() as usize,
        i as usize,
    )
}

/// The parameter index that the template `e` joins onto, when its first
/// piece interpolates a plain-name parameter of `decl` that holds a
/// builder.
pub open spec fn join_builder(
    types: Seq<String>,
    folds: Seq<String>,
    rets: Seq<(String, usize)>,
    lin: Seq<Site>,
    program: Program,
    decl: FnDecl,
    e: Expr,
) -> Option<nat> {
    match e {
        Expr::Str(parts, _) => if parts@.len() > 1 && parts@[0] is Interp && *parts@[0]->Interp_0 is Ident {
            let name = parts@[0]->Interp_0->Ident_0@;
            match first_var_param(decl.params@, name, 0) {
                Some(i) => if builder_ok(types, folds, rets, lin, program, decl, name, e, i as int) {
                    Some(i)
                } else {
                    None
                },
                None => None,
            }
        } else {
            None
        },
        _ => None,
    }
}

/// Whether walking `e` outside any lambda finds a builder join written at
/// `line`, `col`.
pub open spec fn builder_marks(
    types: Seq<String>,
    folds: Seq<String>,
    rets: Seq<(String, usize)>,
    lin: Seq<Site>,
    program: Program,
    decl: FnDecl,
    e: Expr,
    line: usize,
    col: usize,
) -> bool
    decreases size(e), 1nat, 0nat,
{
    !(e is Lambda) && ((join_builder(types, folds, rets, lin, program, decl, e) is Some && e->Str_1.line as usize == line && e->Str_1.col as usize == col)
        || builder_kids(types, folds, rets, lin, program, decl, e, line, col, children(e).len()))
}

pub open spec fn builder_kids(
    types: Seq<String>,
    folds: Seq<String>,
    rets: Seq<(String, usize)>,
    lin: Seq<Site>,
    program: Program,
    decl: FnDecl,
    e: Expr,
    line: usize,
    col: usize,
    n: nat,
) -> bool
    decreases size(e), 0nat, n,
    via builder_kids_decreases
{
    if n == 0 || n > children(e).len() {
        false
    } else {
        builder_kids(types, folds, rets, lin, program, decl, e, line, col, (n - 1) as nat) || builder_marks(types, folds, rets, lin, program, decl, children(e)[n - 1], line, col)
    }
}

#[via_fn]
proof fn builder_kids_decreases(
    types: Seq<String>,
    folds: Seq<String>,
    rets: Seq<(String, usize)>,
    lin: Seq<Site>,
    program: Program,
    decl: FnDecl,
    e: Expr,
    line: usize,
    col: usize,
    n: nat,
) {
    lemma_children_smaller(e);
}

/// Whether walking `e` outside any lambda finds a builder join onto
/// parameter `i`.
pub open spec fn slot_marks(
    types: Seq<String>,
    folds: Seq<String>,
    rets: Seq<(String, usize)>,
    lin: Seq<Site>,
    program: Program,
    decl: FnDecl,
    e: Expr,
    i: nat,
) -> bool
    decreases size(e), 1nat, 0nat,
{
    !(e is Lambda) && (join_builder(types, folds, rets, lin, program, decl, e) == Some(i) || slot_kids(types, folds, rets, lin, program, decl, e, i, children(e).len()))
}

pub open spec fn slot_kids(
    types: Seq<String>,
    folds: Seq<String>,
    rets: Seq<(String, usize)>,
    lin: Seq<Site>,
    program: Program,
    decl: FnDecl,
    e: Expr,
    i: nat,
    n: nat,
) -> bool
    decreases size(e), 0nat, n,
    via slot_kids_decreases
{
    if n == 0 || n > children(e).len() {
        false
    } else {
        slot_kids(types, folds, rets, lin, program, decl, e, i, (n - 1) as nat) || slot_marks(types, folds, rets, lin, program, decl, children(e)[n - 1], i)
    }
}

#[via_fn]
proof fn slot_kids_decreases(
    types: Seq<String>,
    folds: Seq<String>,
    rets: Seq<(String, usize)>,
    lin: Seq<Site>,
    program: Program,
    decl: FnDecl,
    e: Expr,
    i: nat,
    n: nat,
) {
    lemma_children_smaller(e);
}

proof fn lemma_builder_kids(
    types: Seq<String>,
    folds: Seq<String>,
    rets: Seq<(String, usize)>,
    lin: Seq<Site>,
    program: Program,
    decl: FnDecl,
    e: Expr,
    line: usize,
    col: usize,
    k: nat,
    m: nat,
)
    requires
        k <= m <= children(e).len(),
        builder_kids(types, folds, rets, lin, program, decl, e, line, col, k),
    ensures
        builder_kids(types, folds, rets, lin, program, decl, e, line, col, m),
    decreases m - k,
{
    if k < m {
        lemma_builder_kids(types, folds, rets, lin, program, decl, e, line, col, k, (m - 1) as nat);
    }
}

proof fn lemma_slot_kids(
    types: Seq<String>,
    folds: Seq<String>,
    rets: Seq<(String, usize)>,
    lin: Seq<Site>,
    program: Program,
    decl: FnDecl,
    e: Expr,
    i: nat,
    k: nat,
    m: nat,
)
    requires
        k <= m <= children(e).len(),
        slot_kids(types, folds, rets, lin, program, decl, e, i, k),
    ensures
        slot_kids(types, folds, rets, lin, program, decl, e, i, m),
    decreases m - k,
{
    if k < m {
        lemma_slot_kids(types, folds, rets, lin, program, decl, e, i, k, (m - 1) as nat);
    }
}

/// The joins and slots added since `before_sites` and `before_accs` are
/// those walking `e` finds, and every one it finds is listed.
pub open spec fn builders_walked(
    types: Seq<String>,
    folds: Seq<String>,
    rets: Seq<(String, usize)>,
    lin: Seq<Site>,
    program: Program,
    decl: FnDecl,
    e: Expr,
    before_sites: Seq<Site>,
    sites: Seq<Site>,
    before_accs: Seq<Site>,
    accs: Seq<Site>,
) -> bool {
    &&& forall|q: int| before_sites.len() <= q < sites.len() ==> builder_marks(types, folds, rets, lin, program, decl, e, (#[trigger] sites[q]).1, sites[q].2)
    &&& forall|line: usize, col: usize| #[trigger] builder_marks(types, folds, rets, lin, program, decl, e, line, col) ==> has_site(sites, decl.file@, line, col)
    &&& forall|q: int| before_accs.len() <= q < accs.len() ==> slot_marks(types, folds, rets, lin, program, decl, e, (#[trigger] accs[q]).2 as nat)
    &&& forall|i: nat| #[trigger] slot_marks(types, folds, rets, lin, program, decl, e, i) ==> i <= usize::MAX && has_site(accs, decl.name@, decl.params@.len() as usize, i as usize)
}

impl<'a> Analysis<'a> {
    /// The parameter index of `name`, when every caller hands it over and
    /// `here` holds every mention of it in the arm.
    fn builder_param(&self, decl: &FnDecl, name: &str, here: &Expr) -> (r: Option<usize>)
        ensures
            r matches Some(i) ==> i < decl.params@.len() && names_param(decl.params@[i as int], name@),
            r == (match first_var_param(decl.params@, name@, 0) {
                Some(i) => if builder_ok(self.types@, self.folds@, self.returns_unique@, self.linear_params@, *self.program, *decl, name@, *here, i as int) {
                    Some(i as usize)
                } else {
                    None
                },
                None => None,
            }),
    {
        let arity = decl.params.len();
        let mut i: usize = 0;
        while i < arity
            invariant
                i <= arity == decl.params@.len(),
                first_var_param(decl.params@, name@, 0) == first_var_param(decl.params@, name@, i as int),
            decreases arity - i,
        {
            if let Pattern::Var(n, _) = &decl.params[i] {
                if same_text(n.as_str(), name) {
                    assert(names_param(decl.params@[i as int], name@));
                    return self.builder_at(decl, name, here, i);
                }
            }
            i += 1;
        }
        None
    }

    /// `i`, when every caller hands that parameter over and `here` holds
    /// every mention of `name` in the arm.
    fn builder_at(&self, decl: &FnDecl, name: &str, here: &Expr, i: usize) -> (r: Option<usize>)
        requires
            i < decl.params@.len(),
            names_param(decl.params@[i as int], name@),
        ensures
            r matches Some(j) ==> j == i,
            r is Some <==> builder_ok(self.types@, self.folds@, self.returns_unique@, self.linear_params@, *self.program, *decl, name@, *here, i as int),
    {
        let inside = count_in_expr(name, here);
        let mut everywhere: usize = 0;
        let mut k: usize = 0;
        while k < decl.body.len()
            invariant
                k <= decl.body@.len(),
                everywhere == body_uses(name@, decl.body@, k as nat),
            decreases decl.body@.len() - k,
        {
            everywhere = everywhere.saturating_add(count_in_expr(name, stmt_expr_of(&decl.body[k])));
            k += 1;
        }
        if inside == everywhere && self.callers_hand_over(decl.name.as_str(), decl.params.len(), i) {
            Some(i)
        } else {
            None
        }
    }

    fn walk_for_builder(&self, decl: &FnDecl, e: &Expr, sites: &mut Vec<Site>, accs: &mut Vec<Site>)
        requires
            distinct_sites(old(sites)@),
            distinct_sites(old(accs)@),
        ensures
            distinct_sites(final(sites)@),
            distinct_sites(final(accs)@),
            joins_added(old(sites)@, final(sites)@, *decl, *e),
            slots_added(old(accs)@, final(accs)@, *decl),
            builders_walked(self.types@, self.folds@, self.returns_unique@, self.linear_params@, *self.program, *decl, *e, old(sites)@, final(sites)@, old(accs)@, final(accs)@),
        decreases size(*e),
    {
        if let Expr::Lambda { .. } = e {
            return;
        }
        if let Expr::Str(parts, span) = e {
            if parts.len() > 1 {
                if let TemplatePart::Interp(x) = &parts[0] {
                    if let Expr::Ident(name, _) = &**x {
                        proof {
                            lemma_first_var_param(decl.params@, name@, 0);
                        }
                        assert(e->Str_0@[0] is Interp && *e->Str_0@[0]->Interp_0 == **x);
                        assert(e->Str_0@[0]->Interp_0->Ident_0@ == name@);
                        let ghost fv = first_var_param(decl.params@, name@, 0);
                        let pl = decl.params.len();
                        if let Some(i) = self.builder_param(decl, name.as_str(), e) {
                            assert(fv == Some(i as nat));
                            assert(builder_ok(self.types@, self.folds@, self.returns_unique@, self.linear_params@, *self.program, *decl, name@, *e, i as int));
                            assert(join_builder(self.types@, self.folds@, self.returns_unique@, self.linear_params@, *self.program, *decl, *e) == Some(i as nat));
                            let ghost before = sites@;
                            add_site(sites, &decl.file, span.line as usize, span.col as usize);
                            assert(is_join_at(*e, *decl, span.line as usize, span.col as usize));
                            assert(joins_added(before, sites@, *decl, *e));
                            let ghost before_accs = accs@;
                            add_slot(accs, &decl.name, decl.params.len(), i);
                            assert(slots_added(before_accs, accs@, *decl));
                        }
                    }
                }
            }
        }
        let ghost hs = sites@;
        let ghost ha = accs@;
        proof {
            if join_builder(self.types@, self.folds@, self.returns_unique@, self.linear_params@, *self.program, *decl, *e) is Some {
                lemma_first_var_param(decl.params@, e->Str_0@[0]->Interp_0->Ident_0@, 0);
            }
        }
        assert(forall|q: int| old(sites)@.len() <= q < hs.len() ==> builder_marks(self.types@, self.folds@, self.returns_unique@, self.linear_params@, *self.program, *decl, *e, (#[trigger] hs[q]).1, hs[q].2));
        assert(forall|l: usize, c: usize| (join_builder(self.types@, self.folds@, self.returns_unique@, self.linear_params@, *self.program, *decl, *e) is Some && e->Str_1.line as usize == l && e->Str_1.col as usize == c) ==> has_site(hs, decl.file@, l, c));
        assert(forall|q: int| old(accs)@.len() <= q < ha.len() ==> slot_marks(self.types@, self.folds@, self.returns_unique@, self.linear_params@, *self.program, *decl, *e, (#[trigger] ha[q]).2 as nat));
        assert(forall|i: nat| join_builder(self.types@, self.folds@, self.returns_unique@, self.linear_params@, *self.program, *decl, *e) == Some(i) ==> i <= usize::MAX && has_site(ha, decl.name@, decl.params@.len() as usize, i as usize));
        proof {
            lemma_children_smaller(*e);
        }
        let kids = for_each_child(e);
        let mut k: usize = 0;
        while k < kids.len()
            invariant
                k <= kids@.len(),
                !(*e is Lambda),
                refs(kids@) == children(*e),
                forall|j: int| 0 <= j < children(*e).len() ==> size(#[trigger] children(*e)[j]) < size(*e),
                distinct_sites(sites@),
                distinct_sites(accs@),
                joins_added(old(sites)@, sites@, *decl, *e),
                slots_added(old(accs)@, accs@, *decl),
                hs.len() <= sites@.len(),
                forall|q: int| 0 <= q < hs.len() ==> sites@[q] == hs[q],
                ha.len() <= accs@.len(),
                forall|q: int| 0 <= q < ha.len() ==> accs@[q] == ha[q],
                forall|q: int| old(sites)@.len() <= q < sites@.len() ==> builder_marks(self.types@, self.folds@, self.returns_unique@, self.linear_params@, *self.program, *decl, *e, (#[trigger] sites@[q]).1, sites@[q].2),
                forall|q: int| old(accs)@.len() <= q < accs@.len() ==> slot_marks(self.types@, self.folds@, self.returns_unique@, self.linear_params@, *self.program, *decl, *e, (#[trigger] accs@[q]).2 as nat),
                forall|l: usize, c: usize| (join_builder(self.types@, self.folds@, self.returns_unique@, self.linear_params@, *self.program, *decl, *e) is Some && e->Str_1.line as usize == l && e->Str_1.col as usize == c) ==> has_site(hs, decl.file@, l, c),
                forall|i: nat| join_builder(self.types@, self.folds@, self.returns_unique@, self.linear_params@, *self.program, *decl, *e) == Some(i) ==> i <= usize::MAX && has_site(ha, decl.name@, decl.params@.len() as usize, i as usize),
                forall|l: usize, c: usize| #[trigger] builder_kids(self.types@, self.folds@, self.returns_unique@, self.linear_params@, *self.program, *decl, *e, l, c, k as nat) ==> has_site(sites@, decl.file@, l, c),
                forall|i: nat| #[trigger] slot_kids(self.types@, self.folds@, self.returns_unique@, self.linear_params@, *self.program, *decl, *e, i, k as nat) ==> i <= usize::MAX && has_site(accs@, decl.name@, decl.params@.len() as usize, i as usize),
            decreases kids@.len() - k,
        {
            assert(refs(kids@)[k as int] == *kids@[k as int]);
            assert(children(*e)[k as int] == *kids@[k as int]);
            let ghost before = sites@;
            let ghost before_accs = accs@;
            self.walk_for_builder(decl, kids[k], sites, accs);
            proof {
                assert forall|i: int| before.len() <= i < sites@.len() implies has_join_at(*e, *decl, (#[trigger] sites@[i]).1, sites@[i].2) by {
                    assert(joins_among(*e, *decl, sites@[i].1, sites@[i].2, (k + 1) as nat));
                    lemma_joins_among(*e, *decl, sites@[i].1, sites@[i].2, (k + 1) as nat, children(*e).len());
                }
                assert forall|q: int| old(sites)@.len() <= q < sites@.len() implies builder_marks(self.types@, self.folds@, self.returns_unique@, self.linear_params@, *self.program, *decl, *e, (#[trigger] sites@[q]).1, sites@[q].2) by {
                    if q < before.len() {
                        assert(sites@[q] == before[q]);
                    } else {
                        assert(builder_kids(self.types@, self.folds@, self.returns_unique@, self.linear_params@, *self.program, *decl, *e, sites@[q].1, sites@[q].2, (k + 1) as nat));
                        lemma_builder_kids(self.types@, self.folds@, self.returns_unique@, self.linear_params@, *self.program, *decl, *e, sites@[q].1, sites@[q].2, (k + 1) as nat, children(*e).len());
                    }
                }
                assert forall|q: int| old(accs)@.len() <= q < accs@.len() implies slot_marks(self.types@, self.folds@, self.returns_unique@, self.linear_params@, *self.program, *decl, *e, (#[trigger] accs@[q]).2 as nat) by {
                    if q < before_accs.len() {
                        assert(accs@[q] == before_accs[q]);
                    } else {
                        assert(slot_kids(self.types@, self.folds@, self.returns_unique@, self.linear_params@, *self.program, *decl, *e, accs@[q].2 as nat, (k + 1) as nat));
                        lemma_slot_kids(self.types@, self.folds@, self.returns_unique@, self.linear_params@, *self.program, *decl, *e, accs@[q].2 as nat, (k + 1) as nat, children(*e).len());
                    }
                }
                assert forall|q: int| 0 <= q < hs.len() implies sites@[q] == hs[q] by {
                    assert(sites@[q] == before[q]);
                }
                assert forall|q: int| 0 <= q < ha.len() implies accs@[q] == ha[q] by {
                    assert(accs@[q] == before_accs[q]);
                }
            }
            let ghost kk = k;
            k += 1;
            proof {
                let c = children(*e)[kk as int];
                assert(c == *kids@[kk as int]);
                assert forall|l: usize, cc: usize| #[trigger] builder_kids(self.types@, self.folds@, self.returns_unique@, self.linear_params@, *self.program, *decl, *e, l, cc, k as nat) implies has_site(sites@, decl.file@, l, cc) by {
                    assert(k as nat == (kk + 1) as nat);
                    if builder_kids(self.types@, self.folds@, self.returns_unique@, self.linear_params@, *self.program, *decl, *e, l, cc, kk as nat) {
                        lemma_has_site_grows(before, sites@, decl.file@, l, cc);
                    } else {
                        assert(builder_marks(self.types@, self.folds@, self.returns_unique@, self.linear_params@, *self.program, *decl, c, l, cc));
                    }
                }
                assert forall|i: nat| #[trigger] slot_kids(self.types@, self.folds@, self.returns_unique@, self.linear_params@, *self.program, *decl, *e, i, k as nat) implies i <= usize::MAX && has_site(accs@, decl.name@, decl.params@.len() as usize, i as usize) by {
                    assert(k as nat == (kk + 1) as nat);
                    if slot_kids(self.types@, self.folds@, self.returns_unique@, self.linear_params@, *self.program, *decl, *e, i, kk as nat) {
                        lemma_has_site_grows(before_accs, accs@, decl.name@, decl.params@.len() as usize, i as usize);
                    } else {
                        assert(slot_marks(self.types@, self.folds@, self.returns_unique@, self.linear_params@, *self.program, *decl, c, i));
                    }
                }
            }
        }
        proof {
            assert forall|l: usize, cc: usize| #[trigger] builder_marks(self.types@, self.folds@, self.returns_unique@, self.linear_params@, *self.program, *decl, *e, l, cc) implies has_site(sites@, decl.file@, l, cc) by {
                if join_builder(self.types@, self.folds@, self.returns_unique@, self.linear_params@, *self.program, *decl, *e) is Some && e->Str_1.line as usize == l && e->Str_1.col as usize == cc {
                    lemma_has_site_grows(hs, sites@, decl.file@, l, cc);
                } else {
                    assert(builder_kids(self.types@, self.folds@, self.returns_unique@, self.linear_params@, *self.program, *decl, *e, l, cc, kids@.len() as nat));
                }
            }
            assert forall|i: nat| #[trigger] slot_marks(self.types@, self.folds@, self.returns_unique@, self.linear_params@, *self.program, *decl, *e, i) implies i <= usize::MAX && has_site(accs@, decl.name@, decl.params@.len() as usize, i as usize) by {
                if join_builder(self.types@, self.folds@, self.returns_unique@, self.linear_params@, *self.program, *decl, *e) == Some(i) {
                    lemma_has_site_grows(ha, accs@, decl.name@, decl.params@.len() as usize, i as usize);
                } else {
                    assert(slot_kids(self.types@, self.folds@, self.returns_unique@, self.linear_params@, *self.program, *decl, *e, i, kids@.len() as nat));
                }
            }
        }
    }
}

/// Whether `e` is a call of `name` with `arity` arguments.
pub open spec fn is_call_of(e: Expr, name: Seq<char>, arity: usize) -> bool {
    e is App && *e->App_head is Ident && e->App_head->Ident_0@ == name && e->App_args@.len() == arity
}

/// Whether such a call is written anywhere in `e`.
pub open spec fn calls_in(e: Expr, name: Seq<char>, arity: usize) -> bool
    decreases size(e), 1nat, 0nat,
{
    is_call_of(e, name, arity) || calls_among(e, name, arity, children(e).len())
}

pub open spec fn calls_among(e: Expr, name: Seq<char>, arity: usize, n: nat) -> bool
    decreases size(e), 0nat, n,
    via calls_among_decreases
{
    if n == 0 || n > children(e).len() {
        false
    } else {
        calls_among(e, name, arity, (n - 1) as nat) || calls_in(children(e)[n - 1], name, arity)
    }
}

#[via_fn]
proof fn calls_among_decreases(e: Expr, name: Seq<char>, arity: usize, n: nat) {
    lemma_children_smaller(e);
}

proof fn lemma_calls_among(e: Expr, name: Seq<char>, arity: usize, k: nat, m: nat)
    requires
        k <= m <= children(e).len(),
        calls_among(e, name, arity, k),
    ensures
        calls_among(e, name, arity, m),
    decreases m - k,
{
    if k < m {
        lemma_calls_among(e, name, arity, k, (m - 1) as nat);
    }
}

/// Whether some statement of some arm of `fns` calls `name` with `arity`
/// arguments.
pub open spec fn called_in(fns: Seq<FnDecl>, name: Seq<char>, arity: usize) -> bool {
    exists|d: int, j: int| 0 <= d < fns.len() && 0 <= j < fns[d].body@.len() && calls_in(#[trigger] stmt_expr(fns[d].body@[j]), name, arity)
}

/// Whether `e` is a call of a named function that passes `name` itself at a
/// carrying position.
pub open spec fn is_hand_into(carrying: Seq<Site>, e: Expr, name: Seq<char>) -> bool {
    match e {
        Expr::App { head, args, .. } => match *head {
            Expr::Ident(callee, _) => exists|i: int| 0 <= i < args@.len() && (#[trigger] args@[i]) is Ident
                && args@[i]->Ident_0@ == name && lists_site(carrying, callee@, args@.len() as int, i),
            _ => false,
        },
        _ => false,
    }
}

/// Whether such a call is written anywhere in `e`.
pub open spec fn hands_in(carrying: Seq<Site>, e: Expr, name: Seq<char>) -> bool
    decreases size(e), 1nat, 0nat,
{
    is_hand_into(carrying, e, name) || hands_among(carrying, e, name, children(e).len())
}

pub open spec fn hands_among(carrying: Seq<Site>, e: Expr, name: Seq<char>, n: nat) -> bool
    decreases size(e), 0nat, n,
    via hands_among_decreases
{
    if n == 0 || n > children(e).len() {
        false
    } else {
        hands_among(carrying, e, name, (n - 1) as nat) || hands_in(carrying, children(e)[n - 1], name)
    }
}

#[via_fn]
proof fn hands_among_decreases(carrying: Seq<Site>, e: Expr, name: Seq<char>, n: nat) {
    lemma_children_smaller(e);
}

proof fn lemma_hands_among(carrying: Seq<Site>, e: Expr, name: Seq<char>, k: nat, m: nat)
    requires
        k <= m <= children(e).len(),
        hands_among(carrying, e, name, k),
    ensures
        hands_among(carrying, e, name, m),
    decreases m - k,
{
    if k < m {
        lemma_hands_among(carrying, e, name, k, (m - 1) as nat);
    }
}

/// The names the first `n` statements of `decl` bind to a template written
/// at a join of `joins` in `decl`'s file, in order.
pub open spec fn joined_locals(joins: Seq<Site>, decl: FnDecl, n: nat) -> Seq<Seq<char>>
    decreases n,
{
    if n == 0 || n > decl.body@.len() {
        Seq::empty()
    } else {
        joined_locals(joins, decl, (n - 1) as nat) + match decl.body@[n - 1] {
            Stmt::Bind { pattern: Pattern::Var(name, _), expr: Expr::Str(_, span) } => if lists_site(
                joins,
                decl.file@,
                (span.line as usize) as int,
                (span.col as usize) as int,
            ) {
                seq![name@]
            } else {
                Seq::empty()
            },
            _ => Seq::empty(),
        }
    }
}

/// Whether some statement of some arm calls `name` with `arity` arguments.
fn calls_group(e: &Expr, name: &str, arity: usize) -> (r: bool)
    ensures
        r == calls_in(*e, name@, arity),
    decreases size(*e),
{
    if let Expr::App { head, args, .. } = e {
        if is_named(head, name) && args.len() == arity {
            return true;
        }
    }
    assert(!is_call_of(*e, name@, arity));
    proof {
        lemma_children_smaller(*e);
    }
    let kids = for_each_child(e);
    let mut k: usize = 0;
    while k < kids.len()
        invariant
            k <= kids@.len(),
            refs(kids@) == children(*e),
            forall|j: int| 0 <= j < children(*e).len() ==> size(#[trigger] children(*e)[j]) < size(*e),
            !is_call_of(*e, name@, arity),
            !calls_among(*e, name@, arity, k as nat),
        decreases kids@.len() - k,
    {
        assert(refs(kids@)[k as int] == *kids@[k as int]);
        if calls_group(kids[k], name, arity) {
            proof {
                lemma_calls_among(*e, name@, arity, (k + 1) as nat, children(*e).len());
            }
            return true;
        }
        k += 1;
    }
    false
}

/// Does any call site in the program name this group?
fn called_somewhere(program: &Program, name: &str, arity: usize) -> (r: bool)
    ensures
        r == called_in(program.fns@, name@, arity),
{
    let mut k: usize = 0;
    while k < program.fns.len()
        invariant
            k <= program.fns@.len(),
            forall|d: int, j: int| 0 <= d < k && 0 <= j < program.fns@[d].body@.len() ==> !calls_in(#[trigger] stmt_expr(program.fns@[d].body@[j]), name@, arity),
        decreases program.fns@.len() - k,
    {
        let d = &program.fns[k];
        let mut j: usize = 0;
        while j < d.body.len()
            invariant
                j <= d.body@.len(),
                k < program.fns@.len(),
                *d == program.fns@[k as int],
                forall|d: int, j: int| 0 <= d < k && 0 <= j < program.fns@[d].body@.len() ==> !calls_in(#[trigger] stmt_expr(program.fns@[d].body@[j]), name@, arity),
                forall|q: int| 0 <= q < j ==> !calls_in(#[trigger] stmt_expr(d.body@[q]), name@, arity),
            decreases d.body@.len() - j,
        {
            if calls_group(stmt_expr_of(&d.body[j]), name, arity) {
                assert(calls_in(stmt_expr(program.fns@[k as int].body@[j as int]), name@, arity));
                return true;
            }
            j += 1;
        }
        k += 1;
    }
    false
}

/// Does `e` hand `name`, as an argument, into a carrying position?
fn hands_into(carrying: &Vec<Site>, e: &Expr, name: &str) -> (r: bool)
    ensures
        r == hands_in(carrying@, *e, name@),
    decreases size(*e),
{
    if let Expr::App { head, args, .. } = e {
        if let Expr::Ident(callee, _) = &**head {
            let mut i: usize = 0;
            while i < args.len()
                invariant
                    i <= args@.len(),
                    *e is App && e->App_args == *args && e->App_head == *head,
                    **head is Ident && head->Ident_0 == *callee,
                    forall|q: int| 0 <= q < i ==> !((#[trigger] args@[q]) is Ident && args@[q]->Ident_0@ == name@
                        && lists_site(carrying@, callee@, args@.len() as int, q)),
                decreases args@.len() - i,
            {
                if is_named(&args[i], name) && has_triple(carrying, callee.as_str(), args.len(), i) {
                    assert(lists_site(carrying@, callee@, args@.len() as int, i as int));
                    assert(args@[i as int] is Ident && args@[i as int]->Ident_0@ == name@);
                    assert(is_hand_into(carrying@, *e, name@));
                    return true;
                }
                i += 1;
            }
        }
    }
    assert(!is_hand_into(carrying@, *e, name@));
    proof {
        lemma_children_smaller(*e);
    }
    let kids = for_each_child(e);
    let mut k: usize = 0;
    while k < kids.len()
        invariant
            k <= kids@.len(),
            refs(kids@) == children(*e),
            forall|j: int| 0 <= j < children(*e).len() ==> size(#[trigger] children(*e)[j]) < size(*e),
            !is_hand_into(carrying@, *e, name@),
            !hands_among(carrying@, *e, name@, k as nat),
        decreases kids@.len() - k,
    {
        assert(refs(kids@)[k as int] == *kids@[k as int]);
        if hands_into(carrying, kids[k], name) {
            proof {
                lemma_hands_among(carrying@, *e, name@, (k + 1) as nat, children(*e).len());
            }
            return true;
        }
        k += 1;
    }
    false
}

/// Does this arm hand `name` on into a carrying position, and mention it
/// nowhere else?
fn forwards_into(carrying: &Vec<Site>, decl: &FnDecl, name: &str) -> (r: bool)
    ensures
        r == ((exists|k: int| 0 <= k < decl.body@.len() && hands_in(carrying@, #[trigger] stmt_expr(decl.body@[k]), name@))
            && body_uses(name@, decl.body@, decl.body@.len()) == 1),
{
    let mut everywhere: usize = 0;
    let mut found = false;
    let mut k: usize = 0;
    while k < decl.body.len()
        invariant
            k <= decl.body@.len(),
            everywhere == body_uses(name@, decl.body@, k as nat),
            found == exists|q: int| 0 <= q < k && hands_in(carrying@, #[trigger] stmt_expr(decl.body@[q]), name@),
        decreases decl.body@.len() - k,
    {
        let e = stmt_expr_of(&decl.body[k]);
        everywhere = everywhere.saturating_add(count_in_expr(name, e));
        if hands_into(carrying, e, name) {
            found = true;
        }
        assert(found == exists|q: int| 0 <= q < k + 1 && hands_in(carrying@, #[trigger] stmt_expr(decl.body@[q]), name@)) by {
            if exists|q: int| 0 <= q < k + 1 && hands_in(carrying@, #[trigger] stmt_expr(decl.body@[q]), name@) {
                let q = choose|q: int| 0 <= q < k + 1 && hands_in(carrying@, #[trigger] stmt_expr(decl.body@[q]), name@);
                if q < k {
                    assert(exists|q2: int| 0 <= q2 < k && hands_in(carrying@, #[trigger] stmt_expr(decl.body@[q2]), name@));
                }
            }
        }
        k += 1;
    }
    found && everywhere == 1
}

/// Names this arm binds to a join made right here.
fn built_locals(joins: &Vec<Site>, decl: &FnDecl) -> (r: Vec<String>)
    ensures
        texts_of(r@) == joined_locals(joins@, *decl, decl.body@.len()),
{
    let mut out: Vec<String> = Vec::new();
    let mut k: usize = 0;
    assert(texts_of(out@) =~= joined_locals(joins@, *decl, 0));
    while k < decl.body.len()
        invariant
            k <= decl.body@.len(),
            texts_of(out@) == joined_locals(joins@, *decl, k as nat),
        decreases decl.body@.len() - k,
    {
        let ghost o = out@;
        if let Stmt::Bind { pattern: Pattern::Var(name, _), expr: Expr::Str(_, span) } = &decl.body[k] {
            if has_triple(joins, decl.file.as_str(), span.line as usize, span.col as usize) {
                out.push(name.clone());
            }
        }
        assert(texts_of(out@) =~= joined_locals(joins@, *decl, (k + 1) as nat));
        k += 1;
    }
    out
}

/// Whether `n` is a plain-name parameter of `decl` whose slot carries.
fn param_carries(carrying: &Vec<Site>, decl: &FnDecl, n: &str) -> (r: bool)
    ensures
        r == exists|j: int| 0 <= j < decl.params@.len() && (#[trigger] decl.params@[j]) is Var
            && decl.params@[j]->Var_0@ == n@ && lists_site(carrying@, decl.name@, decl.params@.len() as int, j),
{
    let mut j: usize = 0;
    while j < decl.params.len()
        invariant
            j <= decl.params@.len(),
            forall|q: int| 0 <= q < j ==> !((#[trigger] decl.params@[q]) is Var && decl.params@[q]->Var_0@ == n@
                && lists_site(carrying@, decl.name@, decl.params@.len() as int, q)),
        decreases decl.params@.len() - j,
    {
        if let Pattern::Var(p, _) = &decl.params[j] {
            if same_text(p.as_str(), n) && has_triple(carrying, decl.name.as_str(), decl.params.len(), j) {
                return true;
            }
        }
        j += 1;
    }
    false
}

proof fn lemma_texts_of_holds(v: Seq<String>, x: Seq<char>)
    ensures
        holds_text(v, x) == texts_of(v).contains(x),
{
    if holds_text(v, x) {
        let i = choose|i: int| 0 <= i < v.len() && (#[trigger] v[i])@ == x;
        assert(texts_of(v)[i] == x);
    }
    if texts_of(v).contains(x) {
        let i = choose|i: int| 0 <= i < texts_of(v).len() && texts_of(v)[i] == x;
        assert(v[i]@ == x);
    }
}

/// Whether `n` is a plain-name parameter of `decl` whose slot carries.
pub open spec fn carries_param(carrying: Seq<Site>, decl: FnDecl, n: Seq<char>) -> bool {
    exists|j: int| 0 <= j < decl.params@.len() && (#[trigger] decl.params@[j]) is Var && decl.params@[j]->Var_0@ == n
        && lists_site(carrying, decl.name@, decl.params@.len() as int, j)
}

/// Whether the argument `a` of a call of `callee` with `len` arguments, at
/// position `i`, already carries the builder and is written at `line`,
/// `col`: a carrying position, and a name that holds a builder made here
/// or one this arm carries.
pub open spec fn carried_arg(
    carrying: Seq<Site>,
    built: Seq<Seq<char>>,
    decl: FnDecl,
    callee: Seq<char>,
    len: int,
    i: int,
    a: Expr,
    line: usize,
    col: usize,
) -> bool {
    lists_site(carrying, callee, len, i) && match a {
        Expr::Ident(n, span) => span.line as usize == line && span.col as usize == col && (built.contains(n@)
            || carries_param(carrying, decl, n@)),
        _ => false,
    }
}

/// Whether `e` is a call of a named function with such an argument.
pub open spec fn carried_here(carrying: Seq<Site>, built: Seq<Seq<char>>, decl: FnDecl, e: Expr, line: usize, col: usize) -> bool {
    match e {
        Expr::App { head, args, .. } => match *head {
            Expr::Ident(callee, _) => exists|i: int| 0 <= i < args@.len() && carried_arg(
                carrying,
                built,
                decl,
                callee@,
                args@.len() as int,
                i,
                #[trigger] args@[i],
                line,
                col,
            ),
            _ => false,
        },
        _ => false,
    }
}

/// Whether such a call is written anywhere in `e`.
pub open spec fn carried_marks(carrying: Seq<Site>, built: Seq<Seq<char>>, decl: FnDecl, e: Expr, line: usize, col: usize) -> bool
    decreases size(e), 1nat, 0nat,
{
    carried_here(carrying, built, decl, e, line, col) || carried_kids(carrying, built, decl, e, line, col, children(e).len())
}

pub open spec fn carried_kids(carrying: Seq<Site>, built: Seq<Seq<char>>, decl: FnDecl, e: Expr, line: usize, col: usize, n: nat) -> bool
    decreases size(e), 0nat, n,
    via carried_kids_decreases
{
    if n == 0 || n > children(e).len() {
        false
    } else {
        carried_kids(carrying, built, decl, e, line, col, (n - 1) as nat) || carried_marks(
            carrying,
            built,
            decl,
            children(e)[n - 1],
            line,
            col,
        )
    }
}

#[via_fn]
proof fn carried_kids_decreases(carrying: Seq<Site>, built: Seq<Seq<char>>, decl: FnDecl, e: Expr, line: usize, col: usize, n: nat) {
    lemma_children_smaller(e);
}

proof fn lemma_carried_kids(carrying: Seq<Site>, built: Seq<Seq<char>>, decl: FnDecl, e: Expr, line: usize, col: usize, k: nat, m: nat)
    requires
        k <= m <= children(e).len(),
        carried_kids(carrying, built, decl, e, line, col, k),
    ensures
        carried_kids(carrying, built, decl, e, line, col, m),
    decreases m - k,
{
    if k < m {
        lemma_carried_kids(carrying, built, decl, e, line, col, k, (m - 1) as nat);
    }
}

/// The call arguments in `e` that already carry the builder: a name in a
/// carrying position that holds a builder made here or one this arm carries.
fn collect_carried(carrying: &Vec<Site>, built: &Vec<String>, decl: &FnDecl, e: &Expr, out: &mut Vec<Site>)
    requires
        distinct_sites(old(out)@),
    ensures
        distinct_sites(final(out)@),
        args_added(old(out)@, final(out)@, *decl, *e),
        forall|q: int| old(out)@.len() <= q < final(out)@.len() ==> carried_marks(carrying@, texts_of(built@), *decl, *e, (#[trigger] final(out)@[q]).1, final(out)@[q].2),
        forall|line: usize, col: usize| #[trigger] carried_marks(carrying@, texts_of(built@), *decl, *e, line, col) ==> has_site(final(out)@, decl.file@, line, col),
    decreases size(*e),
{
    if let Expr::App { head, args, .. } = e {
        if let Expr::Ident(callee, _) = &**head {
            let mut i: usize = 0;
            while i < args.len()
                invariant
                    i <= args@.len(),
                    *e matches Expr::App { args: a, .. } && a == *args,
                    *e is App && e->App_head == *head && **head is Ident && head->Ident_0 == *callee,
                    distinct_sites(out@),
                    args_added(old(out)@, out@, *decl, *e),
                    forall|q: int| old(out)@.len() <= q < out@.len() ==> carried_here(carrying@, texts_of(built@), *decl, *e, (#[trigger] out@[q]).1, out@[q].2),
                    forall|q: int, line: usize, col: usize| 0 <= q < i && #[trigger] carried_arg(carrying@, texts_of(built@), *decl, callee@, args@.len() as int, q, args@[q], line, col) ==> has_site(out@, decl.file@, line, col),
                decreases args@.len() - i,
            {
                let ghost before = out@;
                if has_triple(carrying, callee.as_str(), args.len(), i) {
                    if let Expr::Ident(n, span) = &args[i] {
                        proof {
                            lemma_texts_of_holds(built@, n@);
                        }
                        if has_str(built, n.as_str()) || param_carries(carrying, decl, n.as_str()) {
                            add_site(out, &decl.file, span.line as usize, span.col as usize);
                            assert(name_at(args@[i as int], span.line as usize, span.col as usize));
                            assert(is_arg_name_at(*e, span.line as usize, span.col as usize));
                            assert(carried_arg(carrying@, texts_of(built@), *decl, callee@, args@.len() as int, i as int, args@[i as int], span.line as usize, span.col as usize));
                        }
                    }
                }
                proof {
                    assert forall|q: int| old(out)@.len() <= q < out@.len() implies carried_here(carrying@, texts_of(built@), *decl, *e, (#[trigger] out@[q]).1, out@[q].2) by {
                        if q < before.len() {
                            assert(out@[q] == before[q]);
                        }
                    }
                    assert forall|q: int, line: usize, col: usize| 0 <= q < i + 1 && #[trigger] carried_arg(carrying@, texts_of(built@), *decl, callee@, args@.len() as int, q, args@[q], line, col) implies has_site(out@, decl.file@, line, col) by {
                        if q < i {
                            lemma_has_site_grows(before, out@, decl.file@, line, col);
                        }
                    }
                }
                i += 1;
            }
        }
    }
    let ghost here = out@;
    assert(forall|q: int| old(out)@.len() <= q < here.len() ==> carried_marks(carrying@, texts_of(built@), *decl, *e, (#[trigger] here[q]).1, here[q].2));
    assert(forall|line: usize, col: usize| #[trigger] carried_here(carrying@, texts_of(built@), *decl, *e, line, col) ==> has_site(here, decl.file@, line, col));
    proof {
        lemma_children_smaller(*e);
    }
    let kids = for_each_child(e);
    let mut k: usize = 0;
    while k < kids.len()
        invariant
            k <= kids@.len(),
            refs(kids@) == children(*e),
            forall|j: int| 0 <= j < children(*e).len() ==> size(#[trigger] children(*e)[j]) < size(*e),
            distinct_sites(out@),
            args_added(old(out)@, out@, *decl, *e),
            here.len() <= out@.len(),
            forall|q: int| 0 <= q < here.len() ==> out@[q] == here[q],
            forall|q: int| old(out)@.len() <= q < out@.len() ==> carried_marks(carrying@, texts_of(built@), *decl, *e, (#[trigger] out@[q]).1, out@[q].2),
            forall|line: usize, col: usize| #[trigger] carried_here(carrying@, texts_of(built@), *decl, *e, line, col) ==> has_site(here, decl.file@, line, col),
            forall|line: usize, col: usize| #[trigger] carried_kids(carrying@, texts_of(built@), *decl, *e, line, col, k as nat) ==> has_site(out@, decl.file@, line, col),
        decreases kids@.len() - k,
    {
        assert(refs(kids@)[k as int] == *kids@[k as int]);
        assert(children(*e)[k as int] == *kids@[k as int]);
        let ghost before = out@;
        collect_carried(carrying, built, decl, kids[k], out);
        proof {
            assert forall|i: int| before.len() <= i < out@.len() implies has_arg_name_at(*e, (#[trigger] out@[i]).1, out@[i].2) by {
                assert(arg_names_among(*e, out@[i].1, out@[i].2, (k + 1) as nat));
                lemma_arg_names_among(*e, out@[i].1, out@[i].2, (k + 1) as nat, children(*e).len());
            }
            assert forall|q: int| old(out)@.len() <= q < out@.len() implies carried_marks(carrying@, texts_of(built@), *decl, *e, (#[trigger] out@[q]).1, out@[q].2) by {
                if q < before.len() {
                    assert(out@[q] == before[q]);
                } else {
                    assert(carried_kids(carrying@, texts_of(built@), *decl, *e, out@[q].1, out@[q].2, (k + 1) as nat));
                    lemma_carried_kids(carrying@, texts_of(built@), *decl, *e, out@[q].1, out@[q].2, (k + 1) as nat, children(*e).len());
                }
            }
            assert forall|q: int| 0 <= q < here.len() implies out@[q] == here[q] by {
                assert(out@[q] == before[q]);
            }
        }
        let ghost kk = k;
        k += 1;
        proof {
            let c = children(*e)[kk as int];
            assert forall|line: usize, col: usize| #[trigger] carried_kids(carrying@, texts_of(built@), *decl, *e, line, col, k as nat) implies has_site(out@, decl.file@, line, col) by {
                assert(k as nat == (kk + 1) as nat);
                if carried_kids(carrying@, texts_of(built@), *decl, *e, line, col, kk as nat) {
                    lemma_has_site_grows(before, out@, decl.file@, line, col);
                } else {
                    assert(carried_marks(carrying@, texts_of(built@), *decl, c, line, col));
                }
            }
        }
    }
    proof {
        assert forall|line: usize, col: usize| #[trigger] carried_marks(carrying@, texts_of(built@), *decl, *e, line, col) implies has_site(out@, decl.file@, line, col) by {
            if carried_here(carrying@, texts_of(built@), *decl, *e, line, col) {
                lemma_has_site_grows(here, out@, decl.file@, line, col);
            } else {
                assert(carried_kids(carrying@, texts_of(built@), *decl, *e, line, col, kids@.len() as nat));
            }
        }
    }
}

/// Whether `t` is a slot of a declaration the program wrote itself.
pub open spec fn slot_written(program: Program, t: Site) -> bool {
    exists|d: int| 0 <= d < program.fns@.len() && !(#[trigger] program.fns@[d]).synthetic && slot_of(program.fns@[d], t)
}

/// Whether `s` is a join in the file of a declaration the program wrote
/// itself, whose first piece interpolates one of that declaration's
/// parameters.
pub open spec fn join_written(program: Program, s: Site) -> bool {
    exists|d: int|
        0 <= d < program.fns@.len() && !(#[trigger] program.fns@[d]).synthetic && program.fns@[d].file@ == s.0@
            && exists|k: int| 0 <= k < program.fns@[d].body@.len()
            && has_join_at(#[trigger] stmt_expr(program.fns@[d].body@[k]), program.fns@[d], s.1, s.2)
}

/// Whether `s` is a name passed as a call argument in the file of a
/// declaration the program wrote itself.
pub open spec fn arg_written(program: Program, s: Site) -> bool {
    exists|d: int|
        0 <= d < program.fns@.len() && !(#[trigger] program.fns@[d]).synthetic && program.fns@[d].file@ == s.0@
            && exists|k: int| 0 <= k < program.fns@[d].body@.len()
            && has_arg_name_at(#[trigger] stmt_expr(program.fns@[d].body@[k]), s.1, s.2)
}

/// How many of the flags are down.
pub open spec fn unmarked(s: Seq<bool>) -> nat
    decreases s.len(),
{
    if s.len() == 0 {
        0
    } else {
        unmarked(s.drop_last()) + if s.last() { 0nat } else { 1nat }
    }
}

proof fn lemma_unmarked_all(s: Seq<bool>)
    requires
        forall|q: int| 0 <= q < s.len() ==> !(#[trigger] s[q]),
    ensures
        unmarked(s) == s.len(),
    decreases s.len(),
{
    if s.len() > 0 {
        lemma_unmarked_all(s.drop_last());
    }
}

proof fn lemma_unmarked_update(s: Seq<bool>, c: int)
    requires
        0 <= c < s.len(),
        !s[c],
    ensures
        unmarked(s) > 0,
        unmarked(s.update(c, true)) + 1 == unmarked(s),
    decreases s.len(),
{
    let t = s.update(c, true);
    if c < s.len() - 1 {
        lemma_unmarked_update(s.drop_last(), c);
        assert(t.drop_last() =~= s.drop_last().update(c, true));
        assert(t.last() == s.last());
    } else {
        assert(t.drop_last() =~= s.drop_last());
    }
}

/// Whether the arm `d` hands the name `n` on into a carrying position and
/// mentions it nowhere else.
pub open spec fn forwards(carrying: Seq<Site>, d: FnDecl, n: Seq<char>) -> bool {
    (exists|k: int| 0 <= k < d.body@.len() && hands_in(carrying, #[trigger] stmt_expr(d.body@[k]), n)) && body_uses(
        n,
        d.body@,
        d.body@.len(),
    ) == 1
}

/// Whether the arm `d` forwards its plain-name parameter `j`.
pub open spec fn arm_forwards(carrying: Seq<Site>, d: FnDecl, j: usize) -> bool {
    j < d.params@.len() && d.params@[j as int] is Var && forwards(carrying, d, d.params@[j as int]->Var_0@)
}

/// Whether parameter `j` of the group `name` of `arity` parameters carries
/// on the terms the accumulator was granted: every arm the program wrote
/// forwards it, some call site names the group, and every caller hands it
/// over.
pub open spec fn slot_grows(
    types: Seq<String>,
    folds: Seq<String>,
    rets: Seq<(String, usize)>,
    lin: Seq<Site>,
    program: Program,
    carrying: Seq<Site>,
    name: Seq<char>,
    arity: usize,
    j: usize,
) -> bool {
    &&& forall|q: int|
        0 <= q < program.fns@.len() && !program.fns@[q].synthetic && #[trigger] in_group(program.fns@[q], name, arity)
            ==> arm_forwards(carrying, program.fns@[q], j)
    &&& called_in(program.fns@, name, arity)
    &&& hand_over(types, folds, rets, lin, program.fns@, name, arity, j)
}

/// Whether parameter `j` of declaration `d` is a plain name in an arm the
/// program wrote itself.
pub open spec fn var_slot(program: Program, d: int, j: int) -> bool {
    0 <= d < program.fns@.len() && !program.fns@[d].synthetic && 0 <= j < program.fns@[d].params@.len()
        && program.fns@[d].params@[j] is Var
}

/// Whether `carrying` is closed: every plain-name slot it does not list
/// fails to carry against it.
pub open spec fn carrying_closed(
    types: Seq<String>,
    folds: Seq<String>,
    rets: Seq<(String, usize)>,
    lin: Seq<Site>,
    program: Program,
    carrying: Seq<Site>,
) -> bool {
    forall|d: int, j: int|
        #[trigger] var_slot(program, d, j) ==> has_site(carrying, program.fns@[d].name@, program.fns@[d].params@.len() as usize, j as usize)
            || !slot_grows(types, folds, rets, lin, program, carrying, program.fns@[d].name@, program.fns@[d].params@.len() as usize, j as usize)
}

/// Whether walking a statement of a declaration the program wrote itself,
/// in the file of `s`, finds the carried argument at `s`.
pub open spec fn carried_source(program: Program, carrying: Seq<Site>, joins: Seq<Site>, s: Site) -> bool {
    exists|d: int, j: int|
        0 <= d < program.fns@.len() && !program.fns@[d].synthetic && program.fns@[d].file@ == s.0@ && 0 <= j
            < program.fns@[d].body@.len() && #[trigger] carried_marks(
            carrying,
            joined_locals(joins, program.fns@[d], program.fns@[d].body@.len()),
            program.fns@[d],
            stmt_expr(program.fns@[d].body@[j]),
            s.1,
            s.2,
        )
}

/// Whether `r` lists exactly the carried arguments in the statements of the
/// declarations the program wrote itself.
pub open spec fn carried_found(program: Program, carrying: Seq<Site>, joins: Seq<Site>, r: Seq<Site>) -> bool {
    &&& forall|i: int| 0 <= i < r.len() ==> carried_source(program, carrying, joins, #[trigger] r[i])
    &&& forall|d: int, j: int, line: usize, col: usize|
        0 <= d < program.fns@.len() && !program.fns@[d].synthetic && 0 <= j < program.fns@[d].body@.len() && #[trigger] carried_marks(
            carrying,
            joined_locals(joins, program.fns@[d], program.fns@[d].body@.len()),
            program.fns@[d],
            stmt_expr(program.fns@[d].body@[j]),
            line,
            col,
        ) ==> has_site(r, program.fns@[d].file@, line, col)
}

impl<'a> Analysis<'a> {
    /// A parameter a group forwards straight into a carrying position is
    /// carrying one too, on the terms the accumulator itself was granted:
    /// every arm of the group forwards it and mentions it nowhere else, some
    /// call site names the group, and every caller hands it over. Grown to a
    /// fixpoint; then the arguments already carrying the builder.
    fn carried_args(&self, joins: &Vec<Site>, accs: Vec<Site>) -> (r: (Vec<Site>, Vec<Site>))
        requires
            distinct_sites(accs@),
            forall|i: int| 0 <= i < accs@.len() ==> slot_written(*self.program, #[trigger] accs@[i]),
        ensures
            distinct_sites(r.0@),
            forall|i: int| 0 <= i < r.0@.len() ==> slot_written(*self.program, #[trigger] r.0@[i]),
            distinct_sites(r.1@),
            forall|i: int| 0 <= i < r.1@.len() ==> arg_written(*self.program, #[trigger] r.1@[i]),
            accs@.len() <= r.0@.len(),
            forall|i: int| 0 <= i < accs@.len() ==> r.0@[i] == accs@[i],
            carrying_closed(self.types@, self.folds@, self.returns_unique@, self.linear_params@, *self.program, r.0@),
            carried_found(*self.program, r.0@, joins@, r.1@),
    {
        let program = self.program;
        // every plain-name parameter slot of an arm the program wrote
        let mut cands: Vec<Site> = Vec::new();
        let mut k: usize = 0;
        while k < program.fns.len()
            invariant
                k <= program.fns@.len(),
                program == self.program,
                distinct_sites(cands@),
                forall|i: int| 0 <= i < cands@.len() ==> slot_written(*program, #[trigger] cands@[i]),
                forall|d: int, jj: int| 0 <= d < k && #[trigger] var_slot(*program, d, jj) ==> has_site(cands@, program.fns@[d].name@, program.fns@[d].params@.len() as usize, jj as usize),
            decreases program.fns@.len() - k,
        {
            let d = &program.fns[k];
            if !d.synthetic {
                let mut j: usize = 0;
                while j < d.params.len()
                    invariant
                        j <= d.params@.len(),
                        k < program.fns@.len(),
                        *d == program.fns@[k as int],
                        !d.synthetic,
                        distinct_sites(cands@),
                        forall|i: int| 0 <= i < cands@.len() ==> slot_written(*program, #[trigger] cands@[i]),
                        forall|dd: int, jj: int| 0 <= dd < k && #[trigger] var_slot(*program, dd, jj) ==> has_site(cands@, program.fns@[dd].name@, program.fns@[dd].params@.len() as usize, jj as usize),
                        forall|jj: int| 0 <= jj < j && #[trigger] var_slot(*program, k as int, jj) ==> has_site(cands@, d.name@, d.params@.len() as usize, jj as usize),
                    decreases d.params@.len() - j,
                {
                    let ghost before = cands@;
                    if let Pattern::Var(_, _) = &d.params[j] {
                        add_slot(&mut cands, &d.name, d.params.len(), j);
                        proof {
                            assert forall|i: int| 0 <= i < cands@.len() implies slot_written(*program, #[trigger] cands@[i]) by {
                                if i >= before.len() {
                                    assert(slot_of(program.fns@[k as int], cands@[i]));
                                } else {
                                    assert(cands@[i] == before[i]);
                                }
                            }
                        }
                    }
                    proof {
                        assert forall|dd: int, jj: int| 0 <= dd < k && #[trigger] var_slot(*program, dd, jj) implies has_site(cands@, program.fns@[dd].name@, program.fns@[dd].params@.len() as usize, jj as usize) by {
                            lemma_has_site_grows(before, cands@, program.fns@[dd].name@, program.fns@[dd].params@.len() as usize, jj as usize);
                        }
                        assert forall|jj: int| 0 <= jj < j + 1 && #[trigger] var_slot(*program, k as int, jj) implies has_site(cands@, d.name@, d.params@.len() as usize, jj as usize) by {
                            if jj < j {
                                lemma_has_site_grows(before, cands@, d.name@, d.params@.len() as usize, jj as usize);
                            }
                        }
                    }
                    j += 1;
                }
            }
            proof {
                assert forall|dd: int, jj: int| 0 <= dd < k + 1 && #[trigger] var_slot(*program, dd, jj) implies has_site(cands@, program.fns@[dd].name@, program.fns@[dd].params@.len() as usize, jj as usize) by {
                    if dd == k {
                        assert(program.fns@[dd] == *d);
                    }
                }
            }
            k += 1;
        }
        let mut carrying = accs;
        let mut marked: Vec<bool> = Vec::new();
        let mut c: usize = 0;
        while c < cands.len()
            invariant
                c <= cands@.len(),
                marked@.len() == c,
                forall|q: int| 0 <= q < c ==> !(#[trigger] marked@[q]),
            decreases cands@.len() - c,
        {
            marked.push(false);
            c += 1;
        }
        let mut remaining: usize = cands.len();
        proof {
            lemma_unmarked_all(marked@);
        }
        loop
            invariant
                program == self.program,
                marked@.len() == cands@.len(),
                remaining == unmarked(marked@),
                distinct_sites(carrying@),
                forall|i: int| 0 <= i < carrying@.len() ==> slot_written(*program, #[trigger] carrying@[i]),
                forall|i: int| 0 <= i < cands@.len() ==> slot_written(*program, #[trigger] cands@[i]),
                accs@.len() <= carrying@.len(),
                forall|i: int| 0 <= i < accs@.len() ==> carrying@[i] == accs@[i],
                forall|q: int| 0 <= q < cands@.len() && #[trigger] marked@[q] ==> has_site(carrying@, cands@[q].0@, cands@[q].1, cands@[q].2),
                forall|d: int, jj: int| #[trigger] var_slot(*program, d, jj) ==> has_site(cands@, program.fns@[d].name@, program.fns@[d].params@.len() as usize, jj as usize),
            ensures
                program == self.program,
                distinct_sites(carrying@),
                forall|i: int| 0 <= i < carrying@.len() ==> slot_written(*program, #[trigger] carrying@[i]),
                accs@.len() <= carrying@.len(),
                forall|i: int| 0 <= i < accs@.len() ==> carrying@[i] == accs@[i],
                carrying_closed(self.types@, self.folds@, self.returns_unique@, self.linear_params@, *self.program, carrying@),
            decreases remaining,
        {
            let mut changed = false;
            let ghost start = remaining;
            let ghost pass_start = carrying@;
            let mut c: usize = 0;
            while c < cands.len()
                invariant
                    c <= cands@.len() == marked@.len(),
                    remaining == unmarked(marked@),
                    remaining <= start,
                    changed ==> remaining < start,
                    program == self.program,
                    distinct_sites(carrying@),
                    forall|i: int| 0 <= i < carrying@.len() ==> slot_written(*program, #[trigger] carrying@[i]),
                    forall|i: int| 0 <= i < cands@.len() ==> slot_written(*program, #[trigger] cands@[i]),
                    accs@.len() <= carrying@.len(),
                    forall|i: int| 0 <= i < accs@.len() ==> carrying@[i] == accs@[i],
                    forall|q: int| 0 <= q < cands@.len() && #[trigger] marked@[q] ==> has_site(carrying@, cands@[q].0@, cands@[q].1, cands@[q].2),
                    forall|d: int, jj: int| #[trigger] var_slot(*program, d, jj) ==> has_site(cands@, program.fns@[d].name@, program.fns@[d].params@.len() as usize, jj as usize),
                    !changed ==> carrying@ == pass_start,
                    !changed ==> forall|q: int| 0 <= q < c ==> has_site(carrying@, (#[trigger] cands@[q]).0@, cands@[q].1, cands@[q].2)
                        || !slot_grows(self.types@, self.folds@, self.returns_unique@, self.linear_params@, *self.program, carrying@, cands@[q].0@, cands@[q].1, cands@[q].2),
                decreases cands@.len() - c,
            {
                let ghost before_c = carrying@;
                if !marked[c] && !has_triple(&carrying, cands[c].0.as_str(), cands[c].1, cands[c].2) {
                    let (name, arity, j) = (&cands[c].0, cands[c].1, cands[c].2);
                    proof {
                        assert(slot_written(*program, cands@[c as int]));
                    }
                    assert(j < arity);
                    // every arm of the group, not just one: the set is keyed by group
                    let mut all = true;
                    let mut q: usize = 0;
                    while q < program.fns.len()
                        invariant
                            q <= program.fns@.len(),
                            j < arity,
                            program == self.program,
                            all == forall|qq: int| 0 <= qq < q && !program.fns@[qq].synthetic && #[trigger] in_group(program.fns@[qq], name@, arity)
                                ==> arm_forwards(carrying@, program.fns@[qq], j),
                        decreases program.fns@.len() - q,
                    {
                        let d = &program.fns[q];
                        if !d.synthetic && d.params.len() == arity && same_text(d.name.as_str(), name.as_str()) {
                            assert(in_group(program.fns@[q as int], name@, arity));
                            let forwards = match &d.params[j] {
                                Pattern::Var(n, _) => forwards_into(&carrying, d, n.as_str()),
                                _ => false,
                            };
                            assert(forwards == arm_forwards(carrying@, program.fns@[q as int], j));
                            if !forwards {
                                all = false;
                            }
                        }
                        q += 1;
                    }
                    let called = called_somewhere(program, name.as_str(), arity);
                    let grows = all && called && self.callers_hand_over(name.as_str(), arity, j);
                    assert(grows == slot_grows(self.types@, self.folds@, self.returns_unique@, self.linear_params@, *self.program, carrying@, name@, arity, j));
                    if grows {
                        let ghost before = carrying@;
                        add_slot(&mut carrying, name, arity, j);
                        proof {
                            assert forall|i: int| 0 <= i < carrying@.len() implies slot_written(*program, #[trigger] carrying@[i]) by {
                                if i >= before.len() {
                                    assert(site_view(carrying@[i]) == site_view(cands@[c as int]));
                                    assert(slot_written(*program, cands@[c as int]));
                                } else {
                                    assert(carrying@[i] == before[i]);
                                }
                            }
                        }
                        proof {
                            lemma_unmarked_update(marked@, c as int);
                        }
                        marked.set(c, true);
                        remaining -= 1;
                        changed = true;
                    }
                }
                proof {
                    assert forall|qq: int| 0 <= qq < cands@.len() && #[trigger] marked@[qq] implies has_site(carrying@, cands@[qq].0@, cands@[qq].1, cands@[qq].2) by {
                        if qq != c || !marked@[qq] || before_c.len() == carrying@.len() {
                            if has_site(before_c, cands@[qq].0@, cands@[qq].1, cands@[qq].2) {
                                lemma_has_site_grows(before_c, carrying@, cands@[qq].0@, cands@[qq].1, cands@[qq].2);
                            }
                        }
                    }
                }
                c += 1;
            }
            if !changed {
                proof {
                    assert forall|d: int, jj: int| #[trigger] var_slot(*program, d, jj) implies has_site(carrying@, program.fns@[d].name@, program.fns@[d].params@.len() as usize, jj as usize)
                        || !slot_grows(self.types@, self.folds@, self.returns_unique@, self.linear_params@, *self.program, carrying@, program.fns@[d].name@, program.fns@[d].params@.len() as usize, jj as usize) by {
                        let w = choose|w: int| 0 <= w < cands@.len() && site_view(#[trigger] cands@[w]) == (program.fns@[d].name@, program.fns@[d].params@.len() as usize, jj as usize);
                        assert(has_site(carrying@, cands@[w].0@, cands@[w].1, cands@[w].2) || !slot_grows(self.types@, self.folds@, self.returns_unique@, self.linear_params@, *self.program, carrying@, cands@[w].0@, cands@[w].1, cands@[w].2));
                    }
                }
                break;
            }
        }
        let mut out: Vec<Site> = Vec::new();
        let mut k: usize = 0;
        while k < program.fns.len()
            invariant
                k <= program.fns@.len(),
                program == self.program,
                carrying_closed(self.types@, self.folds@, self.returns_unique@, self.linear_params@, *self.program, carrying@),
                distinct_sites(out@),
                forall|i: int| 0 <= i < out@.len() ==> arg_written(*program, #[trigger] out@[i]),
                forall|i: int| 0 <= i < out@.len() ==> carried_source(*program, carrying@, joins@, #[trigger] out@[i]),
                forall|d: int, j: int, line: usize, col: usize|
                    0 <= d < k && !program.fns@[d].synthetic && 0 <= j < program.fns@[d].body@.len() && #[trigger] carried_marks(
                        carrying@,
                        joined_locals(joins@, program.fns@[d], program.fns@[d].body@.len()),
                        program.fns@[d],
                        stmt_expr(program.fns@[d].body@[j]),
                        line,
                        col,
                    ) ==> has_site(out@, program.fns@[d].file@, line, col),
            decreases program.fns@.len() - k,
        {
            let decl = &program.fns[k];
            if !decl.synthetic {
                let built = built_locals(joins, decl);
                let mut j: usize = 0;
                while j < decl.body.len()
                    invariant
                        k < program.fns@.len(),
                        *decl == program.fns@[k as int],
                        !decl.synthetic,
                        j <= decl.body@.len(),
                        texts_of(built@) == joined_locals(joins@, *decl, decl.body@.len()),
                        distinct_sites(out@),
                        forall|i: int| 0 <= i < out@.len() ==> arg_written(*program, #[trigger] out@[i]),
                        forall|i: int| 0 <= i < out@.len() ==> carried_source(*program, carrying@, joins@, #[trigger] out@[i]),
                        forall|d: int, j: int, line: usize, col: usize|
                            0 <= d < k && !program.fns@[d].synthetic && 0 <= j < program.fns@[d].body@.len() && #[trigger] carried_marks(
                                carrying@,
                                joined_locals(joins@, program.fns@[d], program.fns@[d].body@.len()),
                                program.fns@[d],
                                stmt_expr(program.fns@[d].body@[j]),
                                line,
                                col,
                            ) ==> has_site(out@, program.fns@[d].file@, line, col),
                        forall|q: int, line: usize, col: usize|
                            0 <= q < j && #[trigger] carried_marks(carrying@, texts_of(built@), *decl, stmt_expr(decl.body@[q]), line, col) ==> has_site(out@, decl.file@, line, col),
                    decreases decl.body@.len() - j,
                {
                    let ghost before = out@;
                    collect_carried(&carrying, &built, decl, stmt_expr_of(&decl.body[j]), &mut out);
                    proof {
                        assert forall|i: int| 0 <= i < out@.len() implies arg_written(*program, #[trigger] out@[i]) by {
                            if i >= before.len() {
                                assert(has_arg_name_at(stmt_expr(decl.body@[j as int]), out@[i].1, out@[i].2));
                            } else {
                                assert(out@[i] == before[i]);
                            }
                        }
                        assert forall|i: int| 0 <= i < out@.len() implies carried_source(*program, carrying@, joins@, #[trigger] out@[i]) by {
                            if i >= before.len() {
                                assert(carried_marks(carrying@, joined_locals(joins@, program.fns@[k as int], program.fns@[k as int].body@.len()), program.fns@[k as int], stmt_expr(program.fns@[k as int].body@[j as int]), out@[i].1, out@[i].2));
                            } else {
                                assert(out@[i] == before[i]);
                            }
                        }
                        assert forall|d: int, jj: int, line: usize, col: usize|
                            0 <= d < k && !program.fns@[d].synthetic && 0 <= jj < program.fns@[d].body@.len() && #[trigger] carried_marks(
                                carrying@,
                                joined_locals(joins@, program.fns@[d], program.fns@[d].body@.len()),
                                program.fns@[d],
                                stmt_expr(program.fns@[d].body@[jj]),
                                line,
                                col,
                            ) implies has_site(out@, program.fns@[d].file@, line, col) by {
                            lemma_has_site_grows(before, out@, program.fns@[d].file@, line, col);
                        }
                        assert forall|q: int, line: usize, col: usize|
                            0 <= q < j + 1 && #[trigger] carried_marks(carrying@, texts_of(built@), *decl, stmt_expr(decl.body@[q]), line, col) implies has_site(out@, decl.file@, line, col) by {
                            if q < j {
                                lemma_has_site_grows(before, out@, decl.file@, line, col);
                            }
                        }
                    }
                    j += 1;
                }
            }
            proof {
                assert forall|d: int, j: int, line: usize, col: usize|
                    0 <= d < k + 1 && !program.fns@[d].synthetic && 0 <= j < program.fns@[d].body@.len() && #[trigger] carried_marks(
                        carrying@,
                        joined_locals(joins@, program.fns@[d], program.fns@[d].body@.len()),
                        program.fns@[d],
                        stmt_expr(program.fns@[d].body@[j]),
                        line,
                        col,
                    ) implies has_site(out@, program.fns@[d].file@, line, col) by {
                    if d == k {
                        assert(program.fns@[d] == *decl);
                    }
                }
            }
            k += 1;
        }
        (carrying, out)
    }
}

/// Whether walking a statement of a declaration the program wrote itself,
/// in the file of `s`, finds a builder join at `s`.
pub open spec fn join_source(
    types: Seq<String>,
    folds: Seq<String>,
    rets: Seq<(String, usize)>,
    lin: Seq<Site>,
    program: Program,
    s: Site,
) -> bool {
    exists|d: int, j: int|
        0 <= d < program.fns@.len() && !program.fns@[d].synthetic && program.fns@[d].file@ == s.0@ && 0 <= j
            < program.fns@[d].body@.len() && #[trigger] builder_marks(
            types,
            folds,
            rets,
            lin,
            program,
            program.fns@[d],
            stmt_expr(program.fns@[d].body@[j]),
            s.1,
            s.2,
        )
}

/// Whether walking a statement of a declaration the program wrote itself
/// finds a builder join onto the slot `t` of that declaration.
pub open spec fn slot_source(
    types: Seq<String>,
    folds: Seq<String>,
    rets: Seq<(String, usize)>,
    lin: Seq<Site>,
    program: Program,
    t: Site,
) -> bool {
    exists|d: int, j: int|
        0 <= d < program.fns@.len() && !program.fns@[d].synthetic && program.fns@[d].name@ == t.0@
            && program.fns@[d].params@.len() == t.1 && 0 <= j < program.fns@[d].body@.len() && #[trigger] slot_marks(
            types,
            folds,
            rets,
            lin,
            program,
            program.fns@[d],
            stmt_expr(program.fns@[d].body@[j]),
            t.2 as nat,
        )
}

/// Whether `joins` lists exactly the builder joins in the statements of the
/// declarations the program wrote itself, and `accs` starts with exactly
/// the slots they join onto.
pub open spec fn joins_found(
    types: Seq<String>,
    folds: Seq<String>,
    rets: Seq<(String, usize)>,
    lin: Seq<Site>,
    program: Program,
    joins: Seq<Site>,
    accs: Seq<Site>,
    n: int,
) -> bool {
    &&& forall|i: int| 0 <= i < joins.len() ==> join_source(types, folds, rets, lin, program, #[trigger] joins[i])
    &&& forall|i: int| 0 <= i < n ==> slot_source(types, folds, rets, lin, program, #[trigger] accs[i])
    &&& forall|d: int, j: int, line: usize, col: usize|
        0 <= d < program.fns@.len() && !program.fns@[d].synthetic && 0 <= j < program.fns@[d].body@.len() && #[trigger] builder_marks(
            types,
            folds,
            rets,
            lin,
            program,
            program.fns@[d],
            stmt_expr(program.fns@[d].body@[j]),
            line,
            col,
        ) ==> has_site(joins, program.fns@[d].file@, line, col)
    &&& forall|d: int, j: int, i: nat|
        0 <= d < program.fns@.len() && !program.fns@[d].synthetic && 0 <= j < program.fns@[d].body@.len() && #[trigger] slot_marks(
            types,
            folds,
            rets,
            lin,
            program,
            program.fns@[d],
            stmt_expr(program.fns@[d].body@[j]),
            i,
        ) ==> i <= usize::MAX && has_site(accs, program.fns@[d].name@, program.fns@[d].params@.len() as usize, i as usize)
}

/// Where a string is built by joining onto itself, and which parameter holds
/// the builder: the join sites, keyed (file, line, column); the (group,
/// arity, index) of each accumulator, together with every parameter that
/// forwards one on; and the call arguments that already carry a builder, so
/// the emitter converts a seed only where a value enters the cycle. Each is
/// listed once. A join is a template of more than one piece, outside any
/// lambda, whose first piece interpolates a parameter of a declaration the
/// program wrote itself, in that declaration's file; every slot is a
/// plain-name parameter of such a declaration; every carried argument is a
/// name passed to a call in such a declaration's file.
pub fn string_builders(program: &Program) -> (r: (Vec<Site>, Vec<Site>, Vec<Site>))
    ensures
        distinct_sites(r.0@),
        forall|i: int| 0 <= i < r.0@.len() ==> join_written(*program, #[trigger] r.0@[i]),
        distinct_sites(r.1@),
        forall|i: int| 0 <= i < r.1@.len() ==> slot_written(*program, #[trigger] r.1@[i]),
        distinct_sites(r.2@),
        forall|i: int| 0 <= i < r.2@.len() ==> arg_written(*program, #[trigger] r.2@[i]),
        exists|types: Seq<String>, folds: Seq<String>, rets: Seq<(String, usize)>, lin: Seq<Site>, n: int|
            settled(*program, types, folds, rets, lin) && 0 <= n <= r.1@.len() && #[trigger] joins_found(
                types,
                folds,
                rets,
                lin,
                *program,
                r.0@,
                r.1@,
                n,
            ) && carrying_closed(types, folds, rets, lin, *program, r.1@) && carried_found(*program, r.1@, r.0@, r.2@),
{
    let analysis = Analysis::new(program);
    let mut sites: Vec<Site> = Vec::new();
    let mut accs: Vec<Site> = Vec::new();
    let mut k: usize = 0;
    while k < program.fns.len()
        invariant
            k <= program.fns@.len(),
            analysis.program == program,
            distinct_sites(sites@),
            distinct_sites(accs@),
            forall|i: int| 0 <= i < sites@.len() ==> join_written(*program, #[trigger] sites@[i]),
            forall|i: int| 0 <= i < accs@.len() ==> slot_written(*program, #[trigger] accs@[i]),
            forall|i: int| 0 <= i < sites@.len() ==> join_source(analysis.types@, analysis.folds@, analysis.returns_unique@, analysis.linear_params@, *program, #[trigger] sites@[i]),
            forall|i: int| 0 <= i < accs@.len() ==> slot_source(analysis.types@, analysis.folds@, analysis.returns_unique@, analysis.linear_params@, *program, #[trigger] accs@[i]),
            forall|d: int, j: int, line: usize, col: usize|
                0 <= d < k && !program.fns@[d].synthetic && 0 <= j < program.fns@[d].body@.len() && #[trigger] builder_marks(
                analysis.types@, analysis.folds@, analysis.returns_unique@, analysis.linear_params@, *program, program.fns@[d], stmt_expr(program.fns@[d].body@[j]), line, col) ==> has_site(sites@, program.fns@[d].file@, line, col),
            forall|d: int, j: int, i: nat|
                0 <= d < k && !program.fns@[d].synthetic && 0 <= j < program.fns@[d].body@.len() && #[trigger] slot_marks(
                analysis.types@, analysis.folds@, analysis.returns_unique@, analysis.linear_params@, *program, program.fns@[d], stmt_expr(program.fns@[d].body@[j]), i) ==> i <= usize::MAX && has_site(accs@, program.fns@[d].name@, program.fns@[d].params@.len() as usize, i as usize),
        decreases program.fns@.len() - k,
    {
        let decl = &program.fns[k];
        if !decl.synthetic {
            let mut j: usize = 0;
            while j < decl.body.len()
                invariant
                    k < program.fns@.len(),
                    *decl == program.fns@[k as int],
                    !decl.synthetic,
                    analysis.program == program,
                    j <= decl.body@.len(),
                    distinct_sites(sites@),
                    distinct_sites(accs@),
                    forall|i: int| 0 <= i < sites@.len() ==> join_written(*program, #[trigger] sites@[i]),
                    forall|i: int| 0 <= i < accs@.len() ==> slot_written(*program, #[trigger] accs@[i]),
                    forall|i: int| 0 <= i < sites@.len() ==> join_source(analysis.types@, analysis.folds@, analysis.returns_unique@, analysis.linear_params@, *program, #[trigger] sites@[i]),
                    forall|i: int| 0 <= i < accs@.len() ==> slot_source(analysis.types@, analysis.folds@, analysis.returns_unique@, analysis.linear_params@, *program, #[trigger] accs@[i]),
                    forall|d: int, j: int, line: usize, col: usize|
                        0 <= d < k && !program.fns@[d].synthetic && 0 <= j < program.fns@[d].body@.len() && #[trigger] builder_marks(
                        analysis.types@, analysis.folds@, analysis.returns_unique@, analysis.linear_params@, *program, program.fns@[d], stmt_expr(program.fns@[d].body@[j]), line, col) ==> has_site(sites@, program.fns@[d].file@, line, col),
                    forall|d: int, j: int, i: nat|
                        0 <= d < k && !program.fns@[d].synthetic && 0 <= j < program.fns@[d].body@.len() && #[trigger] slot_marks(
                        analysis.types@, analysis.folds@, analysis.returns_unique@, analysis.linear_params@, *program, program.fns@[d], stmt_expr(program.fns@[d].body@[j]), i) ==> i <= usize::MAX && has_site(accs@, program.fns@[d].name@, program.fns@[d].params@.len() as usize, i as usize),
                    forall|q: int, line: usize, col: usize|
                        0 <= q < j && #[trigger] builder_marks(analysis.types@, analysis.folds@, analysis.returns_unique@, analysis.linear_params@, *program, *decl, stmt_expr(decl.body@[q]), line, col) ==> has_site(sites@, decl.file@, line, col),
                    forall|q: int, i: nat|
                        0 <= q < j && #[trigger] slot_marks(analysis.types@, analysis.folds@, analysis.returns_unique@, analysis.linear_params@, *program, *decl, stmt_expr(decl.body@[q]), i) ==> i <= usize::MAX && has_site(accs@, decl.name@, decl.params@.len() as usize, i as usize),
                decreases decl.body@.len() - j,
            {
                let ghost before = sites@;
                let ghost before_accs = accs@;
                analysis.walk_for_builder(decl, stmt_expr_of(&decl.body[j]), &mut sites, &mut accs);
                proof {
                    assert forall|i: int| 0 <= i < sites@.len() implies join_source(analysis.types@, analysis.folds@, analysis.returns_unique@, analysis.linear_params@, *program, #[trigger] sites@[i]) by {
                        if i < before.len() {
                            assert(sites@[i] == before[i]);
                        } else {
                            assert(builder_marks(analysis.types@, analysis.folds@, analysis.returns_unique@, analysis.linear_params@, *program, program.fns@[k as int], stmt_expr(program.fns@[k as int].body@[j as int]), sites@[i].1, sites@[i].2));
                            assert(sites@[i].0@ == decl.file@);
                        }
                    }
                    assert forall|i: int| 0 <= i < accs@.len() implies slot_source(analysis.types@, analysis.folds@, analysis.returns_unique@, analysis.linear_params@, *program, #[trigger] accs@[i]) by {
                        if i < before_accs.len() {
                            assert(accs@[i] == before_accs[i]);
                        } else {
                            assert(slot_marks(analysis.types@, analysis.folds@, analysis.returns_unique@, analysis.linear_params@, *program, program.fns@[k as int], stmt_expr(program.fns@[k as int].body@[j as int]), accs@[i].2 as nat));
                            assert(slot_of(*decl, accs@[i]));
                        }
                    }
                    assert forall|d: int, jj: int, line: usize, col: usize|
                        0 <= d < k && !program.fns@[d].synthetic && 0 <= jj < program.fns@[d].body@.len() && #[trigger] builder_marks(
                        analysis.types@, analysis.folds@, analysis.returns_unique@, analysis.linear_params@, *program, program.fns@[d], stmt_expr(program.fns@[d].body@[jj]), line, col) implies has_site(sites@, program.fns@[d].file@, line, col) by {
                        lemma_has_site_grows(before, sites@, program.fns@[d].file@, line, col);
                    }
                    assert forall|d: int, jj: int, i: nat|
                        0 <= d < k && !program.fns@[d].synthetic && 0 <= jj < program.fns@[d].body@.len() && #[trigger] slot_marks(
                        analysis.types@, analysis.folds@, analysis.returns_unique@, analysis.linear_params@, *program, program.fns@[d], stmt_expr(program.fns@[d].body@[jj]), i) implies i <= usize::MAX && has_site(accs@, program.fns@[d].name@, program.fns@[d].params@.len() as usize, i as usize) by {
                        lemma_has_site_grows(before_accs, accs@, program.fns@[d].name@, program.fns@[d].params@.len() as usize, i as usize);
                    }
                    assert forall|q: int, line: usize, col: usize|
                        0 <= q < j + 1 && #[trigger] builder_marks(analysis.types@, analysis.folds@, analysis.returns_unique@, analysis.linear_params@, *program, *decl, stmt_expr(decl.body@[q]), line, col) implies has_site(sites@, decl.file@, line, col) by {
                        if q < j {
                            lemma_has_site_grows(before, sites@, decl.file@, line, col);
                        }
                    }
                    assert forall|q: int, i: nat|
                        0 <= q < j + 1 && #[trigger] slot_marks(analysis.types@, analysis.folds@, analysis.returns_unique@, analysis.linear_params@, *program, *decl, stmt_expr(decl.body@[q]), i) implies i <= usize::MAX && has_site(accs@, decl.name@, decl.params@.len() as usize, i as usize) by {
                        if q < j {
                            lemma_has_site_grows(before_accs, accs@, decl.name@, decl.params@.len() as usize, i as usize);
                        }
                    }
                    assert forall|i: int| 0 <= i < sites@.len() implies join_written(*program, #[trigger] sites@[i]) by {
                        if i >= before.len() {
                            assert(has_join_at(stmt_expr(decl.body@[j as int]), *decl, sites@[i].1, sites@[i].2));
                        } else {
                            assert(sites@[i] == before[i]);
                        }
                    }
                    assert forall|i: int| 0 <= i < accs@.len() implies slot_written(*program, #[trigger] accs@[i]) by {
                        if i >= before_accs.len() {
                            assert(slot_of(program.fns@[k as int], accs@[i]));
                        } else {
                            assert(accs@[i] == before_accs[i]);
                        }
                    }
                }
                j += 1;
            }
        }
        proof {
            assert forall|d: int, j: int, line: usize, col: usize|
                0 <= d < k + 1 && !program.fns@[d].synthetic && 0 <= j < program.fns@[d].body@.len() && #[trigger] builder_marks(
                analysis.types@, analysis.folds@, analysis.returns_unique@, analysis.linear_params@, *program, program.fns@[d], stmt_expr(program.fns@[d].body@[j]), line, col) implies has_site(sites@, program.fns@[d].file@, line, col) by {
                if d == k {
                    assert(program.fns@[d] == *decl);
                }
            }
            assert forall|d: int, j: int, i: nat|
                0 <= d < k + 1 && !program.fns@[d].synthetic && 0 <= j < program.fns@[d].body@.len() && #[trigger] slot_marks(
                analysis.types@, analysis.folds@, analysis.returns_unique@, analysis.linear_params@, *program, program.fns@[d], stmt_expr(program.fns@[d].body@[j]), i) implies i <= usize::MAX && has_site(accs@, program.fns@[d].name@, program.fns@[d].params@.len() as usize, i as usize) by {
                if d == k {
                    assert(program.fns@[d] == *decl);
                }
            }
        }
        k += 1;
    }
    let ghost accs0 = accs@;
    let (accs, carried) = analysis.carried_args(&sites, accs);
    proof {
        assert forall|i: int| 0 <= i < accs0.len() implies slot_source(analysis.types@, analysis.folds@, analysis.returns_unique@, analysis.linear_params@, *program, #[trigger] accs@[i]) by {
            assert(accs@[i] == accs0[i]);
        }
        assert forall|d: int, j: int, i: nat|
            0 <= d < program.fns@.len() && !program.fns@[d].synthetic && 0 <= j < program.fns@[d].body@.len() && #[trigger] slot_marks(
            analysis.types@, analysis.folds@, analysis.returns_unique@, analysis.linear_params@, *program, program.fns@[d], stmt_expr(program.fns@[d].body@[j]), i) implies i <= usize::MAX && has_site(accs@, program.fns@[d].name@, program.fns@[d].params@.len() as usize, i as usize) by {
            lemma_has_site_grows(accs0, accs@, program.fns@[d].name@, program.fns@[d].params@.len() as usize, i as usize);
        }
        assert(joins_found(analysis.types@, analysis.folds@, analysis.returns_unique@, analysis.linear_params@, *program, sites@, accs@, accs0.len() as int));
        assert(settled(*program, analysis.types@, analysis.folds@, analysis.returns_unique@, analysis.linear_params@));
    }
    (sites, accs, carried)
}

} // verus!
