//! Bare-name aliases: a bare enrollment clone whose whole group is clones
//! of one qualified declaration is that declaration under a second
//! spelling. Every bare reference is rewritten to the qualified one and the
//! clones go, so a module's own recursion reads as self-recursion again.

use vstd::prelude::*;
use crate::ast::{
    children, for_each_child, lemma_children_smaller, refs, same_shape, same_stmt_shape, size, stmt_expr,
    stmt_expr_of, swap_children, swap_stmt, Expr, FnDecl, Pattern, Program, Stmt,
};
use crate::diag::Span;
use crate::passes::canon::{settle, table_last};
use crate::passes::fuse::{declared, listed};
use crate::text::{has_suffix, index_of, same_text};

verus! {

/// Whether `n` is a bare name: one with no `/` in it.
pub open spec fn is_bare(n: Seq<char>) -> bool {
    index_of(n, '/') == -1
}

/// Whether `q` is `n` qualified: `n` behind a `/`.
pub open spec fn qualifies(q: Seq<char>, n: Seq<char>) -> bool {
    has_suffix(q, n) && q.len() > n.len() && q[q.len() - n.len() - 1] == '/'
}

/// Whether `t` is written where `d` is: a declaration from the source in the
/// same file, at the same position, of the same arity.
pub open spec fn site_twin(d: FnDecl, t: FnDecl) -> bool {
    !t.synthetic && t.file@ == d.file@ && t.span == d.span && t.params@.len() == d.params@.len()
}

/// Whether `d` is a clone spelled `n` and `t` its qualified twin `q`.
pub open spec fn target_pair(d: FnDecl, t: FnDecl, n: Seq<char>, q: Seq<char>) -> bool {
    d.name@ == n && d.synthetic && site_twin(d, t) && t.name@ == q && qualifies(q, n)
}

/// Whether `q` is a qualified declaration some clone spelled `n` stands for.
pub open spec fn bare_target(fns: Seq<FnDecl>, n: Seq<char>, q: Seq<char>) -> bool {
    exists|i: int, j: int| 0 <= i < fns.len() && 0 <= j < fns.len() && #[trigger] target_pair(fns[i], fns[j], n, q)
}

/// Whether every declaration spelled `n` is a clone.
pub open spec fn only_clones(fns: Seq<FnDecl>, n: Seq<char>) -> bool {
    forall|i: int| 0 <= i < fns.len() && (#[trigger] fns[i]).name@ == n ==> fns[i].synthetic
}

/// Whether the pattern `p` binds the name `n`.
pub open spec fn pattern_binds(p: Pattern, n: Seq<char>) -> bool
    decreases p, 1nat, 0nat,
{
    match p {
        Pattern::Var(x, _) => x@ == n,
        Pattern::Annotated { name, .. } => name@ == n,
        Pattern::Ctor { fields, whole, .. } => (whole matches Some(w) && w@ == n) || fields_bind(p, n, fields@.len()),
        Pattern::Keyed { entries, .. } => entries_bind(p, n, entries@.len()),
        _ => false,
    }
}

/// Whether one of the first `k` fields of the constructor pattern `p` binds `n`.
pub open spec fn fields_bind(p: Pattern, n: Seq<char>, k: nat) -> bool
    decreases p, 0nat, k,
{
    if k == 0 || !(p is Ctor) || k > p->Ctor_fields@.len() {
        false
    } else {
        fields_bind(p, n, (k - 1) as nat) || pattern_binds(p->Ctor_fields@[k - 1], n)
    }
}

/// Whether one of the first `k` entries of the keyed pattern `p` binds `n`.
pub open spec fn entries_bind(p: Pattern, n: Seq<char>, k: nat) -> bool
    decreases p, 0nat, k,
{
    if k == 0 || !(p is Keyed) || k > p->Keyed_entries@.len() {
        false
    } else {
        entries_bind(p, n, (k - 1) as nat) || pattern_binds(p->Keyed_entries@[k - 1].1, n)
    }
}

/// Whether the statement `s` binds `n` with its pattern.
pub open spec fn stmt_binds(s: Stmt, n: Seq<char>) -> bool {
    s matches Stmt::Bind { pattern, .. } && pattern_binds(pattern, n)
}

/// Whether one of the statements `ss` binds `n` with its pattern.
pub open spec fn stmts_bind(ss: Seq<Stmt>, n: Seq<char>) -> bool {
    exists|k: int| 0 <= k < ss.len() && stmt_binds(#[trigger] ss[k], n)
}

/// Whether `e` itself binds `n`: a lambda's parameter, or a pattern of a
/// statement it holds.
pub open spec fn local_binds(e: Expr, n: Seq<char>) -> bool {
    match e {
        Expr::Lambda { params, .. } => exists|k: int| 0 <= k < params@.len() && (#[trigger] params@[k]).0@ == n,
        Expr::Block(ss, _) => stmts_bind(ss@, n),
        Expr::Build(ss, _) => stmts_bind(ss@, n),
        Expr::Guard { rest, .. } => stmts_bind(rest@, n),
        _ => false,
    }
}

/// Whether `n` is bound anywhere inside `e`.
pub open spec fn expr_binds(e: Expr, n: Seq<char>) -> bool
    decreases size(e), 1nat, 0nat,
{
    local_binds(e, n) || binds_among(e, n, children(e).len())
}

/// Whether `n` is bound inside one of the first `k` direct sub-expressions of `e`.
pub open spec fn binds_among(e: Expr, n: Seq<char>, k: nat) -> bool
    decreases size(e), 0nat, k,
    via binds_among_decreases
{
    if k == 0 || k > children(e).len() {
        false
    } else {
        binds_among(e, n, (k - 1) as nat) || expr_binds(children(e)[k - 1], n)
    }
}

#[via_fn]
proof fn binds_among_decreases(e: Expr, n: Seq<char>, k: nat) {
    lemma_children_smaller(e);
}

/// Whether the declaration `d` binds `n` anywhere: in a parameter, or in its body.
pub open spec fn decl_binds(d: FnDecl, n: Seq<char>) -> bool {
    ||| exists|k: int| 0 <= k < d.params@.len() && pattern_binds(#[trigger] d.params@[k], n)
    ||| stmts_bind(d.body@, n)
    ||| exists|k: int| 0 <= k < d.body@.len() && expr_binds(stmt_expr(#[trigger] d.body@[k]), n)
}

/// Whether some declaration binds `n` as a local name: an occurrence of
/// `n` may then mean the local rather than the function.
pub open spec fn program_binds(fns: Seq<FnDecl>, n: Seq<char>) -> bool {
    exists|j: int| 0 <= j < fns.len() && decl_binds(#[trigger] fns[j], n)
}

/// Whether the bare name `n` is an alias of `q`: it is declared, only by
/// clones, they stand for `q` and nothing else, and nothing binds `n` as a
/// local name or asks, by `skip`, that it be kept.
pub open spec fn aliased(fns: Seq<FnDecl>, skip: Seq<String>, n: Seq<char>, q: Seq<char>) -> bool {
    &&& is_bare(n) && declared(fns, n) && only_clones(fns, n)
    &&& bare_target(fns, n, q)
    &&& forall|q2: Seq<char>| #[trigger] bare_target(fns, n, q2) ==> q2 == q
    &&& !listed(skip, n) && !program_binds(fns, n)
}

/// Whether `r` lists exactly the aliases, each bare name once.
pub open spec fn alias_table_of(r: Seq<(String, String)>, fns: Seq<FnDecl>, skip: Seq<String>) -> bool {
    &&& forall|k: int| 0 <= k < r.len() ==> aliased(fns, skip, (#[trigger] r[k]).0@, r[k].1@)
    &&& forall|n: Seq<char>, q: Seq<char>|
        #[trigger] aliased(fns, skip, n, q) ==> exists|k: int| 0 <= k < r.len() && (#[trigger] r[k]).0@ == n && r[k].1@ == q
    &&& forall|k1: int, k2: int| 0 <= k1 < k2 < r.len() ==> (#[trigger] r[k1]).0@ != (#[trigger] r[k2]).0@
}

/// The spelling `n` takes by the table `al`.
pub open spec fn alias_to(al: Seq<(String, String)>, n: Seq<char>) -> Seq<char> {
    match table_last(al, n) {
        Some(q) => q,
        None => n,
    }
}

/// `b` is `a` with every name it mentions respelled by `al`.
pub open spec fn renamed(a: Expr, b: Expr, al: Seq<(String, String)>) -> bool
    decreases size(a), 1nat, 0nat,
{
    match (a, b) {
        (Expr::Ident(x, s), Expr::Ident(y, t)) => s == t && y@ == alias_to(al, x@),
        (Expr::Partial(x, s), Expr::Partial(y, t)) => s == t && y@ == alias_to(al, x@),
        _ => !(a is Ident) && !(a is Partial) && same_shape(a, b) && children(b).len() == children(a).len()
            && renamed_among(a, children(b), al, children(a).len()),
    }
}

/// The first `k` direct sub-expressions of `a` respelled into `bs`.
pub open spec fn renamed_among(a: Expr, bs: Seq<Expr>, al: Seq<(String, String)>, k: nat) -> bool
    decreases size(a), 0nat, k,
    via renamed_among_decreases
{
    if k == 0 {
        true
    } else if k > children(a).len() || k > bs.len() {
        false
    } else {
        renamed_among(a, bs, al, (k - 1) as nat) && renamed(children(a)[k - 1], bs[k - 1], al)
    }
}

#[via_fn]
proof fn renamed_among_decreases(a: Expr, bs: Seq<Expr>, al: Seq<(String, String)>, k: nat) {
    lemma_children_smaller(a);
}

/// `e` is `d` with every statement's expression respelled by `al`.
pub open spec fn decl_renamed(d: FnDecl, e: FnDecl, al: Seq<(String, String)>) -> bool {
    &&& e.name == d.name && e.is_pub == d.is_pub && e.span == d.span && e.params == d.params
    &&& e.file == d.file && e.synthetic == d.synthetic
    &&& e.body@.len() == d.body@.len()
    &&& forall|k: int| 0 <= k < d.body@.len() ==> #[trigger] same_stmt_shape(d.body@[k], e.body@[k])
    &&& forall|k: int| 0 <= k < d.body@.len() ==> #[trigger] renamed(stmt_expr(d.body@[k]), stmt_expr(e.body@[k]), al)
}

/// The declarations of `fns` that stay: all but the clones of an alias.
pub open spec fn kept_decls(fns: Seq<FnDecl>, al: Seq<(String, String)>) -> Seq<FnDecl>
    decreases fns.len(),
{
    if fns.len() == 0 {
        Seq::empty()
    } else {
        kept_decls(fns.drop_last(), al) + if fns.last().synthetic && table_last(al, fns.last().name@) is Some {
            Seq::<FnDecl>::empty()
        } else {
            seq![fns.last()]
        }
    }
}

} // verus!

verus! {

proof fn lemma_fields_bind_grows(p: Pattern, n: Seq<char>, k: nat, m: nat)
    requires
        k <= m,
        fields_bind(p, n, k),
        p is Ctor,
        m <= p->Ctor_fields@.len(),
    ensures
        fields_bind(p, n, m),
    decreases m - k,
{
    if k < m {
        lemma_fields_bind_grows(p, n, k, (m - 1) as nat);
    }
}

proof fn lemma_entries_bind_grows(p: Pattern, n: Seq<char>, k: nat, m: nat)
    requires
        k <= m,
        entries_bind(p, n, k),
        p is Keyed,
        m <= p->Keyed_entries@.len(),
    ensures
        entries_bind(p, n, m),
    decreases m - k,
{
    if k < m {
        lemma_entries_bind_grows(p, n, k, (m - 1) as nat);
    }
}

proof fn lemma_binds_among_grows(e: Expr, n: Seq<char>, k: nat, m: nat)
    requires
        k <= m <= children(e).len(),
        binds_among(e, n, k),
    ensures
        binds_among(e, n, m),
    decreases m - k,
{
    if k < m {
        lemma_binds_among_grows(e, n, k, (m - 1) as nat);
    }
}

fn pattern_binds_exec(p: &Pattern, n: &str) -> (r: bool)
    ensures
        r == pattern_binds(*p, n@),
    decreases *p,
{
    match p {
        Pattern::Var(x, _) => same_text(x.as_str(), n),
        Pattern::Annotated { name, .. } => same_text(name.as_str(), n),
        Pattern::Ctor { fields, whole, .. } => {
            match whole {
                Some(w) => {
                    if same_text(w.as_str(), n) {
                        return true;
                    }
                },
                None => {},
            }
            let mut i: usize = 0;
            while i < fields.len()
                invariant
                    i <= fields@.len(),
                    p is Ctor && p->Ctor_fields == *fields,
                    !fields_bind(*p, n@, i as nat),
                decreases fields@.len() - i,
            {
                assert(decreases_to!(*p => fields@[i as int])) by {
                    assert(decreases_to!(*p => p->Ctor_fields));
                    assert(decreases_to!(p->Ctor_fields => p->Ctor_fields@));
                    assert(decreases_to!(p->Ctor_fields@ => p->Ctor_fields@[i as int]));
                }
                if pattern_binds_exec(&fields[i], n) {
                    proof {
                        lemma_fields_bind_grows(*p, n@, (i + 1) as nat, fields@.len());
                    }
                    return true;
                }
                i += 1;
            }
            false
        },
        Pattern::Keyed { entries, .. } => {
            let mut i: usize = 0;
            while i < entries.len()
                invariant
                    i <= entries@.len(),
                    p is Keyed && p->Keyed_entries == *entries,
                    !entries_bind(*p, n@, i as nat),
                decreases entries@.len() - i,
            {
                assert(decreases_to!(*p => entries@[i as int].1)) by {
                    assert(decreases_to!(*p => p->Keyed_entries));
                    assert(decreases_to!(p->Keyed_entries => p->Keyed_entries@));
                    assert(decreases_to!(p->Keyed_entries@ => p->Keyed_entries@[i as int]));
                    assert(decreases_to!(p->Keyed_entries@[i as int] => p->Keyed_entries@[i as int].1));
                }
                if pattern_binds_exec(&entries[i].1, n) {
                    proof {
                        lemma_entries_bind_grows(*p, n@, (i + 1) as nat, entries@.len());
                    }
                    return true;
                }
                i += 1;
            }
            false
        },
        _ => false,
    }
}

fn stmts_bind_exec(ss: &Vec<Stmt>, n: &str) -> (r: bool)
    ensures
        r == stmts_bind(ss@, n@),
{
    let mut k: usize = 0;
    while k < ss.len()
        invariant
            k <= ss@.len(),
            forall|q: int| 0 <= q < k ==> !stmt_binds(#[trigger] ss@[q], n@),
        decreases ss@.len() - k,
    {
        match &ss[k] {
            Stmt::Bind { pattern, .. } => {
                if pattern_binds_exec(pattern, n) {
                    return true;
                }
            },
            _ => {},
        }
        k += 1;
    }
    false
}

fn local_binds_exec(e: &Expr, n: &str) -> (r: bool)
    ensures
        r == local_binds(*e, n@),
{
    match e {
        Expr::Lambda { params, .. } => {
            let mut k: usize = 0;
            while k < params.len()
                invariant
                    k <= params@.len(),
                    *e is Lambda && e->Lambda_params == *params,
                    forall|q: int| 0 <= q < k ==> (#[trigger] params@[q]).0@ != n@,
                decreases params@.len() - k,
            {
                if same_text(params[k].0.as_str(), n) {
                    assert(e->Lambda_params == *params);
                    assert(e->Lambda_params@[k as int].0@ == n@);
                    return true;
                }
                k += 1;
            }
            false
        },
        Expr::Block(ss, _) => stmts_bind_exec(ss, n),
        Expr::Build(ss, _) => stmts_bind_exec(ss, n),
        Expr::Guard { rest, .. } => stmts_bind_exec(rest, n),
        _ => false,
    }
}

fn expr_binds_exec(e: &Expr, n: &str) -> (r: bool)
    ensures
        r == expr_binds(*e, n@),
    decreases size(*e),
{
    if local_binds_exec(e, n) {
        return true;
    }
    let kids = for_each_child(e);
    proof {
        lemma_children_smaller(*e);
    }
    let mut i: usize = 0;
    while i < kids.len()
        invariant
            i <= kids@.len(),
            refs(kids@) == children(*e),
            !binds_among(*e, n@, i as nat),
            forall|j: int| 0 <= j < children(*e).len() ==> size(#[trigger] children(*e)[j]) < size(*e),
        decreases kids@.len() - i,
    {
        let c = kids[i];
        assert(refs(kids@)[i as int] == *c);
        if expr_binds_exec(c, n) {
            proof {
                lemma_binds_among_grows(*e, n@, (i + 1) as nat, children(*e).len());
            }
            return true;
        }
        i += 1;
    }
    false
}

fn decl_binds_exec(d: &FnDecl, n: &str) -> (r: bool)
    ensures
        r == decl_binds(*d, n@),
{
    let mut k: usize = 0;
    while k < d.params.len()
        invariant
            k <= d.params@.len(),
            forall|q: int| 0 <= q < k ==> !pattern_binds(#[trigger] d.params@[q], n@),
        decreases d.params@.len() - k,
    {
        if pattern_binds_exec(&d.params[k], n) {
            return true;
        }
        k += 1;
    }
    if stmts_bind_exec(&d.body, n) {
        return true;
    }
    let mut k: usize = 0;
    while k < d.body.len()
        invariant
            k <= d.body@.len(),
            forall|q: int| 0 <= q < d.params@.len() ==> !pattern_binds(#[trigger] d.params@[q], n@),
            !stmts_bind(d.body@, n@),
            forall|q: int| 0 <= q < k ==> !expr_binds(stmt_expr(#[trigger] d.body@[q]), n@),
        decreases d.body@.len() - k,
    {
        if expr_binds_exec(stmt_expr_of(&d.body[k]), n) {
            return true;
        }
        k += 1;
    }
    false
}

fn program_binds_exec(fns: &Vec<FnDecl>, n: &str) -> (r: bool)
    ensures
        r == program_binds(fns@, n@),
{
    let mut j: usize = 0;
    while j < fns.len()
        invariant
            j <= fns@.len(),
            forall|q: int| 0 <= q < j ==> !decl_binds(#[trigger] fns@[q], n@),
        decreases fns@.len() - j,
    {
        if decl_binds_exec(&fns[j], n) {
            return true;
        }
        j += 1;
    }
    false
}

} // verus!

verus! {

fn is_bare_exec(n: &str) -> (r: bool)
    ensures
        r == is_bare(n@),
{
    let cs = crate::text::chars_of(n);
    crate::text::find_char(cs.as_slice(), '/').is_none()
}

fn qualifies_exec(q: &str, n: &str) -> (r: bool)
    ensures
        r == qualifies(q@, n@),
{
    let qs = crate::text::chars_of(q);
    let ns = crate::text::chars_of(n);
    if qs.len() <= ns.len() {
        return false;
    }
    let ends = crate::text::suffix_at(qs.as_slice(), 0, qs.len(), ns.as_slice());
    assert(qs@.subrange(0, qs@.len() as int) =~= qs@);
    ends && qs[qs.len() - ns.len() - 1] == '/'
}

/// The distinct qualified declarations the clones spelled like `fns[i]`
/// stand for.
fn targets_of(fns: &Vec<FnDecl>, i: usize) -> (r: Vec<String>)
    requires
        i < fns@.len(),
    ensures
        forall|q: Seq<char>| #[trigger] bare_target(fns@, fns@[i as int].name@, q) <==> listed(r@, q),
        forall|k1: int, k2: int| 0 <= k1 < k2 < r@.len() ==> (#[trigger] r@[k1])@ != (#[trigger] r@[k2])@,
{
    let n = fns[i].name.as_str();
    let ghost ng = fns@[i as int].name@;
    let mut out: Vec<String> = Vec::new();
    let mut a: usize = 0;
    while a < fns.len()
        invariant
            a <= fns@.len(),
            n@ == ng,
            forall|q: Seq<char>|
                listed(out@, q) <==> exists|x: int, y: int|
                    0 <= x < a && 0 <= y < fns@.len() && #[trigger] target_pair(fns@[x], fns@[y], ng, q),
            forall|k1: int, k2: int| 0 <= k1 < k2 < out@.len() ==> (#[trigger] out@[k1])@ != (#[trigger] out@[k2])@,
        decreases fns@.len() - a,
    {
        let d = &fns[a];
        if d.synthetic && same_text(d.name.as_str(), n) {
            let mut b: usize = 0;
            while b < fns.len()
                invariant
                    a < fns@.len(),
                    b <= fns@.len(),
                    *d == fns@[a as int],
                    d.synthetic && d.name@ == ng,
                    n@ == ng,
                    forall|q: Seq<char>|
                        listed(out@, q) <==> (exists|x: int, y: int|
                            0 <= x < a && 0 <= y < fns@.len() && #[trigger] target_pair(fns@[x], fns@[y], ng, q)) || (
                        exists|y: int| 0 <= y < b && #[trigger] target_pair(fns@[a as int], fns@[y], ng, q)),
                    forall|k1: int, k2: int|
                        0 <= k1 < k2 < out@.len() ==> (#[trigger] out@[k1])@ != (#[trigger] out@[k2])@,
                decreases fns@.len() - b,
            {
                let t = &fns[b];
                let ghost before = out@;
                let cond = !t.synthetic && same_text(t.file.as_str(), d.file.as_str()) && t.span == d.span
                    && t.params.len() == d.params.len() && qualifies_exec(t.name.as_str(), n);
                assert(forall|q: Seq<char>| #[trigger] target_pair(fns@[a as int], fns@[b as int], ng, q) <==> (cond && q
                    == t.name@));
                if cond && !listed_exec(&out, t.name.as_str()) {
                    out.push(t.name.clone());
                    proof {
                        assert forall|k1: int, k2: int| 0 <= k1 < k2 < out@.len() implies (#[trigger] out@[k1])@
                            != (#[trigger] out@[k2])@ by {
                            if k2 == before.len() {
                                assert(out@[k1] == before[k1]);
                            } else {
                                assert(out@[k1] == before[k1] && out@[k2] == before[k2]);
                            }
                        }
                    }
                }
                proof {
                    assert forall|q: Seq<char>| listed(out@, q) <==> (listed(before, q) || (cond && q == t.name@)) by {
                        if listed(out@, q) && out@.len() > before.len() {
                            let k = choose|k: int| 0 <= k < out@.len() && (#[trigger] out@[k])@ == q;
                            if k < before.len() {
                                assert(before[k] == out@[k]);
                            }
                        }
                        if listed(before, q) && out@.len() > before.len() {
                            let k = choose|k: int| 0 <= k < before.len() && (#[trigger] before[k])@ == q;
                            assert(out@[k] == before[k]);
                        }
                        if cond && q == t.name@ && out@.len() > before.len() {
                            assert(out@[before.len() as int]@ == q);
                        }
                    }
                    assert forall|q: Seq<char>|
                        (exists|y: int| 0 <= y < b + 1 && #[trigger] target_pair(fns@[a as int], fns@[y], ng, q)) <==> ((
                        exists|y: int| 0 <= y < b && #[trigger] target_pair(fns@[a as int], fns@[y], ng, q))
                            || target_pair(fns@[a as int], fns@[b as int], ng, q)) by {
                        if exists|y: int| 0 <= y < b + 1 && #[trigger] target_pair(fns@[a as int], fns@[y], ng, q) {
                            let y = choose|y: int| 0 <= y < b + 1 && #[trigger] target_pair(fns@[a as int], fns@[y], ng, q);
                            if y < b {
                                assert(exists|y2: int| 0 <= y2 < b && #[trigger] target_pair(fns@[a as int], fns@[y2], ng, q));
                            }
                        }
                        if target_pair(fns@[a as int], fns@[b as int], ng, q) {
                            assert(exists|y2: int| 0 <= y2 < b + 1 && #[trigger] target_pair(fns@[a as int], fns@[y2], ng, q));
                        }
                    }
                    assert forall|q: Seq<char>|
                        listed(out@, q) <==> (exists|x: int, y: int|
                            0 <= x < a && 0 <= y < fns@.len() && #[trigger] target_pair(fns@[x], fns@[y], ng, q)) || (
                        exists|y: int| 0 <= y < b + 1 && #[trigger] target_pair(fns@[a as int], fns@[y], ng, q)) by {
                        assert(listed(out@, q) <==> (listed(before, q) || (cond && q == t.name@)));
                        assert(target_pair(fns@[a as int], fns@[b as int], ng, q) <==> (cond && q == t.name@));
                    }
                }
                b += 1;
            }
        } else {
            assert forall|q: Seq<char>, y: int| !#[trigger] target_pair(fns@[a as int], fns@[y], ng, q) by {}
        }
        a += 1;
    }
    out
}

pub(crate) fn listed_exec(t: &Vec<String>, n: &str) -> (r: bool)
    ensures
        r == listed(t@, n@),
{
    let mut k: usize = 0;
    while k < t.len()
        invariant
            k <= t@.len(),
            forall|q: int| 0 <= q < k ==> (#[trigger] t@[q])@ != n@,
        decreases t@.len() - k,
    {
        if same_text(t[k].as_str(), n) {
            assert(t@[k as int]@ == n@);
            return true;
        }
        k += 1;
    }
    false
}

fn only_clones_exec(fns: &Vec<FnDecl>, n: &str) -> (r: bool)
    ensures
        r == only_clones(fns@, n@),
{
    let mut j: usize = 0;
    while j < fns.len()
        invariant
            j <= fns@.len(),
            forall|q: int| 0 <= q < j && (#[trigger] fns@[q]).name@ == n@ ==> fns@[q].synthetic,
        decreases fns@.len() - j,
    {
        if !fns[j].synthetic && same_text(fns[j].name.as_str(), n) {
            return false;
        }
        j += 1;
    }
    true
}

} // verus!

verus! {

fn table_has(r: &Vec<(String, String)>, n: &str) -> (res: bool)
    ensures
        res == exists|k: int| 0 <= k < r@.len() && (#[trigger] r@[k]).0@ == n@,
{
    let mut k: usize = 0;
    while k < r.len()
        invariant
            k <= r@.len(),
            forall|q: int| 0 <= q < k ==> (#[trigger] r@[q]).0@ != n@,
        decreases r@.len() - k,
    {
        if same_text(r[k].0.as_str(), n) {
            assert(r@[k as int].0@ == n@);
            return true;
        }
        k += 1;
    }
    false
}

/// The bare names that are aliases, each beside the qualified declaration
/// it stands for, in the order the names are first declared; `skip` names
/// any that must be kept as they are.
pub fn bare_aliases(fns: &Vec<FnDecl>, skip: &Vec<String>) -> (r: Vec<(String, String)>)
    ensures
        alias_table_of(r@, fns@, skip@),
{
    let mut r: Vec<(String, String)> = Vec::new();
    let mut i: usize = 0;
    while i < fns.len()
        invariant
            i <= fns@.len(),
            forall|k: int| 0 <= k < r@.len() ==> aliased(fns@, skip@, (#[trigger] r@[k]).0@, r@[k].1@),
            forall|j: int, q: Seq<char>|
                0 <= j < i && #[trigger] aliased(fns@, skip@, (#[trigger] fns@[j]).name@, q) ==> exists|k: int|
                    0 <= k < r@.len() && (#[trigger] r@[k]).0@ == fns@[j].name@ && r@[k].1@ == q,
            forall|k1: int, k2: int| 0 <= k1 < k2 < r@.len() ==> (#[trigger] r@[k1]).0@ != (#[trigger] r@[k2]).0@,
        decreases fns@.len() - i,
    {
        let n = fns[i].name.as_str();
        let ghost ng = n@;
        let ghost before = r@;
        let mut added = false;
        if is_bare_exec(n) && !table_has(&r, n) && only_clones_exec(fns, n) && !listed_exec(skip, n) {
            let targets = targets_of(fns, i);
            if targets.len() == 1 && !program_binds_exec(fns, n) {
                assert(declared(fns@, ng)) by {
                    assert(fns@[i as int].name@ == ng);
                }
                assert(listed(targets@, targets@[0]@));
                assert forall|q2: Seq<char>| #[trigger] bare_target(fns@, ng, q2) implies q2 == targets@[0]@ by {
                    assert(listed(targets@, q2));
                }
                r.push((n.to_string(), targets[0].clone()));
                added = true;
                proof {
                    assert(r@[before.len() as int].0@ == ng);
                }
            } else {
                proof {
                    assert forall|q: Seq<char>| !#[trigger] aliased(fns@, skip@, ng, q) by {
                        if aliased(fns@, skip@, ng, q) && !program_binds(fns@, ng) {
                            assert(listed(targets@, q));
                            if targets@.len() == 0 {
                            } else {
                                let k = choose|k: int| 0 <= k < targets@.len() && (#[trigger] targets@[k])@ == q;
                                let other = if k == 0 { 1int } else { 0int };
                                assert(bare_target(fns@, ng, targets@[other]@));
                                assert(targets@[other]@ == q);
                            }
                        }
                    }
                }
            }
        }
        proof {
            assert forall|k: int| 0 <= k < r@.len() implies aliased(fns@, skip@, (#[trigger] r@[k]).0@, r@[k].1@) by {
                if k < before.len() {
                    assert(r@[k] == before[k]);
                }
            }
            assert forall|k1: int, k2: int| 0 <= k1 < k2 < r@.len() implies (#[trigger] r@[k1]).0@
                != (#[trigger] r@[k2]).0@ by {
                if k2 < before.len() {
                    assert(r@[k1] == before[k1] && r@[k2] == before[k2]);
                } else {
                    assert(r@[k1] == before[k1]);
                }
            }
            assert forall|j: int, q: Seq<char>|
                0 <= j < i + 1 && #[trigger] aliased(fns@, skip@, (#[trigger] fns@[j]).name@, q) implies exists|k: int|
                    0 <= k < r@.len() && (#[trigger] r@[k]).0@ == fns@[j].name@ && r@[k].1@ == q by {
                if j < i {
                    let k = choose|k: int| 0 <= k < before.len() && (#[trigger] before[k]).0@ == fns@[j].name@ && before[k].1@ == q;
                    assert(r@[k] == before[k]);
                } else if added {
                    assert(r@[before.len() as int].0@ == ng);
                    assert(bare_target(fns@, ng, r@[before.len() as int].1@));
                } else if exists|k: int| 0 <= k < before.len() && (#[trigger] before[k]).0@ == ng {
                    let k = choose|k: int| 0 <= k < before.len() && (#[trigger] before[k]).0@ == ng;
                    assert(aliased(fns@, skip@, before[k].0@, before[k].1@));
                    assert(bare_target(fns@, ng, q));
                    assert(r@[k] == before[k]);
                } else {
                    assert(!is_bare(ng) || !only_clones(fns@, ng) || listed(skip@, ng) || !aliased(fns@, skip@, ng, q));
                }
            }
        }
        i += 1;
    }
    proof {
        assert forall|n: Seq<char>, q: Seq<char>| #[trigger] aliased(fns@, skip@, n, q) implies exists|k: int|
            0 <= k < r@.len() && (#[trigger] r@[k]).0@ == n && r@[k].1@ == q by {
            let j = choose|j: int| 0 <= j < fns@.len() && (#[trigger] fns@[j]).name@ == n;
            assert(aliased(fns@, skip@, fns@[j].name@, q));
        }
    }
    r
}

} // verus!

verus! {

proof fn lemma_renamed_prefix(a: Expr, bs: Seq<Expr>, cs: Seq<Expr>, al: Seq<(String, String)>, k: nat)
    requires
        renamed_among(a, bs, al, k),
        k <= bs.len() && k <= cs.len(),
        forall|i: int| 0 <= i < k ==> bs[i] == cs[i],
    ensures
        renamed_among(a, cs, al, k),
    decreases k,
{
    if k > 0 {
        lemma_renamed_prefix(a, bs, cs, al, (k - 1) as nat);
    }
}

/// `e` with every name it mentions respelled by `al`.
fn rename_expr(e: Expr, al: &Vec<(String, String)>) -> (r: Expr)
    ensures
        renamed(e, r, al@),
    decreases size(e),
{
    match e {
        Expr::Ident(x, s) => {
            return Expr::Ident(settle(al, x), s);
        },
        Expr::Partial(x, s) => {
            return Expr::Partial(settle(al, x), s);
        },
        _ => {},
    }
    let ghost g = e;
    let n = for_each_child(&e).len();
    let mut holes: Vec<Expr> = Vec::new();
    while holes.len() < n
        invariant
            holes@.len() <= n,
        decreases n - holes@.len(),
    {
        holes.push(Expr::Ident(String::new(), Span::at(0, 0)));
    }
    let (shell, kids) = swap_children(e, holes);
    let mut kids = kids;
    let mut outs: Vec<Expr> = Vec::new();
    proof {
        lemma_children_smaller(g);
    }
    while kids.len() > 0
        invariant
            g == e,
            n == children(g).len(),
            outs@.len() + kids@.len() == n,
            kids@ == children(g).subrange(outs@.len() as int, n as int),
            renamed_among(g, outs@, al@, outs@.len() as nat),
            forall|i: int| 0 <= i < children(g).len() ==> size(#[trigger] children(g)[i]) < size(g),
        decreases kids@.len(),
    {
        let k = kids.remove(0);
        assert(k == children(g)[outs@.len() as int]);
        let ghost before = outs@;
        let x = rename_expr(k, al);
        outs.push(x);
        proof {
            lemma_renamed_prefix(g, before, outs@, al@, before.len() as nat);
        }
    }
    let (mid, _) = swap_children(shell, outs);
    assert(same_shape(g, mid));
    mid
}

fn rename_decl(d: FnDecl, al: &Vec<(String, String)>) -> (r: FnDecl)
    ensures
        decl_renamed(d, r, al@),
{
    let ghost g = d;
    let FnDecl { name, is_pub, span, params, body, file, synthetic } = d;
    let ghost orig = body@;
    let mut rest = body;
    let mut out: Vec<Stmt> = Vec::new();
    while rest.len() > 0
        invariant
            out@.len() + rest@.len() == orig.len(),
            rest@ == orig.subrange(out@.len() as int, orig.len() as int),
            forall|k: int| 0 <= k < out@.len() ==> #[trigger] same_stmt_shape(orig[k], out@[k]),
            forall|k: int| 0 <= k < out@.len() ==> #[trigger] renamed(stmt_expr(orig[k]), stmt_expr(out@[k]), al@),
        decreases rest@.len(),
    {
        let s = rest.remove(0);
        assert(s == orig[out@.len() as int]);
        let (shell, x) = swap_stmt(s, Expr::Ident(String::new(), Span::at(0, 0)));
        let y = rename_expr(x, al);
        let (t, _) = swap_stmt(shell, y);
        out.push(t);
    }
    FnDecl { name, is_pub, span, params, body: out, file, synthetic }
}

proof fn lemma_table_last_key(r: Seq<(String, String)>, n: Seq<char>)
    ensures
        (table_last(r, n) is Some) <==> exists|k: int| 0 <= k < r.len() && (#[trigger] r[k]).0@ == n,
    decreases r.len(),
{
    if r.len() > 0 {
        lemma_table_last_key(r.drop_last(), n);
        if exists|k: int| 0 <= k < r.len() && (#[trigger] r[k]).0@ == n {
            let k = choose|k: int| 0 <= k < r.len() && (#[trigger] r[k]).0@ == n;
            if k < r.len() - 1 {
                assert(r.drop_last()[k] == r[k]);
            }
        }
        if exists|k: int| 0 <= k < r.len() - 1 && (#[trigger] r.drop_last()[k]).0@ == n {
            let k = choose|k: int| 0 <= k < r.len() - 1 && (#[trigger] r.drop_last()[k]).0@ == n;
            assert(r[k] == r.drop_last()[k]);
        }
    }
}

/// Where the whole group of a bare name is clones of one qualified
/// declaration, and nothing binds that name as a local or asks by `skip`
/// that it be kept, every bare reference is respelled as the qualified
/// one and the clones are dropped. The aliases are handed back; where
/// there are none the program is left as it is.
pub fn canonicalize_bare_aliases(program: &mut Program, skip: &Vec<String>) -> (r: Vec<(String, String)>)
    ensures
        alias_table_of(r@, old(program).fns@, skip@),
        r@.len() == 0 ==> *final(program) == *old(program),
        r@.len() > 0 ==> {
            let kept = kept_decls(old(program).fns@, r@);
            &&& final(program).types == old(program).types
            &&& final(program).fns@.len() == kept.len()
            &&& forall|i: int| 0 <= i < kept.len() ==> #[trigger] decl_renamed(kept[i], final(program).fns@[i], r@)
        },
{
    let aliases = bare_aliases(&program.fns, skip);
    if aliases.len() == 0 {
        return aliases;
    }
    let ghost orig = program.fns@;
    let mut rest: Vec<FnDecl> = Vec::new();
    std::mem::swap(&mut rest, &mut program.fns);
    let mut out: Vec<FnDecl> = Vec::new();
    let mut taken: usize = 0;
    let total = rest.len();
    while rest.len() > 0
        invariant
            orig.len() == total,
            taken + rest@.len() == orig.len(),
            rest@ == orig.subrange(taken as int, orig.len() as int),
            out@.len() == kept_decls(orig.subrange(0, taken as int), aliases@).len(),
            forall|i: int|
                0 <= i < out@.len() ==> #[trigger] decl_renamed(
                    kept_decls(orig.subrange(0, taken as int), aliases@)[i],
                    out@[i],
                    aliases@,
                ),
        decreases rest@.len(),
    {
        let d = rest.remove(0);
        assert(d == orig[taken as int]);
        let ghost k0 = kept_decls(orig.subrange(0, taken as int), aliases@);
        assert(orig.subrange(0, taken + 1).drop_last() =~= orig.subrange(0, taken as int));
        proof {
            lemma_table_last_key(aliases@, d.name@);
        }
        let drop = d.synthetic && table_has(&aliases, d.name.as_str());
        taken += 1;
        if !drop {
            let ghost dg = d;
            let e = rename_decl(d, &aliases);
            out.push(e);
            proof {
                let k1 = kept_decls(orig.subrange(0, taken as int), aliases@);
                assert(k1 =~= k0.push(dg));
                assert forall|i: int| 0 <= i < out@.len() implies #[trigger] decl_renamed(k1[i], out@[i], aliases@) by {
                    if i < k0.len() {
                        assert(k1[i] == k0[i]);
                    }
                }
            }
        } else {
            proof {
                let k1 = kept_decls(orig.subrange(0, taken as int), aliases@);
                assert(k1 =~= k0);
            }
        }
    }
    assert(orig.subrange(0, orig.len() as int) =~= orig);
    program.fns = out;
    aliases
}

} // verus!
