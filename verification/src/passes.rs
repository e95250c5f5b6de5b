//! Passes over a whole program: the static hint a stack overflow is
//! reported with, and the rewrites that run after the checks.

use vstd::prelude::*;
use crate::ast::{
    children, for_each_child, lemma_children_smaller, lemma_parts_smaller, map_children, map_stmts, refs, same_shape,
    same_stmts_shape, size, stmt_expr, stmt_exprs, Expr, FnDecl, Program, Stmt,
};
use crate::diag::Span;
use crate::lexer::Op;

mod bare;
mod canon;
mod diamonds;
mod fuse;
mod hoist;
mod opacity;
mod prelude;
mod reads;

pub use self::hoist::{
    alike, binds_rep, body_hoists, chunk_for, count_alike, decl_hoisted, decl_hoists, first_of_kind, fns_hoists,
    hoist_repeated_strings, hoistable, hoistables, hoistables_among, hoisted_body, once_name, parts_alike, pure,
    repeated, repeated_upto, swapped, swapped_among, swapped_each,
};
pub use self::reads::{
    decl_mentions, decl_reads, desugar_field_reads, is_mention, is_read_call, keeps, kept, mentions, mentions_among,
    prune_unused_getters, read_somewhere, reads_among, reads_desugared, reads_done,
};
pub(crate) use self::bare::listed_exec;
pub(crate) use self::fuse::{in_list_file, short_name};
pub use self::fuse::{
    short_of, in_std_list, std_list_short, enumerable, FuseNames, table_enumerable, is_ident, subst, subst_among, within, uses_of, uses_among, capped, coll_use, is_coll_arg, coll_among, names_match, adapter_short, adapter_binding, bound_name, stmts_uses, sole_coll_use, subst_stmts, inlined, acc_name, elem_name, root_name, ident_at, call_at, lambda2_at, applied_to, plus_at, int_at, consumer_of, consumer_known, consumer_start, examined, fusable, wrapped, chain_len, chain_stop, chain_folds, fold_call, after_try, try_cost, fuses, is_stage, stage_count, stage_at, rechained, piped_form, fuses_piped, fuse_step, FuseTrace, fused_by, kids_fused_by, declared, listed, fold_decl, helper_decl, has_fold, first_fold, last_helper, names_of, fuse_names, stmts_fused_by, decl_fused, decls_fused, fuse_enumerable,
};
pub use self::prelude::{
    asks_among, decl_asks, expr_asks, failure_type, fields_ask, install_prelude, kept_types, pattern_asks, prelude_type,
    program_asks, refines_math_failure, wants_prelude, getter_arm, getter_binder, getter_reads, has_getter,
    synthesize_getters, wanted, wanted_in, prelude_installed, getters_synthesized, finish_program, stamp_file,
};
pub use self::bare::{
    alias_table_of, alias_to, aliased, bare_aliases, bare_target, binds_among, canonicalize_bare_aliases, decl_binds,
    decl_renamed, entries_bind, expr_binds, fields_bind, is_bare, kept_decls, local_binds, only_clones, pattern_binds,
    program_binds, qualifies, renamed, renamed_among, site_twin, stmt_binds, stmts_bind, target_pair,
};
pub use self::opacity::{
    at_span, binds_opened, expr_span, foreign_destructures, foreign_message, foreign_sites, is_foreign, opened, opened_among,
    params_opened, reports_foreign, span_of, base_of, export_of, module_of, private_among, private_here, private_message, private_sites,
    private_uses, reports_private,
};
pub use self::diamonds::{collapse_diamonds, first_decls, first_types, same_decl, same_type};
pub use self::canon::{
    alias_in, canon_name, canonicalize_types, decl_canon, field_canon, fields_canon, has_clones, pattern_canon, stmt_canon, type_canon,
};

verus! {

/// Whether `e` is a call whose head is the name `own`.
pub open spec fn is_call_of(e: Expr, own: Seq<char>) -> bool {
    match e {
        Expr::App { head, .. } => match *head {
            Expr::Ident(n, _) => n@ == own,
            _ => false,
        },
        _ => false,
    }
}

/// Whether `e` calls `own` anywhere inside it.
pub open spec fn calls(e: Expr, own: Seq<char>) -> bool
    decreases size(e), 1nat, 0nat,
{
    is_call_of(e, own) || calls_among(e, own, children(e).len())
}

/// Whether one of the first `n` direct sub-expressions of `e` calls `own`.
pub open spec fn calls_among(e: Expr, own: Seq<char>, n: nat) -> bool
    decreases size(e), 0nat, n,
    via calls_among_decreases
{
    if n == 0 || n > children(e).len() {
        false
    } else {
        calls_among(e, own, (n - 1) as nat) || calls(children(e)[n - 1], own)
    }
}

#[via_fn]
proof fn calls_among_decreases(e: Expr, own: Seq<char>, n: nat) {
    lemma_children_smaller(e);
}

/// Whether some `>>` inside `e` calls `own` in its right operand.
pub open spec fn seq_calls(e: Expr, own: Seq<char>) -> bool
    decreases size(e), 1nat, 0nat,
{
    (match e {
        Expr::Sequence(_, rhs, _) => calls(*rhs, own),
        _ => false,
    }) || seq_calls_among(e, own, children(e).len())
}

/// Whether one of the first `n` direct sub-expressions of `e` has a `>>`
/// that calls `own` on its right.
pub open spec fn seq_calls_among(e: Expr, own: Seq<char>, n: nat) -> bool
    decreases size(e), 0nat, n,
    via seq_calls_among_decreases
{
    if n == 0 || n > children(e).len() {
        false
    } else {
        seq_calls_among(e, own, (n - 1) as nat) || seq_calls(children(e)[n - 1], own)
    }
}

#[via_fn]
proof fn seq_calls_among_decreases(e: Expr, own: Seq<char>, n: nat) {
    lemma_children_smaller(e);
}

proof fn lemma_calls_among(e: Expr, own: Seq<char>, k: nat, m: nat)
    requires
        k <= m <= children(e).len(),
        calls_among(e, own, k),
    ensures
        calls_among(e, own, m),
    decreases m - k,
{
    if k < m {
        lemma_calls_among(e, own, k, (m - 1) as nat);
    }
}

proof fn lemma_seq_calls_among(e: Expr, own: Seq<char>, k: nat, m: nat)
    requires
        k <= m <= children(e).len(),
        seq_calls_among(e, own, k),
    ensures
        seq_calls_among(e, own, m),
    decreases m - k,
{
    if k < m {
        lemma_seq_calls_among(e, own, k, (m - 1) as nat);
    }
}

/// Whether a statement of `d` calls `d` itself in the right side of a `>>`.
pub open spec fn decl_loops(d: FnDecl) -> bool {
    exists|k: int| 0 <= k < d.body@.len() && #[trigger] seq_calls(stmt_expr(d.body@[k]), d.name@)
}

/// The first function that calls itself inside the right operand of a `>>`.
pub open spec fn first_looping(fns: Seq<FnDecl>) -> Option<Seq<char>>
    decreases fns.len(),
{
    if fns.len() == 0 {
        None
    } else if decl_loops(fns[0]) {
        Some(fns[0].name@)
    } else {
        first_looping(fns.drop_first())
    }
}

pub open spec fn hint_text(name: Seq<char>) -> Seq<char> {
    "\n  `"@ + name
        + "` calls itself in the right side of `>>`, which builds the whole chain before running any of it. `.` hands each step over as it goes."@
}

/// The hint a stack overflow gets for `fns`: nothing, or which function
/// builds an unbounded chain.
pub open spec fn hint_for(fns: Seq<FnDecl>) -> Seq<char> {
    match first_looping(fns) {
        Some(name) => hint_text(name),
        None => Seq::empty(),
    }
}

pub open spec fn exhausted_text() -> Seq<char> {
    "error[runtime]: the program ran out of stack: recursion went deeper than the stack holds"@
}

fn mentions_call(e: &Expr, own: &str) -> (r: bool)
    ensures
        r == calls(*e, own@),
    decreases size(*e),
{
    if let Expr::App { head, .. } = e {
        if let Expr::Ident(n, _) = &**head {
            if crate::text::same_text(n.as_str(), own) {
                return true;
            }
        }
    }
    assert(!is_call_of(*e, own@));
    let kids = for_each_child(e);
    proof {
        lemma_children_smaller(*e);
    }
    let mut i: usize = 0;
    while i < kids.len()
        invariant
            i <= kids@.len(),
            refs(kids@) == children(*e),
            !is_call_of(*e, own@),
            forall|j: int| 0 <= j < children(*e).len() ==> size(#[trigger] children(*e)[j]) < size(*e),
            !calls_among(*e, own@, i as nat),
        decreases kids@.len() - i,
    {
        assert(refs(kids@)[i as int] == *kids@[i as int]);
        assert(size(children(*e)[i as int]) < size(*e));
        if mentions_call(kids[i], own) {
            assert(calls_among(*e, own@, (i + 1) as nat));
            proof {
                lemma_calls_among(*e, own@, (i + 1) as nat, children(*e).len());
            }
            return true;
        }
        i += 1;
    }
    false
}

fn seq_calls_self(e: &Expr, own: &str) -> (r: bool)
    ensures
        r == seq_calls(*e, own@),
    decreases size(*e),
{
    if let Expr::Sequence(_, rhs, _) = e {
        if mentions_call(&**rhs, own) {
            return true;
        }
    }
    let kids = for_each_child(e);
    proof {
        lemma_children_smaller(*e);
    }
    let mut i: usize = 0;
    while i < kids.len()
        invariant
            i <= kids@.len(),
            refs(kids@) == children(*e),
            !(match *e {
                Expr::Sequence(_, rhs, _) => calls(*rhs, own@),
                _ => false,
            }),
            forall|j: int| 0 <= j < children(*e).len() ==> size(#[trigger] children(*e)[j]) < size(*e),
            !seq_calls_among(*e, own@, i as nat),
        decreases kids@.len() - i,
    {
        assert(refs(kids@)[i as int] == *kids@[i as int]);
        assert(size(children(*e)[i as int]) < size(*e));
        if seq_calls_self(kids[i], own) {
            assert(seq_calls_among(*e, own@, (i + 1) as nat));
            proof {
                lemma_seq_calls_among(*e, own@, (i + 1) as nat, children(*e).len());
            }
            return true;
        }
        i += 1;
    }
    false
}

fn stmt_expr_ref(s: &Stmt) -> (r: &Expr)
    ensures
        *r == stmt_expr(*s),
{
    match s {
        Stmt::Bind { expr, .. } => expr,
        Stmt::Expr(e) => e,
        Stmt::Assign { value, .. } => value,
    }
}

/// The first function that calls itself inside the right operand of a `>>`.
fn seq_recursive_fn(program: &Program) -> (r: Option<&String>)
    ensures
        match r {
            Some(name) => first_looping(program.fns@) == Some(name@),
            None => first_looping(program.fns@) is None,
        },
{
    let fns = &program.fns;
    let mut i: usize = 0;
    assert(fns@.subrange(0, fns@.len() as int) =~= fns@);
    while i < fns.len()
        invariant
            i <= fns@.len(),
            fns@ == program.fns@,
            first_looping(fns@) == first_looping(fns@.subrange(i as int, fns@.len() as int)),
        decreases fns@.len() - i,
    {
        let decl = &fns[i];
        let ghost rest = fns@.subrange(i as int, fns@.len() as int);
        assert(rest[0] == *decl);
        assert(rest.drop_first() =~= fns@.subrange(i + 1, fns@.len() as int));
        let mut k: usize = 0;
        while k < decl.body.len()
            invariant
                k <= decl.body@.len(),
                rest.len() > 0,
                fns@ == program.fns@,
                rest[0] == *decl,
                first_looping(fns@) == first_looping(rest),
                forall|j: int| 0 <= j < k ==> !#[trigger] seq_calls(stmt_expr(decl.body@[j]), decl.name@),
            decreases decl.body@.len() - k,
        {
            if seq_calls_self(stmt_expr_ref(&decl.body[k]), decl.name.as_str()) {
                assert(decl_loops(*decl));
                return Some(&decl.name);
            }
            k += 1;
        }
        assert(!decl_loops(*decl));
        i += 1;
    }
    None
}

/// The hint alone, so the interpreter can append it to the message its own
/// frame guard raises and the two engines say one sentence.
pub fn stack_hint(program: &Program) -> (s: String)
    ensures
        s@ == hint_for(program.fns@),
{
    match seq_recursive_fn(program) {
        Some(name) => {
            let mut m: Vec<char> = Vec::new();
            crate::text::push_str(&mut m, "\n  `");
            crate::text::push_str(&mut m, name.as_str());
            crate::text::push_str(
                &mut m,
                "` calls itself in the right side of `>>`, which builds the whole chain before running any of it. `.` hands each step over as it goes.",
            );
            assert(m@ =~= hint_text(name@));
            crate::text::string_from_chars(m.as_slice())
        },
        None => {
            let s = String::new();
            assert(s@ =~= Seq::<char>::empty());
            s
        },
    }
}

/// What a stack overflow is reported as: one sentence, with the hint when a
/// program is at hand and one of its functions builds a chain by calling
/// itself on the right of `>>`.
pub fn stack_exhausted(program: Option<&Program>) -> (s: String)
    ensures
        s@ == exhausted_text() + match program {
            Some(p) => hint_for(p.fns@),
            None => Seq::empty(),
        },
{
    let mut m: Vec<char> = Vec::new();
    crate::text::push_str(
        &mut m,
        "error[runtime]: the program ran out of stack: recursion went deeper than the stack holds",
    );
    match program {
        Some(p) => {
            let hint = stack_hint(p);
            crate::text::push_str(&mut m, hint.as_str());
        },
        None => {
            assert(m@ =~= exhausted_text() + Seq::<char>::empty());
        },
    }
    crate::text::string_from_chars(m.as_slice())
}

} // verus!


verus! {

/// Whether `b` is `if (l == r) false true` written at `span`: the denial of
/// an `==` arm.
pub open spec fn is_denial(b: Expr, span: Span) -> bool {
    &&& b matches Expr::App { head, args, span: s, piped } && s == span && !piped && args@.len() == 3
    &&& *b->head matches Expr::Ident(n, t) && n@ == "if"@ && t == span
    &&& b->args@[0] matches Expr::BinOp { op, span: t, .. } && op == Op::EqEq && t == span
    &&& b->args@[1] matches Expr::Ident(n, t) && n@ == "false"@ && t == span
    &&& b->args@[2] matches Expr::Ident(n, t) && n@ == "true"@ && t == span
}

/// What `b`'s compared sides are, when it is a denial.
pub open spec fn denied_lhs(b: Expr) -> Expr {
    *b->args@[0]->BinOp_lhs
}

pub open spec fn denied_rhs(b: Expr) -> Expr {
    *b->args@[0]->BinOp_rhs
}

/// `b` is `a` with every `x != y` inside it, innermost first, written as
/// the denial of `x == y`.
pub open spec fn denied(a: Expr, b: Expr) -> bool
    decreases size(a), 1nat, 0nat,
    via denied_decreases
{
    match a {
        Expr::BinOp { op, lhs, rhs, span } => if op == Op::Ne {
            is_denial(b, span) && denied(*lhs, denied_lhs(b)) && denied(*rhs, denied_rhs(b))
        } else {
            same_shape(a, b) && children(b).len() == children(a).len() && denied_among(a, b, children(a).len())
        },
        _ => same_shape(a, b) && children(b).len() == children(a).len() && denied_among(a, b, children(a).len()),
    }
}

/// The first `n` direct sub-expressions of `b` are those of `a`, denied.
pub open spec fn denied_among(a: Expr, b: Expr, n: nat) -> bool
    decreases size(a), 0nat, n,
    via denied_among_decreases
{
    if n == 0 {
        true
    } else if n > children(a).len() || n > children(b).len() {
        false
    } else {
        denied_among(a, b, (n - 1) as nat) && denied(children(a)[n - 1], children(b)[n - 1])
    }
}

#[via_fn]
proof fn denied_decreases(a: Expr, b: Expr) {
    lemma_children_smaller(a);
    lemma_parts_smaller(a);
    match a {
        Expr::BinOp { .. } => {
            assert(children(a)[0] == *a->BinOp_lhs);
            assert(children(a)[1] == *a->BinOp_rhs);
        },
        _ => {},
    }
}

#[via_fn]
proof fn denied_among_decreases(a: Expr, b: Expr, n: nat) {
    lemma_children_smaller(a);
}

proof fn lemma_denied_among(a: Expr, b: Expr, n: nat)
    requires
        n <= children(a).len() == children(b).len(),
        forall|i: int| 0 <= i < children(a).len() ==> denied(#[trigger] children(a)[i], children(b)[i]),
    ensures
        denied_among(a, b, n),
    decreases n,
{
    if n > 0 {
        lemma_denied_among(a, b, (n - 1) as nat);
    }
}

/// `c` has fewer than `n` nodes.
pub open spec fn smaller_than(c: Expr, n: nat) -> bool {
    size(c) < n
}

fn deny(e: Expr) -> (r: Expr)
    ensures
        denied(e, r),
    decreases size(e),
{
    let ghost g = e;
    let ghost bound: nat = size(e);
    proof {
        lemma_children_smaller(e);
    }
    let deny_inner = |c: Expr| -> (d: Expr)
        requires
            smaller_than(c, bound),
        ensures
            denied(c, d),
        { deny(c) };
    let m = map_children(e, deny_inner);
    proof {
        assert forall|i: int| 0 <= i < children(g).len() implies denied(#[trigger] children(g)[i], children(m)[i]) by {}
    }
    match m {
        Expr::BinOp { op: Op::Ne, lhs, rhs, span } => {
            proof {
                assert(children(g)[0] == *g->BinOp_lhs && children(m)[0] == *lhs);
                assert(children(g)[1] == *g->BinOp_rhs && children(m)[1] == *rhs);
            }
            let same = Expr::BinOp { op: Op::EqEq, lhs, rhs, span };
            let args = vec![same, Expr::Ident(crate::text::string_of("false"), span), Expr::Ident(crate::text::string_of("true"), span)];
            Expr::App { head: Box::new(Expr::Ident(crate::text::string_of("if"), span)), args, span, piped: false }
        },
        other => {
            proof {
                lemma_denied_among(g, other, children(g).len());
            }
            other
        },
    }
}

/// Whether the program arms `==` for some type: an arm named `==` taking
/// two parameters.
pub open spec fn armed(fns: Seq<FnDecl>) -> bool {
    exists|i: int| 0 <= i < fns.len() && (#[trigger] fns[i]).name@ == "=="@ && fns[i].params@.len() == 2
}

/// `b` is the declaration `a` with every statement's `!=` denied.
pub open spec fn decl_denied(a: FnDecl, b: FnDecl) -> bool {
    &&& a.name == b.name && a.is_pub == b.is_pub && a.span == b.span && a.params == b.params
    &&& a.file == b.file && a.synthetic == b.synthetic
    &&& same_stmts_shape(a.body@, b.body@)
    &&& forall|j: int| 0 <= j < a.body@.len() ==> denied(#[trigger] stmt_expr(a.body@[j]), stmt_expr(b.body@[j]))
}

/// `b` is the program `a` with inequality settled: where `a` arms `==`,
/// every `!=` is the denial of `==`; where it does not, nothing changes.
pub open spec fn inequality_desugared(a: Program, b: Program) -> bool {
    &&& b.types == a.types
    &&& !armed(a.fns@) ==> b.fns == a.fns
    &&& armed(a.fns@) ==> b.fns@.len() == a.fns@.len() && forall|i: int|
        0 <= i < a.fns@.len() ==> decl_denied(#[trigger] a.fns@[i], b.fns@[i])
}

/// A type says equality once. Where a module arms `==`, `a != b` becomes
/// the denial of that arm rather than a second builtin, so no type can call
/// two values equal and unequal at once. A program with no arm is left as
/// it is.
pub fn desugar_inequality(program: &mut Program)
    ensures
        inequality_desugared(*old(program), *final(program)),
{
    let mut k: usize = 0;
    let mut found = false;
    while k < program.fns.len()
        invariant
            k <= program.fns@.len(),
            found == exists|i: int| 0 <= i < k && (#[trigger] program.fns@[i]).name@ == "=="@ && program.fns@[i].params@.len() == 2,
        decreases program.fns@.len() - k,
    {
        if crate::text::same_text(program.fns[k].name.as_str(), "==") && program.fns[k].params.len() == 2 {
            found = true;
        }
        k += 1;
    }
    if !found {
        return;
    }
    let mut fns: Vec<FnDecl> = Vec::new();
    std::mem::swap(&mut fns, &mut program.fns);
    let ghost orig = fns@;
    let mut back: Vec<FnDecl> = Vec::new();
    while fns.len() > 0
        invariant
            fns@.len() + back@.len() == orig.len(),
            fns@ == orig.subrange(0, fns@.len() as int),
            forall|i: int| 0 <= i < back@.len() ==> back@[i] == orig[orig.len() - 1 - i],
        decreases fns@.len(),
    {
        let d = fns.pop().unwrap();
        back.push(d);
        assert(fns@ =~= orig.subrange(0, fns@.len() as int));
    }
    let mut out: Vec<FnDecl> = Vec::new();
    while back.len() > 0
        invariant
            back@.len() + out@.len() == orig.len(),
            forall|i: int| 0 <= i < back@.len() ==> back@[i] == orig[orig.len() - 1 - i],
            forall|i: int| 0 <= i < out@.len() ==> decl_denied(#[trigger] orig[i], out@[i]),
        decreases back@.len(),
    {
        let d = back.pop().unwrap();
        assert(d == orig[out@.len() as int]);
        let FnDecl { name, is_pub, span, params, body, file, synthetic } = d;
        let ghost old_body = body@;
        let deny_each = |c: Expr| -> (r: Expr)
            ensures
                denied(c, r),
            { deny(c) };
        let new_body = map_stmts(body, &deny_each);
        let nd = FnDecl { name, is_pub, span, params, body: new_body, file, synthetic };
        proof {
            assert forall|j: int| 0 <= j < old_body.len() implies denied(#[trigger] stmt_expr(old_body[j]), stmt_expr(nd.body@[j])) by {
                assert(stmt_exprs(old_body)[j] == stmt_expr(old_body[j]));
                assert(stmt_exprs(nd.body@)[j] == stmt_expr(nd.body@[j]));
            }
        }
        out.push(nd);
    }
    program.fns = out;
}

} // verus!
