//! Which `push` call sites operate on a uniquely-owned list, so the runtime
//! can extend it in place instead of allocating a fresh header per element.
//! The accumulator threaded through a scanner is created once as `[]` and
//! moved from `push` to `push`, never duplicated, so the copy is pure waste.
//!
//! A wrong answer here mutates a list another reference still sees, so the
//! analysis is conservative: a push is marked in place only when its list
//! argument traces back to a fresh value through a chain in which every step
//! is moved (used once) and never aliased. Anything it cannot follow stays
//! allocating.

use vstd::prelude::*;
use crate::ast::{
    for_each_child, lemma_children_smaller, lemma_parts_smaller, refs, size, stmt_expr, stmt_expr_of, Expr, FnDecl,
    Pattern, Program, Stmt,
};
use crate::diag::Span;
use crate::text::same_text;

mod builders;
mod reuse;

pub use self::builders::{
    arg_names_among, arg_written, args_added, has_arg_name_at, has_join_at, is_arg_name_at, is_join_at,
    join_written, joins_added, joins_among, name_at, slot_of, slot_written, slots_added, string_builders, unmarked,
};

pub use self::reuse::{
    ctors_among, declares_type, decl_builds_at, distinct_entries, has_ctor_at, is_ctor_at, is_param_name, names_param,
    reusable_records, reuse_at, reuse_found, reuse_in,
};

verus! {

/// A call site: the file it is in, and its line and column.
pub type Site = (String, usize, usize);

fn is_named(e: &Expr, name: &str) -> (r: bool)
    ensures
        r == (e is Ident && e->Ident_0@ == name@),
{
    match e {
        Expr::Ident(n, _) => same_text(n.as_str(), name),
        _ => false,
    }
}

fn has_str(set: &Vec<String>, s: &str) -> (r: bool)
    ensures
        r == exists|i: int| 0 <= i < set@.len() && (#[trigger] set@[i])@ == s@,
{
    let mut i: usize = 0;
    while i < set.len()
        invariant
            i <= set@.len(),
            forall|j: int| 0 <= j < i ==> (#[trigger] set@[j])@ != s@,
        decreases set@.len() - i,
    {
        if same_text(set[i].as_str(), s) {
            return true;
        }
        i += 1;
    }
    false
}

/// Whether some entry of `v` reads `x`.
pub open spec fn holds_text(v: Seq<String>, x: Seq<char>) -> bool {
    exists|i: int| 0 <= i < v.len() && (#[trigger] v[i])@ == x
}

/// The texts of `v`, in order.
pub open spec fn texts_of(v: Seq<String>) -> Seq<Seq<char>> {
    v.map_values(|x: String| x@)
}

fn add_str(set: &mut Vec<String>, s: &String)
    ensures
        exists|i: int| 0 <= i < final(set)@.len() && (#[trigger] final(set)@[i])@ == s@,
        forall|i: int| 0 <= i < old(set)@.len() ==> (#[trigger] final(set)@[i]) == old(set)@[i],
        final(set)@.len() == old(set)@.len() + (if holds_text(old(set)@, s@) { 0int } else { 1int }),
        forall|x: Seq<char>| #[trigger] holds_text(final(set)@, x) <==> (holds_text(old(set)@, x) || x == s@),
{
    if !has_str(set, s.as_str()) {
        set.push(s.clone());
        assert(set@[set@.len() - 1]@ == s@);
        assert forall|x: Seq<char>| #[trigger] holds_text(set@, x) <==> (holds_text(old(set)@, x) || x == s@) by {
            if holds_text(set@, x) {
                let i = choose|i: int| 0 <= i < set@.len() && (#[trigger] set@[i])@ == x;
                if i < old(set)@.len() {
                    assert(old(set)@[i] == set@[i]);
                }
            }
            if holds_text(old(set)@, x) {
                let i = choose|i: int| 0 <= i < old(set)@.len() && (#[trigger] old(set)@[i])@ == x;
                assert(old(set)@[i] == set@[i]);
            }
        }
    } else {
        assert forall|x: Seq<char>| #[trigger] holds_text(set@, x) <==> (holds_text(old(set)@, x) || x == s@) by {
        }
    }
}


/// One if `e` is the name `var` itself, else none.
pub open spec fn here_use(var: Seq<char>, e: Expr) -> usize {
    if e is Ident && e->Ident_0@ == var {
        1
    } else {
        0
    }
}

/// Whether `e` is a call of `if` with a condition and two arms.
pub open spec fn is_if_call(e: Expr) -> bool {
    e is App && *e->App_head is Ident && e->App_head->Ident_0@ == "if"@ && e->App_args@.len() == 3
}

/// The larger of two counts.
pub open spec fn most(a: usize, b: usize) -> usize {
    if a >= b {
        a
    } else {
        b
    }
}

/// Uses of `var` on the busiest path through `e`, saturating at
/// `usize::MAX`: the condition and the busier arm of an `if`; the
/// condition and the busier of a guard's early value and the statements
/// after it; elsewhere every sub-expression.
pub open spec fn uses_in(var: Seq<char>, e: Expr) -> usize
    decreases size(e), 2nat, 0nat,
    via uses_in_decreases
{
    if is_if_call(e) {
        here_use(var, e).saturating_add(uses_in(var, e->App_args@[0])).saturating_add(
            most(uses_in(var, e->App_args@[1]), uses_in(var, e->App_args@[2])),
        )
    } else if e is Guard {
        here_use(var, e).saturating_add(uses_in(var, *e->Guard_cond)).saturating_add(
            most(uses_in(var, *e->Guard_early), uses_after(var, e, e->Guard_rest@.len())),
        )
    } else {
        uses_among(var, e, crate::ast::children(e).len())
    }
}

/// Uses of `var` in the first `n` statements after the guard `e`.
pub open spec fn uses_after(var: Seq<char>, e: Expr, n: nat) -> usize
    decreases size(e), 1nat, n,
    via uses_after_decreases
{
    if n == 0 || !(e is Guard) || n > e->Guard_rest@.len() {
        0
    } else {
        uses_after(var, e, (n - 1) as nat).saturating_add(uses_in(var, stmt_expr(e->Guard_rest@[n - 1])))
    }
}

/// Uses of `var` in `e` itself and its first `n` direct sub-expressions.
pub open spec fn uses_among(var: Seq<char>, e: Expr, n: nat) -> usize
    decreases size(e), 1nat, n,
    via uses_among_decreases
{
    if n == 0 || n > crate::ast::children(e).len() {
        here_use(var, e)
    } else {
        uses_among(var, e, (n - 1) as nat).saturating_add(uses_in(var, crate::ast::children(e)[n - 1]))
    }
}

#[via_fn]
proof fn uses_in_decreases(var: Seq<char>, e: Expr) {
    lemma_parts_smaller(e);
}

#[via_fn]
proof fn uses_after_decreases(var: Seq<char>, e: Expr, n: nat) {
    lemma_parts_smaller(e);
}

#[via_fn]
proof fn uses_among_decreases(var: Seq<char>, e: Expr, n: nat) {
    lemma_children_smaller(e);
}

/// How many times `var` is used on the busiest path through `e`: the
/// condition of `if c a b` always runs and then one arm, and a guard either
/// fires or the statements after it run. Counts saturate at `usize::MAX`.
fn count_in_expr(var: &str, e: &Expr) -> (r: usize)
    ensures
        r == uses_in(var@, *e),
    decreases size(*e),
{
    let here: usize = if is_named(e, var) {
        1
    } else {
        0
    };
    proof {
        lemma_parts_smaller(*e);
        lemma_children_smaller(*e);
    }
    if let Expr::App { head, args, .. } = e {
        if is_named(head, "if") && args.len() == 3 {
            proof {
                reveal_strlit("if");
            }
            assert(is_if_call(*e));
            let cond = count_in_expr(var, &args[0]);
            let a = count_in_expr(var, &args[1]);
            let b = count_in_expr(var, &args[2]);
            let taken = if a >= b {
                a
            } else {
                b
            };
            return here.saturating_add(cond).saturating_add(taken);
        }
    }
    assert(!is_if_call(*e));
    if let Expr::Guard { cond, early, rest, .. } = e {
        let mut after: usize = 0;
        let mut k: usize = 0;
        while k < rest.len()
            invariant
                k <= rest@.len(),
                forall|j: int| 0 <= j < rest@.len() ==> size(#[trigger] stmt_expr(rest@[j])) < size(*e),
                *e is Guard && e->Guard_rest == *rest,
                after == uses_after(var@, *e, k as nat),
            decreases rest@.len() - k,
        {
            after = after.saturating_add(count_in_expr(var, stmt_expr_of(&rest[k])));
            k += 1;
        }
        let early_n = count_in_expr(var, early);
        let taken = if early_n >= after {
            early_n
        } else {
            after
        };
        return here.saturating_add(count_in_expr(var, cond)).saturating_add(taken);
    }
    let kids = for_each_child(e);
    let mut n: usize = here;
    let mut k: usize = 0;
    while k < kids.len()
        invariant
            k <= kids@.len(),
            refs(kids@) == crate::ast::children(*e),
            forall|j: int| 0 <= j < crate::ast::children(*e).len() ==> size(#[trigger] crate::ast::children(*e)[j]) < size(*e),
            n == uses_among(var@, *e, k as nat),
        decreases kids@.len() - k,
    {
        assert(refs(kids@)[k as int] == *kids@[k as int]);
        n = n.saturating_add(count_in_expr(var, kids[k]));
        k += 1;
    }
    assert(kids@.len() == crate::ast::children(*e).len());
    n
}

/// Whether `h` names a builtin that writes into its first argument.
pub open spec fn is_consuming_head(h: Expr) -> bool {
    h is Ident && (h->Ident_0@ == "put"@ || h->Ident_0@ == "push"@ || h->Ident_0@ == "append"@
        || h->Ident_0@ == "builtin_append"@)
}

/// Uses of `var` in `es[1]` up to `es[n - 1]`.
pub open spec fn seq_uses(var: Seq<char>, es: Seq<Expr>, n: nat) -> usize
    decreases n,
{
    if n <= 1 || n > es.len() {
        0
    } else {
        seq_uses(var, es, (n - 1) as nat).saturating_add(uses_in(var, es[n - 1]))
    }
}

/// Uses of `var` in the sibling arguments of every call inside `e` that
/// consumes `var` as its first argument.
pub open spec fn sibling_uses(var: Seq<char>, e: Expr) -> usize
    decreases size(e), 1nat, 0nat,
    via sibling_uses_decreases
{
    if e is App {
        let args = e->App_args@;
        let first: usize = if is_consuming_head(*e->App_head) && args.len() > 0 && args[0] is Ident && args[0]->Ident_0@ == var {
            seq_uses(var, args, args.len())
        } else {
            0
        };
        sibling_args(var, e, args.len(), first).saturating_add(sibling_uses(var, *e->App_head))
    } else {
        sibling_kids(var, e, crate::ast::children(e).len())
    }
}

/// `base`, then what the first `n` arguments of the call `e` add.
pub open spec fn sibling_args(var: Seq<char>, e: Expr, n: nat, base: usize) -> usize
    decreases size(e), 0nat, n,
    via sibling_args_decreases
{
    if n == 0 || !(e is App) || n > e->App_args@.len() {
        base
    } else {
        sibling_args(var, e, (n - 1) as nat, base).saturating_add(sibling_uses(var, e->App_args@[n - 1]))
    }
}

/// What the first `n` direct sub-expressions of `e` add.
pub open spec fn sibling_kids(var: Seq<char>, e: Expr, n: nat) -> usize
    decreases size(e), 0nat, n,
    via sibling_kids_decreases
{
    if n == 0 || n > crate::ast::children(e).len() {
        0
    } else {
        sibling_kids(var, e, (n - 1) as nat).saturating_add(sibling_uses(var, crate::ast::children(e)[n - 1]))
    }
}

#[via_fn]
proof fn sibling_uses_decreases(var: Seq<char>, e: Expr) {
    lemma_parts_smaller(e);
}

#[via_fn]
proof fn sibling_args_decreases(var: Seq<char>, e: Expr, n: nat, base: usize) {
    lemma_parts_smaller(e);
}

#[via_fn]
proof fn sibling_kids_decreases(var: Seq<char>, e: Expr, n: nat) {
    lemma_children_smaller(e);
}

/// Uses of `var` in the first `n` statements of `body`.
pub open spec fn body_uses(var: Seq<char>, body: Seq<Stmt>, n: nat) -> usize
    decreases n,
{
    if n == 0 || n > body.len() {
        0
    } else {
        body_uses(var, body, (n - 1) as nat).saturating_add(uses_in(var, stmt_expr(body[n - 1])))
    }
}

/// Sibling uses of `var` in the first `n` statements of `body`.
pub open spec fn body_siblings(var: Seq<char>, body: Seq<Stmt>, n: nat) -> usize
    decreases n,
{
    if n == 0 || n > body.len() {
        0
    } else {
        body_siblings(var, body, (n - 1) as nat).saturating_add(sibling_uses(var, stmt_expr(body[n - 1])))
    }
}

/// Uses of `var` inside the sibling arguments of a call that consumes `var`
/// as its first argument: a builtin evaluates every argument before it
/// writes, so those reads are finished by then.
fn consumed_sibling_uses(var: &str, e: &Expr) -> (r: usize)
    ensures
        r == sibling_uses(var@, *e),
    decreases size(*e),
{
    proof {
        lemma_parts_smaller(*e);
        lemma_children_smaller(*e);
    }
    let mut n: usize = 0;
    if let Expr::App { head, args, .. } = e {
        let consuming = is_named(head, "put") || is_named(head, "push") || is_named(head, "append") || is_named(
            head,
            "builtin_append",
        );
        proof {
            reveal_strlit("put");
            reveal_strlit("push");
            reveal_strlit("append");
            reveal_strlit("builtin_append");
        }
        assert(consuming == is_consuming_head(**head));
        if consuming && args.len() > 0 && is_named(&args[0], var) {
            let mut k: usize = 1;
            while k < args.len()
                invariant
                    1 <= k <= args@.len(),
                    forall|j: int| 0 <= j < args@.len() ==> size(#[trigger] args@[j]) < size(*e),
                    n == seq_uses(var@, args@, k as nat),
                decreases args@.len() - k,
            {
                n = n.saturating_add(count_in_expr(var, &args[k]));
                k += 1;
            }
        }
        let ghost first = n;
        let mut k: usize = 0;
        while k < args.len()
            invariant
                k <= args@.len(),
                forall|j: int| 0 <= j < args@.len() ==> size(#[trigger] args@[j]) < size(*e),
                *e is App && e->App_args == *args,
                n == sibling_args(var@, *e, k as nat, first),
            decreases args@.len() - k,
        {
            n = n.saturating_add(consumed_sibling_uses(var, &args[k]));
            k += 1;
        }
        n = n.saturating_add(consumed_sibling_uses(var, head));
    } else {
        let kids = for_each_child(e);
        let mut k: usize = 0;
        while k < kids.len()
            invariant
                k <= kids@.len(),
                refs(kids@) == crate::ast::children(*e),
                forall|j: int| 0 <= j < crate::ast::children(*e).len() ==> size(#[trigger] crate::ast::children(*e)[j]) < size(*e),
                n == sibling_kids(var@, *e, k as nat),
            decreases kids@.len() - k,
        {
            assert(refs(kids@)[k as int] == *kids@[k as int]);
            n = n.saturating_add(consumed_sibling_uses(var, kids[k]));
            k += 1;
        }
        assert(kids@.len() == crate::ast::children(*e).len());
    }
    n
}

/// Uses of `var` in `body` that could still hold the value when a write
/// happens: every use, less those read by a consuming builtin's siblings.
fn effective_uses(var: &str, body: &Vec<Stmt>) -> (r: usize)
    ensures
        r == body_uses(var@, body@, body@.len()).saturating_sub(body_siblings(var@, body@, body@.len())),
{
    let mut total: usize = 0;
    let mut discounted: usize = 0;
    let mut k: usize = 0;
    while k < body.len()
        invariant
            k <= body@.len(),
            total == body_uses(var@, body@, k as nat),
            discounted == body_siblings(var@, body@, k as nat),
        decreases body@.len() - k,
    {
        let e = stmt_expr_of(&body[k]);
        total = total.saturating_add(count_in_expr(var, e));
        discounted = discounted.saturating_add(consumed_sibling_uses(var, e));
        k += 1;
    }
    total.saturating_sub(discounted)
}

/// The accumulator arrives first and, unless the callee forces its
/// arguments, nowhere else.
fn takes_acc_first_with(args: &Vec<Expr>, acc: &str, forced_args: bool) -> (r: bool)
    ensures
        r == (args@.len() > 0 && args@[0] is Ident && args@[0]->Ident_0@ == acc@ && (forced_args || seq_uses(
            acc@,
            args@,
            args@.len(),
        ) == 0)),
{
    if args.len() == 0 || !is_named(&args[0], acc) {
        return false;
    }
    if forced_args {
        return true;
    }
    let mut n: usize = 0;
    let mut k: usize = 1;
    while k < args.len()
        invariant
            1 <= k <= args@.len(),
            n == seq_uses(acc@, args@, k as nat),
        decreases args@.len() - k,
    {
        n = n.saturating_add(count_in_expr(acc, &args[k]));
        k += 1;
    }
    n == 0
}

/// Whether `e` binds `x` itself: a block's or a build's local, or a
/// lambda's parameter.
pub open spec fn binds_here(e: Expr, x: Seq<char>) -> bool {
    match e {
        Expr::Block(ss, _) => exists|k: int| 0 <= k < ss@.len() && (#[trigger] ss@[k]) is Bind && ss@[k]->Bind_pattern is Var
            && ss@[k]->Bind_pattern->Var_0@ == x,
        Expr::Build(ss, _) => exists|k: int| 0 <= k < ss@.len() && (#[trigger] ss@[k]) is Bind && ss@[k]->Bind_pattern is Var
            && ss@[k]->Bind_pattern->Var_0@ == x,
        Expr::Lambda { params, .. } => exists|k: int| 0 <= k < params@.len() && (#[trigger] params@[k]).0@ == x,
        _ => false,
    }
}

/// Whether `e` or something inside it binds `x`.
pub open spec fn binds_within(e: Expr, x: Seq<char>) -> bool
    decreases size(e), 1nat, 0nat,
{
    binds_here(e, x) || binds_kids(e, x, crate::ast::children(e).len())
}

/// Whether one of the first `n` direct sub-expressions of `e` binds `x`.
pub open spec fn binds_kids(e: Expr, x: Seq<char>, n: nat) -> bool
    decreases size(e), 0nat, n,
    via binds_kids_decreases
{
    if n == 0 || n > crate::ast::children(e).len() {
        false
    } else {
        binds_kids(e, x, (n - 1) as nat) || binds_within(crate::ast::children(e)[n - 1], x)
    }
}

#[via_fn]
proof fn binds_kids_decreases(e: Expr, x: Seq<char>, n: nat) {
    lemma_children_smaller(e);
}

/// Every identifier in `e`, in pre-order.
pub open spec fn idents_in(e: Expr) -> Seq<Seq<char>>
    decreases size(e), 1nat, 0nat,
{
    (if e is Ident {
        seq![e->Ident_0@]
    } else {
        Seq::empty()
    }) + idents_kids(e, crate::ast::children(e).len())
}

/// The identifiers in the first `n` direct sub-expressions of `e`.
pub open spec fn idents_kids(e: Expr, n: nat) -> Seq<Seq<char>>
    decreases size(e), 0nat, n,
    via idents_kids_decreases
{
    if n == 0 || n > crate::ast::children(e).len() {
        Seq::empty()
    } else {
        idents_kids(e, (n - 1) as nat) + idents_in(crate::ast::children(e)[n - 1])
    }
}

#[via_fn]
proof fn idents_kids_decreases(e: Expr, n: nat) {
    lemma_children_smaller(e);
}

/// Every name a lambda body binds for itself: the locals of its blocks and
/// the parameters of lambdas inside it.
fn collect_bound_names(e: &Expr, out: &mut Vec<String>)
    ensures
        forall|i: int| 0 <= i < old(out)@.len() ==> (#[trigger] final(out)@[i]) == old(out)@[i],
        old(out)@.len() <= final(out)@.len(),
        forall|x: Seq<char>| #[trigger] holds_text(final(out)@, x) <==> (holds_text(old(out)@, x) || binds_within(*e, x)),
    decreases size(*e),
{
    match e {
        Expr::Block(stmts, _) | Expr::Build(stmts, _) => {
            let mut k: usize = 0;
            while k < stmts.len()
                invariant
                    k <= stmts@.len(),
                    (*e is Block && e->Block_0 == *stmts) || (*e is Build && e->Build_0 == *stmts),
                    forall|i: int| 0 <= i < old(out)@.len() ==> (#[trigger] out@[i]) == old(out)@[i],
                    old(out)@.len() <= out@.len(),
                    forall|x: Seq<char>| #[trigger] holds_text(out@, x) <==> (holds_text(old(out)@, x) || exists|q: int|
                        0 <= q < k && (#[trigger] stmts@[q]) is Bind && stmts@[q]->Bind_pattern is Var && stmts@[q]->Bind_pattern->Var_0@ == x),
                decreases stmts@.len() - k,
            {
                if let Stmt::Bind { pattern: Pattern::Var(n, _), .. } = &stmts[k] {
                    add_str(out, n);
                }
                assert forall|x: Seq<char>| #[trigger] holds_text(out@, x) <==> (holds_text(old(out)@, x) || exists|q: int|
                    0 <= q < k + 1 && (#[trigger] stmts@[q]) is Bind && stmts@[q]->Bind_pattern is Var && stmts@[q]->Bind_pattern->Var_0@ == x) by {
                    if exists|q: int| 0 <= q < k + 1 && (#[trigger] stmts@[q]) is Bind && stmts@[q]->Bind_pattern is Var && stmts@[q]->Bind_pattern->Var_0@ == x {
                        let q = choose|q: int| 0 <= q < k + 1 && (#[trigger] stmts@[q]) is Bind && stmts@[q]->Bind_pattern is Var && stmts@[q]->Bind_pattern->Var_0@ == x;
                        if q < k {
                            assert(exists|q2: int| 0 <= q2 < k && (#[trigger] stmts@[q2]) is Bind && stmts@[q2]->Bind_pattern is Var && stmts@[q2]->Bind_pattern->Var_0@ == x);
                        }
                    }
                }
                k += 1;
            }
        },
        Expr::Lambda { params, .. } => {
            let mut k: usize = 0;
            while k < params.len()
                invariant
                    k <= params@.len(),
                    *e is Lambda && e->Lambda_params == *params,
                    forall|i: int| 0 <= i < old(out)@.len() ==> (#[trigger] out@[i]) == old(out)@[i],
                    old(out)@.len() <= out@.len(),
                    forall|x: Seq<char>| #[trigger] holds_text(out@, x) <==> (holds_text(old(out)@, x) || exists|q: int|
                        0 <= q < k && (#[trigger] params@[q]).0@ == x),
                decreases params@.len() - k,
            {
                add_str(out, &params[k].0);
                assert forall|x: Seq<char>| #[trigger] holds_text(out@, x) <==> (holds_text(old(out)@, x) || exists|q: int|
                    0 <= q < k + 1 && (#[trigger] params@[q]).0@ == x) by {
                    if exists|q: int| 0 <= q < k + 1 && (#[trigger] params@[q]).0@ == x {
                        let q = choose|q: int| 0 <= q < k + 1 && (#[trigger] params@[q]).0@ == x;
                        if q < k {
                            assert(exists|q2: int| 0 <= q2 < k && (#[trigger] params@[q2]).0@ == x);
                        }
                    }
                }
                k += 1;
            }
        },
        _ => {},
    }
    assert forall|x: Seq<char>| #[trigger] holds_text(out@, x) <==> (holds_text(old(out)@, x) || binds_here(*e, x)) by {
    }
    let ghost o1 = out@;
    let kids = for_each_child(e);
    proof {
        lemma_children_smaller(*e);
    }
    let mut k: usize = 0;
    while k < kids.len()
        invariant
            k <= kids@.len(),
            refs(kids@) == crate::ast::children(*e),
            forall|j: int| 0 <= j < crate::ast::children(*e).len() ==> size(#[trigger] crate::ast::children(*e)[j]) < size(*e),
            forall|i: int| 0 <= i < old(out)@.len() ==> (#[trigger] out@[i]) == old(out)@[i],
            old(out)@.len() <= out@.len(),
            forall|x: Seq<char>| #[trigger] holds_text(out@, x) <==> (holds_text(old(out)@, x) || binds_here(*e, x) || binds_kids(*e, x, k as nat)),
        decreases kids@.len() - k,
    {
        assert(refs(kids@)[k as int] == *kids@[k as int]);
        let ghost o2 = out@;
        collect_bound_names(kids[k], out);
        assert forall|i: int| 0 <= i < old(out)@.len() implies (#[trigger] out@[i]) == old(out)@[i] by {
            assert(out@[i] == o2[i]);
        }
        k += 1;
    }
    assert(kids@.len() == crate::ast::children(*e).len());
}

fn collect_idents_here(e: &Expr, out: &mut Vec<String>)
    ensures
        texts_of(final(out)@) == texts_of(old(out)@) + idents_in(*e),
    decreases size(*e),
{
    if let Expr::Ident(name, _) = e {
        out.push(name.clone());
    }
    let ghost own: Seq<Seq<char>> = if *e is Ident {
        seq![e->Ident_0@]
    } else {
        Seq::empty()
    };
    assert(texts_of(out@) =~= texts_of(old(out)@) + own);
    let kids = for_each_child(e);
    proof {
        lemma_children_smaller(*e);
    }
    let mut k: usize = 0;
    while k < kids.len()
        invariant
            k <= kids@.len(),
            refs(kids@) == crate::ast::children(*e),
            forall|j: int| 0 <= j < crate::ast::children(*e).len() ==> size(#[trigger] crate::ast::children(*e)[j]) < size(*e),
            texts_of(out@) == texts_of(old(out)@) + own + idents_kids(*e, k as nat),
        decreases kids@.len() - k,
    {
        assert(refs(kids@)[k as int] == *kids@[k as int]);
        collect_idents_here(kids[k], out);
        assert(idents_kids(*e, (k + 1) as nat) == idents_kids(*e, k as nat) + idents_in(crate::ast::children(*e)[k as int]));
        k += 1;
    }
    assert(kids@.len() == crate::ast::children(*e).len());
    assert(texts_of(old(out)@) + own + idents_kids(*e, k as nat) =~= texts_of(old(out)@) + idents_in(*e));
}

/// Outside a lambda every hand-over is the one the use count measured.
/// Inside one, only a value the lambda builds from names it binds itself
/// is fresh on each run.
fn hands_over_fresh(arg: &Expr, lambda_bound: Option<&Vec<String>>) -> (r: bool)
    ensures
        r == (match lambda_bound {
            None => true,
            Some(bound) => forall|k: int| 0 <= k < idents_in(*arg).len() ==> holds_text(bound@, #[trigger] idents_in(*arg)[k]),
        }),
{
    match lambda_bound {
        None => true,
        Some(bound) => {
            let mut names: Vec<String> = Vec::new();
            collect_idents_here(arg, &mut names);
            assert(texts_of(names@) =~= idents_in(*arg));
            let mut k: usize = 0;
            while k < names.len()
                invariant
                    k <= names@.len(),
                    texts_of(names@) == idents_in(*arg),
                    lambda_bound == Some(bound),
                    forall|q: int| 0 <= q < k ==> holds_text(bound@, #[trigger] idents_in(*arg)[q]),
                decreases names@.len() - k,
            {
                assert(idents_in(*arg)[k as int] == names@[k as int]@);
                if !has_str(bound, names[k].as_str()) {
                    assert(!holds_text(bound@, idents_in(*arg)[k as int]));
                    assert(lambda_bound == Some(bound));
                    assert(!(forall|q: int| 0 <= q < idents_in(*arg).len() ==> holds_text(bound@, #[trigger] idents_in(*arg)[q])));
                    return false;
                }
                k += 1;
            }
            true
        },
    }
}

/// Whether `d` is an arm of std/list's `fold`: declared in std/list, taking
/// three arguments, its name's last part `fold`.
pub open spec fn fold_arm(d: FnDecl) -> bool {
    crate::text::has_prefix(d.file@, "std/list"@) && d.params@.len() == 3 && crate::passes::short_of(d.name@) == "fold"@
}

/// Every spelling the module graph gives std/list's `fold`: bare in its
/// own module, and qualified once per import hop. Each is listed once.
pub fn fold_spellings(program: &Program) -> (r: Vec<String>)
    ensures
        forall|n: Seq<char>|
            #[trigger] crate::passes::listed(r@, n) <==> exists|j: int|
                0 <= j < program.fns@.len() && fold_arm(#[trigger] program.fns@[j]) && program.fns@[j].name@ == n,
        forall|k1: int, k2: int| 0 <= k1 < k2 < r@.len() ==> (#[trigger] r@[k1])@ != (#[trigger] r@[k2])@,
{
    proof {
        reveal_strlit("fold");
    }
    let mut out: Vec<String> = Vec::new();
    let fold = crate::text::chars_of("fold");
    let mut k: usize = 0;
    while k < program.fns.len()
        invariant
            k <= program.fns@.len(),
            fold@ == "fold"@,
            forall|n: Seq<char>|
                #[trigger] crate::passes::listed(out@, n) <==> exists|j: int|
                    0 <= j < k && fold_arm(#[trigger] program.fns@[j]) && program.fns@[j].name@ == n,
            forall|k1: int, k2: int| 0 <= k1 < k2 < out@.len() ==> (#[trigger] out@[k1])@ != (#[trigger] out@[k2])@,
        decreases program.fns@.len() - k,
    {
        let d = &program.fns[k];
        let ghost before = out@;
        let hit = crate::passes::in_list_file(d) && d.params.len() == 3 && crate::text::same_chars(
            crate::passes::short_name(d.name.as_str()).as_slice(),
            fold.as_slice(),
        );
        assert(hit == fold_arm(program.fns@[k as int]));
        if hit && !crate::passes::listed_exec(&out, d.name.as_str()) {
            out.push(d.name.clone());
            proof {
                assert forall|k1: int, k2: int| 0 <= k1 < k2 < out@.len() implies (#[trigger] out@[k1])@
                    != (#[trigger] out@[k2])@ by {
                    if k2 == before.len() {
                        assert(out@[k1] == before[k1]);
                    } else {
                        assert(out@[k1] == before[k1] && out@[k2] == before[k2]);
                    }
                }
            }
        }
        proof {
            assert forall|n: Seq<char>|
                #[trigger] crate::passes::listed(out@, n) <==> exists|j: int|
                    0 <= j < k + 1 && fold_arm(#[trigger] program.fns@[j]) && program.fns@[j].name@ == n by {
                if crate::passes::listed(out@, n) && out@.len() > before.len() {
                    let q = choose|q: int| 0 <= q < out@.len() && (#[trigger] out@[q])@ == n;
                    if q < before.len() {
                        assert(before[q] == out@[q]);
                        assert(crate::passes::listed(before, n));
                    }
                }
                if crate::passes::listed(before, n) && out@.len() > before.len() {
                    let q = choose|q: int| 0 <= q < before.len() && (#[trigger] before[q])@ == n;
                    assert(out@[q] == before[q]);
                }
                if hit && n == d.name@ && out@.len() > before.len() {
                    assert(out@[before.len() as int]@ == n);
                }
                if exists|j: int| 0 <= j < k + 1 && fold_arm(#[trigger] program.fns@[j]) && program.fns@[j].name@ == n {
                    let j = choose|j: int| 0 <= j < k + 1 && fold_arm(#[trigger] program.fns@[j]) && program.fns@[j].name@ == n;
                    if j < k {
                        assert(exists|j2: int| 0 <= j2 < k && fold_arm(#[trigger] program.fns@[j2]) && program.fns@[j2].name@ == n);
                    }
                }
            }
        }
        k += 1;
    }
    out
}

fn has_triple(v: &Vec<(String, usize, usize)>, name: &str, arity: usize, i: usize) -> (r: bool)
    ensures
        r == exists|k: int| 0 <= k < v@.len() && site_view(#[trigger] v@[k]) == (name@, arity, i),
{
    let mut k: usize = 0;
    while k < v.len()
        invariant
            k <= v@.len(),
            forall|q: int| 0 <= q < k ==> site_view(#[trigger] v@[q]) != (name@, arity, i),
        decreases v@.len() - k,
    {
        if v[k].1 == arity && v[k].2 == i && same_text(v[k].0.as_str(), name) {
            return true;
        }
        k += 1;
    }
    false
}

fn has_pair(v: &Vec<(String, usize)>, name: &str, arity: usize) -> (r: bool)
    ensures
        r == exists|k: int| 0 <= k < v@.len() && (#[trigger] v@[k]).1 == arity && v@[k].0@ == name@,
{
    let mut k: usize = 0;
    while k < v.len()
        invariant
            k <= v@.len(),
            forall|q: int| 0 <= q < k ==> !((#[trigger] v@[q]).1 == arity && v@[q].0@ == name@),
        decreases v@.len() - k,
    {
        if v[k].1 == arity && same_text(v[k].0.as_str(), name) {
            return true;
        }
        k += 1;
    }
    false
}

fn same_scoped(scoped: Option<&str>, var: &str) -> (r: bool)
    ensures
        r == (match scoped {
            Some(s) => s@ == var@,
            None => false,
        }),
{
    match scoped {
        Some(s) => same_text(s, var),
        None => false,
    }
}

/// The name a lambda's first parameter binds, if it has one.
fn first_param(params: &Vec<(String, Span)>) -> (r: Option<&str>)
    ensures
        r is Some <==> params@.len() > 0,
        r matches Some(n) ==> n@ == params@[0].0@,
{
    if params.len() > 0 {
        Some(params[0].0.as_str())
    } else {
        None
    }
}

/// Whether `args` hands the accumulator `acc` over first and, unless the
/// callee forces its arguments, nowhere else.
pub open spec fn takes_acc(args: Seq<Expr>, acc: Seq<char>, forced: bool) -> bool {
    args.len() > 0 && args[0] is Ident && args[0]->Ident_0@ == acc && (forced || seq_uses(acc, args, args.len()) == 0)
}

/// Whether `groups` lists the group `name` of `arity` arguments.
pub open spec fn lists_group(groups: Seq<(String, usize)>, name: Seq<char>, arity: int) -> bool {
    exists|k: int| 0 <= k < groups.len() && (#[trigger] groups[k]).1 as int == arity && groups[k].0@ == name
}

/// Whether `callee` with `n` arguments is a builtin that writes into its
/// first argument.
pub open spec fn writes_first(callee: Seq<char>, n: int) -> bool {
    ((callee == "push"@ || callee == "append"@ || callee == "builtin_append"@) && n == 2) || (callee == "put"@ && n == 3)
}

/// Whether every path through a folder's body hands the accumulator `acc`
/// back untouched or applies an accumulator operation to it, the groups
/// `rets` answering a uniquely owned list.
pub open spec fn folder_body(rets: Seq<(String, usize)>, body: Expr, acc: Seq<char>) -> bool
    decreases size(body),
    via folder_body_decreases
{
    match body {
        Expr::Ident(n, _) => n@ == acc,
        Expr::App { head, args, .. } => match *head {
            Expr::Lambda { params, body: inner, .. } => params@.len() > 0 && takes_acc(args@, acc, false) && folder_body(
                rets,
                *inner,
                params@[0].0@,
            ),
            Expr::Ident(callee, _) => if callee@ == "if"@ && args@.len() == 3 {
                uses_in(acc, args@[0]) == 0 && folder_body(rets, args@[1], acc) && folder_body(rets, args@[2], acc)
            } else {
                takes_acc(args@, acc, writes_first(callee@, args@.len() as int)) && (writes_first(callee@, args@.len() as int)
                    || lists_group(rets, callee@, args@.len() as int))
            },
            _ => false,
        },
        _ => false,
    }
}

#[via_fn]
proof fn folder_body_decreases(rets: Seq<(String, usize)>, body: Expr, acc: Seq<char>) {
    lemma_parts_smaller(body);
    if body is App {
        lemma_parts_smaller(*body->App_head);
    }
}

/// Whether `f` is a lambda of at least one parameter whose body is a
/// folder on that first parameter.
pub open spec fn folder_unique(rets: Seq<(String, usize)>, f: Expr) -> bool {
    match f {
        Expr::Lambda { params, body, .. } => params@.len() > 0 && folder_body(rets, *body, params@[0].0@),
        _ => false,
    }
}

/// Whether `v` lists the position (`name`, `arity`, `i`).
pub open spec fn lists_site(v: Seq<Site>, name: Seq<char>, arity: int, i: int) -> bool {
    exists|k: int| 0 <= k < v.len() && (#[trigger] v[k]).0@ == name && v[k].1 as int == arity && v[k].2 as int == i
}

/// The index of the first plain-name parameter from `j` on named `var`.
pub open spec fn first_var_param(params: Seq<Pattern>, var: Seq<char>, j: int) -> Option<nat>
    decreases params.len() - j,
{
    if j < 0 || j >= params.len() {
        None
    } else if params[j] is Var && params[j]->Var_0@ == var {
        Some(j as nat)
    } else {
        first_var_param(params, var, j + 1)
    }
}

/// The index of the first statement from `j` on that binds the plain name
/// `var`.
pub open spec fn first_var_bind(body: Seq<Stmt>, var: Seq<char>, j: int) -> Option<nat>
    decreases body.len() - j,
{
    if j < 0 || j >= body.len() {
        None
    } else if body[j] is Bind && body[j]->Bind_pattern is Var && body[j]->Bind_pattern->Var_0@ == var {
        Some(j as nat)
    } else {
        first_var_bind(body, var, j + 1)
    }
}

proof fn lemma_first_var_param(params: Seq<Pattern>, var: Seq<char>, j: int)
    requires
        0 <= j,
    ensures
        first_var_param(params, var, j) matches Some(i) ==> j <= i < params.len() && params[i as int] is Var
            && params[i as int]->Var_0@ == var,
    decreases params.len() - j,
{
    if j < params.len() && !(params[j] is Var && params[j]->Var_0@ == var) {
        lemma_first_var_param(params, var, j + 1);
    }
}

/// Uses of `var` in the first `n` of `ex`.
pub open spec fn exempt_uses(var: Seq<char>, ex: Seq<Expr>, n: nat) -> usize
    decreases n,
{
    if n == 0 || n > ex.len() {
        0
    } else {
        exempt_uses(var, ex, (n - 1) as nat).saturating_add(uses_in(var, ex[n - 1]))
    }
}

/// A folding lambda's accumulator name, as text.
pub open spec fn scoped_view(scoped: Option<&str>) -> Option<Seq<char>> {
    match scoped {
        Some(s) => Some(s@),
        None => None,
    }
}

/// Whether `n` with `len` arguments is a builtin answering a fresh value
/// whatever its arguments are.
pub open spec fn fresh_builtin(n: Seq<char>, len: int) -> bool {
    ((n == "concat"@ || n == "text/concat"@ || n == "builtin_concat"@) && len == 2) || ((n == "bytes"@ || n
        == "text/bytes"@ || n == "builtin_bytes"@) && len == 1)
}

/// Whether `e` evaluates to a freshly owned value, given the declared type
/// names `types`, the spellings of fold `folds`, the groups answering a
/// fresh list `rets` and the linear parameter positions `lin`: a list, map
/// or template literal; a guard both of whose outcomes are; a fold of a
/// fresh seed by a folder; an `if` both of whose arms are; a write into a
/// fresh value; a builtin or constructor that builds one; a call of such a
/// group; or a name holding one.
pub open spec fn unique_with(
    types: Seq<String>,
    folds: Seq<String>,
    rets: Seq<(String, usize)>,
    lin: Seq<Site>,
    e: Expr,
    ctx: FnDecl,
    scoped: Option<Seq<char>>,
    exempt: Seq<Expr>,
    hops: nat,
) -> bool
    decreases hops, size(e),
    via unique_with_decreases
{
    match e {
        Expr::List(..) => true,
        Expr::MapLit(..) => true,
        Expr::Str(..) => true,
        Expr::Guard { early, rest, .. } => unique_with(types, folds, rets, lin, *early, ctx, scoped, exempt, hops) && rest@.len()
            > 0 && rest@.last() is Expr && unique_with(types, folds, rets, lin, rest@.last()->Expr_0, ctx, scoped, exempt, hops),
        Expr::App { head, args, .. } => match *head {
            Expr::Ident(n, _) => if holds_text(folds, n@) && args@.len() == 3 {
                unique_with(types, folds, rets, lin, args@[1], ctx, scoped, exempt, hops) && folder_unique(rets, args@[2])
            } else if n@ == "if"@ && args@.len() == 3 {
                unique_with(types, folds, rets, lin, args@[1], ctx, scoped, exempt, hops) && unique_with(
                    types,
                    folds,
                    rets,
                    lin,
                    args@[2],
                    ctx,
                    scoped,
                    exempt,
                    hops,
                )
            } else if writes_first(n@, args@.len() as int) {
                unique_with(types, folds, rets, lin, args@[0], ctx, scoped, Seq::empty(), hops)
            } else if fresh_builtin(n@, args@.len() as int) {
                true
            } else if holds_text(types, n@) {
                true
            } else {
                lists_group(rets, n@, args@.len() as int)
            },
            _ => false,
        },
        Expr::Ident(name, _) => unique_source(types, folds, rets, lin, name@, ctx, scoped, exempt, hops),
        _ => false,
    }
}

/// Whether the name `var` holds a uniquely owned value in `ctx`: the
/// folding lambda's own accumulator; else, used at most once beyond the
/// exempt reads, a linear parameter, or a local bound to a unique value
/// within `hops` further bindings.
pub open spec fn unique_source(
    types: Seq<String>,
    folds: Seq<String>,
    rets: Seq<(String, usize)>,
    lin: Seq<Site>,
    var: Seq<char>,
    ctx: FnDecl,
    scoped: Option<Seq<char>>,
    exempt: Seq<Expr>,
    hops: nat,
) -> bool
    decreases hops, 0nat,
{
    if scoped == Some(var) {
        true
    } else if body_uses(var, ctx.body@, ctx.body@.len()).saturating_sub(body_siblings(var, ctx.body@, ctx.body@.len())).saturating_sub(
        exempt_uses(var, exempt, exempt.len()),
    ) > 1 {
        false
    } else {
        match first_var_param(ctx.params@, var, 0) {
            Some(idx) => lists_site(lin, ctx.name@, ctx.params@.len() as int, idx as int),
            None => match first_var_bind(ctx.body@, var, 0) {
                Some(k) => hops > 0 && k < ctx.body@.len() && unique_with(
                    types,
                    folds,
                    rets,
                    lin,
                    ctx.body@[k as int]->Bind_expr,
                    ctx,
                    scoped,
                    exempt,
                    (hops - 1) as nat,
                ),
                None => false,
            },
        }
    }
}

#[via_fn]
proof fn unique_with_decreases(
    types: Seq<String>,
    folds: Seq<String>,
    rets: Seq<(String, usize)>,
    lin: Seq<Site>,
    e: Expr,
    ctx: FnDecl,
    scoped: Option<Seq<char>>,
    exempt: Seq<Expr>,
    hops: nat,
) {
    lemma_parts_smaller(e);
    if e is Guard && e->Guard_rest@.len() > 0 {
        assert(stmt_expr(e->Guard_rest@[e->Guard_rest@.len() - 1]) == e->Guard_rest@.last()->Expr_0 || !(e->Guard_rest@.last() is Expr));
    }
}

/// The names a lambda binds for itself, as a set, where it is inside one.
pub open spec fn bound_view(lambda_bound: Option<&Vec<String>>) -> Option<Set<Seq<char>>> {
    match lambda_bound {
        Some(b) => Some(Set::new(|x: Seq<char>| holds_text(b@, x))),
        None => None,
    }
}

/// Whether `bound` is inside a lambda and holds `x`.
pub open spec fn bound_has(bound: Option<Set<Seq<char>>>, x: Seq<char>) -> bool {
    match bound {
        Some(b) => b.contains(x),
        None => false,
    }
}

/// Outside a lambda every hand-over is fresh; inside one, a value built
/// only from names the lambda binds itself.
pub open spec fn fresh_in(bound: Option<Set<Seq<char>>>, arg: Expr) -> bool {
    match bound {
        None => true,
        Some(b) => forall|k: int| 0 <= k < idents_in(arg).len() ==> b.contains(#[trigger] idents_in(arg)[k]),
    }
}

/// The names bound inside the lambda `lam`, with those of `bound`.
pub open spec fn lambda_names(bound: Option<Set<Seq<char>>>, lam: Expr) -> Set<Seq<char>> {
    Set::new(
        |x: Seq<char>|
            bound_has(bound, x) || (exists|k: int| 0 <= k < lam->Lambda_params@.len() && (#[trigger] lam->Lambda_params@[k]).0@ == x)
                || binds_within(*lam->Lambda_body, x),
    )
}

/// Whether every call of `name` with `arity` arguments in `e` passes a
/// uniquely owned value, fresh where it is inside a lambda, at position
/// `i`. A folding lambda's body is read with its accumulator scoped, and
/// every lambda's with the names it binds.
pub open spec fn callsites_ok(
    types: Seq<String>,
    folds: Seq<String>,
    rets: Seq<(String, usize)>,
    lin: Seq<Site>,
    ctx: FnDecl,
    e: Expr,
    name: Seq<char>,
    arity: usize,
    i: usize,
    scoped: Option<Seq<char>>,
    bound: Option<Set<Seq<char>>>,
) -> bool
    decreases size(e), 1nat, 0nat,
    via callsites_ok_decreases
{
    if e is App {
        let head = *e->App_head;
        let args = e->App_args@;
        if head is Ident && head->Ident_0@ == name && args.len() == arity && i < arity && (!unique_with(
            types,
            folds,
            rets,
            lin,
            args[i as int],
            ctx,
            scoped,
            Seq::empty(),
            ctx.body@.len(),
        ) || !fresh_in(bound, args[i as int])) {
            false
        } else if head is Ident && holds_text(folds, head->Ident_0@) && args.len() == 3 && args[2] is Lambda && folder_unique(
            rets,
            args[2],
        ) {
            let lam = args[2];
            let inner = if lam->Lambda_params@.len() > 0 {
                Some(lam->Lambda_params@[0].0@)
            } else {
                None
            };
            callsites_ok(types, folds, rets, lin, ctx, args[0], name, arity, i, scoped, bound) && callsites_ok(
                types,
                folds,
                rets,
                lin,
                ctx,
                args[1],
                name,
                arity,
                i,
                scoped,
                bound,
            ) && callsites_ok(types, folds, rets, lin, ctx, *lam->Lambda_body, name, arity, i, inner, Some(lambda_names(bound, lam)))
        } else if head is Lambda {
            callsites_ok(types, folds, rets, lin, ctx, *head->Lambda_body, name, arity, i, scoped, bound) && callsites_args(
                types,
                folds,
                rets,
                lin,
                ctx,
                e,
                name,
                arity,
                i,
                scoped,
                bound,
                args.len(),
            )
        } else {
            callsites_kids(types, folds, rets, lin, ctx, e, name, arity, i, scoped, bound, crate::ast::children(e).len())
        }
    } else if e is Lambda {
        callsites_ok(types, folds, rets, lin, ctx, *e->Lambda_body, name, arity, i, scoped, Some(lambda_names(bound, e)))
    } else {
        callsites_kids(types, folds, rets, lin, ctx, e, name, arity, i, scoped, bound, crate::ast::children(e).len())
    }
}

/// The first `n` arguments of the call `e` pass the same test.
pub open spec fn callsites_args(
    types: Seq<String>,
    folds: Seq<String>,
    rets: Seq<(String, usize)>,
    lin: Seq<Site>,
    ctx: FnDecl,
    e: Expr,
    name: Seq<char>,
    arity: usize,
    i: usize,
    scoped: Option<Seq<char>>,
    bound: Option<Set<Seq<char>>>,
    n: nat,
) -> bool
    decreases size(e), 0nat, n,
    via callsites_args_decreases
{
    if n == 0 || !(e is App) || n > e->App_args@.len() {
        true
    } else {
        callsites_args(types, folds, rets, lin, ctx, e, name, arity, i, scoped, bound, (n - 1) as nat) && callsites_ok(
            types,
            folds,
            rets,
            lin,
            ctx,
            e->App_args@[n - 1],
            name,
            arity,
            i,
            scoped,
            bound,
        )
    }
}

/// The first `n` direct sub-expressions of `e` pass the same test.
pub open spec fn callsites_kids(
    types: Seq<String>,
    folds: Seq<String>,
    rets: Seq<(String, usize)>,
    lin: Seq<Site>,
    ctx: FnDecl,
    e: Expr,
    name: Seq<char>,
    arity: usize,
    i: usize,
    scoped: Option<Seq<char>>,
    bound: Option<Set<Seq<char>>>,
    n: nat,
) -> bool
    decreases size(e), 0nat, n,
    via callsites_kids_decreases
{
    if n == 0 || n > crate::ast::children(e).len() {
        true
    } else {
        callsites_kids(types, folds, rets, lin, ctx, e, name, arity, i, scoped, bound, (n - 1) as nat) && callsites_ok(
            types,
            folds,
            rets,
            lin,
            ctx,
            crate::ast::children(e)[n - 1],
            name,
            arity,
            i,
            scoped,
            bound,
        )
    }
}

#[via_fn]
proof fn callsites_ok_decreases(
    types: Seq<String>,
    folds: Seq<String>,
    rets: Seq<(String, usize)>,
    lin: Seq<Site>,
    ctx: FnDecl,
    e: Expr,
    name: Seq<char>,
    arity: usize,
    i: usize,
    scoped: Option<Seq<char>>,
    bound: Option<Set<Seq<char>>>,
) {
    lemma_parts_smaller(e);
    if e is App {
        lemma_parts_smaller(*e->App_head);
        if e->App_args@.len() == 3 {
            lemma_parts_smaller(e->App_args@[2]);
        }
    }
}

#[via_fn]
proof fn callsites_args_decreases(
    types: Seq<String>,
    folds: Seq<String>,
    rets: Seq<(String, usize)>,
    lin: Seq<Site>,
    ctx: FnDecl,
    e: Expr,
    name: Seq<char>,
    arity: usize,
    i: usize,
    scoped: Option<Seq<char>>,
    bound: Option<Set<Seq<char>>>,
    n: nat,
) {
    lemma_parts_smaller(e);
}

#[via_fn]
proof fn callsites_kids_decreases(
    types: Seq<String>,
    folds: Seq<String>,
    rets: Seq<(String, usize)>,
    lin: Seq<Site>,
    ctx: FnDecl,
    e: Expr,
    name: Seq<char>,
    arity: usize,
    i: usize,
    scoped: Option<Seq<char>>,
    bound: Option<Set<Seq<char>>>,
    n: nat,
) {
    lemma_children_smaller(e);
}

/// Whether `e` is the name `name`.
pub open spec fn is_named_spec(e: Expr, name: Seq<char>) -> bool {
    e is Ident && e->Ident_0@ == name
}

proof fn lemma_fresh_view(lambda_bound: Option<&Vec<String>>, arg: Expr)
    ensures
        fresh_in(bound_view(lambda_bound), arg) == (match lambda_bound {
            None => true,
            Some(b) => forall|k: int| 0 <= k < idents_in(arg).len() ==> holds_text(b@, #[trigger] idents_in(arg)[k]),
        }),
{
}

proof fn lemma_callsites_args_prefix(
    types: Seq<String>,
    folds: Seq<String>,
    rets: Seq<(String, usize)>,
    lin: Seq<Site>,
    ctx: FnDecl,
    e: Expr,
    name: Seq<char>,
    arity: usize,
    i: usize,
    scoped: Option<Seq<char>>,
    bound: Option<Set<Seq<char>>>,
    k: nat,
    m: nat,
)
    requires
        e is App,
        k <= m <= e->App_args@.len(),
        callsites_args(types, folds, rets, lin, ctx, e, name, arity, i, scoped, bound, m),
    ensures
        callsites_args(types, folds, rets, lin, ctx, e, name, arity, i, scoped, bound, k),
    decreases m - k,
{
    if k < m {
        lemma_callsites_args_prefix(types, folds, rets, lin, ctx, e, name, arity, i, scoped, bound, k, (m - 1) as nat);
    }
}

proof fn lemma_callsites_kids_prefix(
    types: Seq<String>,
    folds: Seq<String>,
    rets: Seq<(String, usize)>,
    lin: Seq<Site>,
    ctx: FnDecl,
    e: Expr,
    name: Seq<char>,
    arity: usize,
    i: usize,
    scoped: Option<Seq<char>>,
    bound: Option<Set<Seq<char>>>,
    k: nat,
    m: nat,
)
    requires
        k <= m <= crate::ast::children(e).len(),
        callsites_kids(types, folds, rets, lin, ctx, e, name, arity, i, scoped, bound, m),
    ensures
        callsites_kids(types, folds, rets, lin, ctx, e, name, arity, i, scoped, bound, k),
    decreases m - k,
{
    if k < m {
        lemma_callsites_kids_prefix(types, folds, rets, lin, ctx, e, name, arity, i, scoped, bound, k, (m - 1) as nat);
    }
}

/// Whether the arm `decl` moves its parameter `i`: a name used at most
/// once beyond a consuming call's sibling reads, or a wildcard.
pub open spec fn arm_moves(decl: FnDecl, i: usize) -> bool {
    i < decl.params@.len() && match decl.params@[i as int] {
        Pattern::Var(p, _) => body_uses(p@, decl.body@, decl.body@.len()).saturating_sub(
            body_siblings(p@, decl.body@, decl.body@.len()),
        ) <= 1,
        Pattern::Wildcard(_) => true,
        _ => false,
    }
}

/// Whether the arm `d` of `name` with `arity` parameters belongs to that group.
pub open spec fn in_group(d: FnDecl, name: Seq<char>, arity: usize) -> bool {
    d.params@.len() == arity && d.name@ == name
}

/// Whether parameter `i` of the group is linear: every arm moves it, and
/// every call site anywhere in `fns` hands over a uniquely owned value.
pub open spec fn param_linear(
    types: Seq<String>,
    folds: Seq<String>,
    rets: Seq<(String, usize)>,
    lin: Seq<Site>,
    fns: Seq<FnDecl>,
    name: Seq<char>,
    arity: usize,
    i: usize,
) -> bool {
    &&& forall|k: int| 0 <= k < fns.len() && in_group(#[trigger] fns[k], name, arity) ==> arm_moves(fns[k], i)
    &&& forall|k: int, j: int|
        0 <= k < fns.len() && 0 <= j < fns[k].body@.len() ==> callsites_ok(
            types,
            folds,
            rets,
            lin,
            fns[k],
            #[trigger] stmt_expr(fns[k].body@[j]),
            name,
            arity,
            i,
            None,
            None,
        )
}

/// Whether the arm `d` ends in an expression that is uniquely owned.
pub open spec fn arm_unique(types: Seq<String>, folds: Seq<String>, rets: Seq<(String, usize)>, lin: Seq<Site>, d: FnDecl) -> bool {
    d.body@.len() > 0 && d.body@.last() is Expr && unique_with(
        types,
        folds,
        rets,
        lin,
        d.body@.last()->Expr_0,
        d,
        None,
        Seq::empty(),
        d.body@.len(),
    )
}

/// Whether every arm of the group ends in a uniquely owned value.
pub open spec fn group_unique(
    types: Seq<String>,
    folds: Seq<String>,
    rets: Seq<(String, usize)>,
    lin: Seq<Site>,
    fns: Seq<FnDecl>,
    name: Seq<char>,
    arity: usize,
) -> bool {
    forall|k: int| 0 <= k < fns.len() && in_group(#[trigger] fns[k], name, arity) ==> arm_unique(types, folds, rets, lin, fns[k])
}

/// Whether some statement of `fns` mentions the group `name` of `arity`
/// parameters as a value rather than calling it.
pub open spec fn escapes_in(fns: Seq<FnDecl>, name: Seq<char>, arity: usize) -> bool {
    exists|k: int, j: int| 0 <= k < fns.len() && 0 <= j < fns[k].body@.len() && value_mention(#[trigger] stmt_expr(fns[k].body@[j]), name, arity)
}

/// Names the language calls by syntax rather than by name.
pub open spec fn is_operator_name(name: Seq<char>) -> bool {
    name == "+"@ || name == "-"@ || name == "*"@ || name == "/"@ || name == "%"@ || name == "<"@ || name == ">"@ || name
        == "<="@ || name == ">="@ || name == "=="@
}

/// Whether every call site of the group hands over a uniquely owned value
/// at `i`; an operator or a group that escapes as a value never does.
pub open spec fn hand_over(
    types: Seq<String>,
    folds: Seq<String>,
    rets: Seq<(String, usize)>,
    lin: Seq<Site>,
    fns: Seq<FnDecl>,
    name: Seq<char>,
    arity: usize,
    i: usize,
) -> bool {
    &&& !is_operator_name(name)
    &&& !escapes_in(fns, name, arity)
    &&& forall|k: int, j: int|
        0 <= k < fns.len() && 0 <= j < fns[k].body@.len() ==> callsites_ok(
            types,
            folds,
            rets,
            lin,
            fns[k],
            #[trigger] stmt_expr(fns[k].body@[j]),
            name,
            arity,
            i,
            None,
            None,
        )
}

/// Whether `x` is one of the positions `v` lists.
pub open spec fn among_sites(v: Seq<Site>, x: Site) -> bool {
    exists|j: int| 0 <= j < v.len() && v[j] == x
}

/// Whether `x` is one of the groups `v` lists.
pub open spec fn among_groups(v: Seq<(String, usize)>, x: (String, usize)) -> bool {
    exists|j: int| 0 <= j < v.len() && v[j] == x
}

/// Whether `s` is a parameter position of a declaration the program
/// wrote itself.
pub open spec fn written_slot(program: Program, s: Site) -> bool {
    exists|d: int| 0 <= d < program.fns@.len() && !(#[trigger] program.fns@[d]).synthetic && program.fns@[d].name@ == s.0@
        && program.fns@[d].params@.len() == s.1 && s.2 < s.1
}

/// Whether `g` is the group of a declaration the program wrote itself.
pub open spec fn written_group(program: Program, g: (String, usize)) -> bool {
    exists|d: int| 0 <= d < program.fns@.len() && !(#[trigger] program.fns@[d]).synthetic && program.fns@[d].name@ == g.0@
        && program.fns@[d].params@.len() == g.1
}

/// Whether the declared type names `types`, the spellings of fold `folds`,
/// the groups answering a fresh list `rets` and the linear parameter
/// positions `lin` are answers the analysis settles on for `program`: every
/// type name and every spelling of fold listed, and every listed position
/// and group, one the program wrote itself, passing its test against these
/// same answers.
pub open spec fn settled(program: Program, types: Seq<String>, folds: Seq<String>, rets: Seq<(String, usize)>, lin: Seq<Site>) -> bool {
    &&& forall|x: Seq<char>| #[trigger] holds_text(types, x) <==> declares_type(program.types@, x)
    &&& forall|x: Seq<char>|
        #[trigger] holds_text(folds, x) <==> exists|j: int|
            0 <= j < program.fns@.len() && fold_arm(#[trigger] program.fns@[j]) && program.fns@[j].name@ == x
    &&& forall|k: int|
        0 <= k < lin.len() ==> written_slot(program, #[trigger] lin[k]) && param_linear(
            types,
            folds,
            rets,
            lin,
            program.fns@,
            lin[k].0@,
            lin[k].1,
            lin[k].2,
        )
    &&& forall|k: int|
        0 <= k < rets.len() ==> written_group(program, #[trigger] rets[k]) && group_unique(
            types,
            folds,
            rets,
            lin,
            program.fns@,
            rets[k].0@,
            rets[k].1,
        )
}

/// What the analysis has settled about a program: the declared type names,
/// the parameter positions that receive a uniquely owned list at every call
/// site and move it, the groups whose result is a freshly built list, and
/// the spellings of std/list's `fold`.
struct Analysis<'a> {
    program: &'a Program,
    types: Vec<String>,
    linear_params: Vec<(String, usize, usize)>,
    returns_unique: Vec<(String, usize)>,
    folds: Vec<String>,
}

impl<'a> Analysis<'a> {
    /// Linearity is cyclically self-supporting, so this is a greatest
    /// fixpoint: every parameter starts linear and every group unique, and
    /// whatever the code disproves is removed until nothing changes.
    fn new(program: &'a Program) -> (r: Analysis<'a>)
        ensures
            r.program == program,
            settled(*program, r.types@, r.folds@, r.returns_unique@, r.linear_params@),
    {
        let mut types: Vec<String> = Vec::new();
        let mut k: usize = 0;
        while k < program.types.len()
            invariant
                k <= program.types@.len(),
                forall|x: Seq<char>| #[trigger] holds_text(types@, x) <==> exists|t: int| 0 <= t < k && (#[trigger] program.types@[t]).name@ == x,
            decreases program.types@.len() - k,
        {
            add_str(&mut types, &program.types[k].name);
            assert forall|x: Seq<char>| #[trigger] holds_text(types@, x) <==> exists|t: int| 0 <= t < k + 1 && (#[trigger] program.types@[t]).name@ == x by {
                if exists|t: int| 0 <= t < k + 1 && (#[trigger] program.types@[t]).name@ == x {
                    let t = choose|t: int| 0 <= t < k + 1 && (#[trigger] program.types@[t]).name@ == x;
                    if t < k {
                        assert(exists|t2: int| 0 <= t2 < k && (#[trigger] program.types@[t2]).name@ == x);
                    }
                }
            }
            k += 1;
        }
        let folds = fold_spellings(program);
        let mut linear_params: Vec<(String, usize, usize)> = Vec::new();
        let mut returns_unique: Vec<(String, usize)> = Vec::new();
        let mut k: usize = 0;
        while k < program.fns.len()
            invariant
                k <= program.fns@.len(),
                forall|q: int| 0 <= q < linear_params@.len() ==> written_slot(*program, #[trigger] linear_params@[q]),
                forall|q: int| 0 <= q < returns_unique@.len() ==> written_group(*program, #[trigger] returns_unique@[q]),
            decreases program.fns@.len() - k,
        {
            let decl = &program.fns[k];
            if !decl.synthetic {
                let arity = decl.params.len();
                if !has_pair(&returns_unique, decl.name.as_str(), arity) {
                    returns_unique.push((decl.name.clone(), arity));
                    assert(written_group(*program, returns_unique@[returns_unique@.len() - 1]));
                }
                let mut i: usize = 0;
                while i < arity
                    invariant
                        i <= arity,
                        arity == decl.params@.len(),
                        k < program.fns@.len(),
                        *decl == program.fns@[k as int],
                        !decl.synthetic,
                        forall|q: int| 0 <= q < linear_params@.len() ==> written_slot(*program, #[trigger] linear_params@[q]),
                    decreases arity - i,
                {
                    if !has_triple(&linear_params, decl.name.as_str(), arity, i) {
                        linear_params.push((decl.name.clone(), arity, i));
                        assert(written_slot(*program, linear_params@[linear_params@.len() - 1]));
                    }
                    i += 1;
                }
            }
            k += 1;
        }
        let mut a = Analysis { program, types, linear_params, returns_unique, folds };
        let ghost a0 = a;
        a.fixpoint();
        proof {
            assert forall|q: int| 0 <= q < a.linear_params@.len() implies written_slot(*program, #[trigger] a.linear_params@[q]) by {
                let j = choose|j: int| 0 <= j < a0.linear_params@.len() && a0.linear_params@[j] == a.linear_params@[q];
                assert(written_slot(*program, a0.linear_params@[j]));
            }
            assert forall|q: int| 0 <= q < a.returns_unique@.len() implies written_group(*program, #[trigger] a.returns_unique@[q]) by {
                let j = choose|j: int| 0 <= j < a0.returns_unique@.len() && a0.returns_unique@[j] == a.returns_unique@[q];
                assert(written_group(*program, a0.returns_unique@[j]));
            }
            assert forall|x: Seq<char>| #[trigger] holds_text(a.folds@, x) <==> exists|j: int|
                0 <= j < program.fns@.len() && fold_arm(#[trigger] program.fns@[j]) && program.fns@[j].name@ == x by {
                assert(holds_text(a.folds@, x) == crate::passes::listed(a.folds@, x));
            }
        }
        a
    }

    fn fixpoint(&mut self)
        ensures
            final(self).program == old(self).program,
            final(self).types == old(self).types,
            final(self).folds == old(self).folds,
            forall|k: int| 0 <= k < final(self).linear_params@.len() ==> among_sites(old(self).linear_params@, #[trigger] final(self).linear_params@[k]),
            forall|k: int| 0 <= k < final(self).returns_unique@.len() ==> among_groups(old(self).returns_unique@, #[trigger] final(self).returns_unique@[k]),
            forall|k: int| 0 <= k < final(self).linear_params@.len() ==> param_linear(
                final(self).types@,
                final(self).folds@,
                final(self).returns_unique@,
                final(self).linear_params@,
                final(self).program.fns@,
                (#[trigger] final(self).linear_params@[k]).0@,
                final(self).linear_params@[k].1,
                final(self).linear_params@[k].2,
            ),
            forall|k: int| 0 <= k < final(self).returns_unique@.len() ==> group_unique(
                final(self).types@,
                final(self).folds@,
                final(self).returns_unique@,
                final(self).linear_params@,
                final(self).program.fns@,
                (#[trigger] final(self).returns_unique@[k]).0@,
                final(self).returns_unique@[k].1,
            ),
    {
        proof {
            assert forall|k: int| 0 <= k < self.linear_params@.len() implies among_sites(old(self).linear_params@, #[trigger] self.linear_params@[k]) by {
                assert(old(self).linear_params@[k] == self.linear_params@[k]);
            }
            assert forall|k: int| 0 <= k < self.returns_unique@.len() implies among_groups(old(self).returns_unique@, #[trigger] self.returns_unique@[k]) by {
                assert(old(self).returns_unique@[k] == self.returns_unique@[k]);
            }
        }
        loop
            invariant
                self.program == old(self).program,
                self.types == old(self).types,
                self.folds == old(self).folds,
                forall|k: int| 0 <= k < self.linear_params@.len() ==> among_sites(old(self).linear_params@, #[trigger] self.linear_params@[k]),
                forall|k: int| 0 <= k < self.returns_unique@.len() ==> among_groups(old(self).returns_unique@, #[trigger] self.returns_unique@[k]),
            decreases self.linear_params@.len() + self.returns_unique@.len(),
        {
            let before_params = self.linear_params.len();
            let before_groups = self.returns_unique.len();
            let ghost lp = self.linear_params@;
            let ghost ru = self.returns_unique@;
            let mut kept: Vec<(String, usize, usize)> = Vec::new();
            let mut k: usize = 0;
            while k < self.linear_params.len()
                invariant
                    k <= self.linear_params@.len(),
                    kept@.len() <= k,
                    self.linear_params@ == lp,
                    self.returns_unique@ == ru,
                    self.program == old(self).program,
                    self.types == old(self).types,
                    self.folds == old(self).folds,
                    forall|q: int| 0 <= q < kept@.len() ==> among_sites(lp, #[trigger] kept@[q]),
                    kept@.len() == k ==> kept@ == lp.subrange(0, k as int),
                    kept@.len() == k ==> forall|q: int| 0 <= q < k ==> param_linear(self.types@, self.folds@, self.returns_unique@, self.linear_params@, self.program.fns@, (#[trigger] lp[q]).0@, lp[q].1, lp[q].2),
                decreases self.linear_params@.len() - k,
            {
                let (name, arity, i) = &self.linear_params[k];
                if self.param_is_linear(name.as_str(), *arity, *i) {
                    let ghost kb = kept@;
                    kept.push((name.clone(), *arity, *i));
                    assert(kept@[kept@.len() - 1] == lp[k as int]);
                    proof {
                        if kb.len() == k {
                            assert(kept@ =~= lp.subrange(0, k + 1));
                        }
                        assert forall|q: int| 0 <= q < kept@.len() implies among_sites(lp, #[trigger] kept@[q]) by {
                            if q < kb.len() {
                                assert(kept@[q] == kb[q]);
                            } else {
                                assert(kept@[q] == lp[k as int]);
                            }
                        }
                    }
                }
                k += 1;
            }
            self.linear_params = kept;
            let ghost lp2 = self.linear_params@;
            let mut kept_groups: Vec<(String, usize)> = Vec::new();
            let mut k: usize = 0;
            while k < self.returns_unique.len()
                invariant
                    k <= self.returns_unique@.len(),
                    kept_groups@.len() <= k,
                    self.linear_params@ == lp2,
                    self.returns_unique@ == ru,
                    self.program == old(self).program,
                    self.types == old(self).types,
                    self.folds == old(self).folds,
                    forall|q: int| 0 <= q < kept_groups@.len() ==> among_groups(ru, #[trigger] kept_groups@[q]),
                    kept_groups@.len() == k ==> kept_groups@ == ru.subrange(0, k as int),
                    kept_groups@.len() == k ==> forall|q: int| 0 <= q < k ==> group_unique(self.types@, self.folds@, self.returns_unique@, self.linear_params@, self.program.fns@, (#[trigger] ru[q]).0@, ru[q].1),
                decreases self.returns_unique@.len() - k,
            {
                let (name, arity) = &self.returns_unique[k];
                if self.group_returns_unique(name.as_str(), *arity) {
                    let ghost kb = kept_groups@;
                    kept_groups.push((name.clone(), *arity));
                    assert(kept_groups@[kept_groups@.len() - 1] == ru[k as int]);
                    proof {
                        if kb.len() == k {
                            assert(kept_groups@ =~= ru.subrange(0, k + 1));
                        }
                        assert forall|q: int| 0 <= q < kept_groups@.len() implies among_groups(ru, #[trigger] kept_groups@[q]) by {
                            if q < kb.len() {
                                assert(kept_groups@[q] == kb[q]);
                            } else {
                                assert(kept_groups@[q] == ru[k as int]);
                            }
                        }
                    }
                }
                k += 1;
            }
            self.returns_unique = kept_groups;
            proof {
                assert forall|k: int| 0 <= k < self.linear_params@.len() implies among_sites(old(self).linear_params@, #[trigger] self.linear_params@[k]) by {
                    let j = choose|j: int| 0 <= j < lp.len() && lp[j] == lp2[k];
                    assert(among_sites(old(self).linear_params@, lp[j]));
                }
                assert forall|k: int| 0 <= k < self.returns_unique@.len() implies among_groups(old(self).returns_unique@, #[trigger] self.returns_unique@[k]) by {
                    let j = choose|j: int| 0 <= j < ru.len() && ru[j] == self.returns_unique@[k];
                    assert(among_groups(old(self).returns_unique@, ru[j]));
                }
            }
            if self.linear_params.len() == before_params && self.returns_unique.len() == before_groups {
                assert(lp2 =~= lp);
                assert(self.returns_unique@ =~= ru);
                return;
            }
        }
    }

    /// Every arm of the group ends in a uniquely owned list.
    fn group_returns_unique(&self, name: &str, arity: usize) -> (r: bool)
        ensures
            r == group_unique(self.types@, self.folds@, self.returns_unique@, self.linear_params@, self.program.fns@, name@, arity),
    {
        let fns = &self.program.fns;
        let mut k: usize = 0;
        while k < fns.len()
            invariant
                k <= fns@.len(),
                *fns == self.program.fns,
                forall|q: int| 0 <= q < k && in_group(#[trigger] fns@[q], name@, arity) ==> arm_unique(self.types@, self.folds@, self.returns_unique@, self.linear_params@, fns@[q]),
            decreases fns@.len() - k,
        {
            let d = &fns[k];
            if d.params.len() == arity && same_text(d.name.as_str(), name) {
                assert(in_group(fns@[k as int], name@, arity));
                let n = d.body.len();
                if n == 0 {
                    return false;
                }
                match &d.body[n - 1] {
                    Stmt::Expr(e) => {
                        if !self.unique_in(e, d, None) {
                            return false;
                        }
                    },
                    _ => {
                        return false;
                    },
                }
            }
            k += 1;
        }
        true
    }

    /// In every arm the parameter is moved (a name used at most once, or a
    /// wildcard), and every call site hands over a uniquely owned list.
    fn param_is_linear(&self, name: &str, arity: usize, i: usize) -> (r: bool)
        ensures
            r == param_linear(self.types@, self.folds@, self.returns_unique@, self.linear_params@, self.program.fns@, name@, arity, i),
    {
        let fns = &self.program.fns;
        let mut k: usize = 0;
        while k < fns.len()
            invariant
                k <= fns@.len(),
                *fns == self.program.fns,
                forall|q: int| 0 <= q < k && in_group(#[trigger] fns@[q], name@, arity) ==> arm_moves(fns@[q], i),
            decreases fns@.len() - k,
        {
            let decl = &fns[k];
            if decl.params.len() == arity && same_text(decl.name.as_str(), name) {
                assert(in_group(fns@[k as int], name@, arity));
                if i >= decl.params.len() {
                    return false;
                }
                match &decl.params[i] {
                    Pattern::Var(pname, _) => {
                        if effective_uses(pname.as_str(), &decl.body) > 1 {
                            return false;
                        }
                    },
                    Pattern::Wildcard(_) => {},
                    _ => {
                        return false;
                    },
                }
            }
            k += 1;
        }
        assert(k == fns@.len());
        assert(forall|q: int| 0 <= q < fns@.len() && in_group(#[trigger] fns@[q], name@, arity) ==> arm_moves(fns@[q], i));
        let mut k: usize = 0;
        while k < fns.len()
            invariant
                k <= fns@.len(),
                *fns == self.program.fns,
                forall|q: int| 0 <= q < fns@.len() && in_group(#[trigger] fns@[q], name@, arity) ==> arm_moves(fns@[q], i),
                forall|q: int, j: int| 0 <= q < k && 0 <= j < fns@[q].body@.len() ==> callsites_ok(self.types@, self.folds@, self.returns_unique@, self.linear_params@, fns@[q], #[trigger] stmt_expr(fns@[q].body@[j]), name@, arity, i, None, None),
            decreases fns@.len() - k,
        {
            let caller = &fns[k];
            let mut j: usize = 0;
            while j < caller.body.len()
                invariant
                    j <= caller.body@.len(),
                    k < fns@.len(),
                    *caller == fns@[k as int],
                    *fns == self.program.fns,
                    forall|q: int, j: int| 0 <= q < k && 0 <= j < fns@[q].body@.len() ==> callsites_ok(self.types@, self.folds@, self.returns_unique@, self.linear_params@, fns@[q], #[trigger] stmt_expr(fns@[q].body@[j]), name@, arity, i, None, None),
                    forall|q: int| 0 <= q < j ==> callsites_ok(self.types@, self.folds@, self.returns_unique@, self.linear_params@, *caller, #[trigger] stmt_expr(caller.body@[q]), name@, arity, i, None, None),
                decreases caller.body@.len() - j,
            {
                if !self.callsites_unique_in(caller, stmt_expr_of(&caller.body[j]), name, arity, i, None, None) {
                    assert(!callsites_ok(self.types@, self.folds@, self.returns_unique@, self.linear_params@, fns@[k as int], stmt_expr(fns@[k as int].body@[j as int]), name@, arity, i, None, None));
                    return false;
                }
                j += 1;
            }
            k += 1;
        }
        true
    }

    /// True unless some call to `name`/`arity` in `e` passes a list at
    /// position `i` that is not uniquely owned. `scoped` names a folding
    /// lambda's accumulator, unique by the fold's own contract; inside a
    /// lambda, `lambda_bound` holds the names the lambda binds itself.
    fn callsites_unique_in(
        &self,
        ctx: &FnDecl,
        e: &Expr,
        name: &str,
        arity: usize,
        i: usize,
        scoped: Option<&str>,
        lambda_bound: Option<&Vec<String>>,
    ) -> (r: bool)
        ensures
            r == callsites_ok(self.types@, self.folds@, self.returns_unique@, self.linear_params@, *ctx, *e, name@, arity, i, scoped_view(scoped), bound_view(lambda_bound)),
        decreases size(*e),
    {
        proof {
            lemma_parts_smaller(*e);
            lemma_children_smaller(*e);
        }
        let ghost sv = scoped_view(scoped);
        let ghost bv = bound_view(lambda_bound);
        if let Expr::App { head, args, .. } = e {
            if is_named(head, name) && args.len() == arity && i < arity && (!self.unique_in(&args[i], ctx, scoped)
                || !hands_over_fresh(&args[i], lambda_bound)) {
                proof {
                    lemma_fresh_view(lambda_bound, args@[i as int]);
                }
                return false;
            }
            proof {
                if is_named_spec(**head, name@) && args@.len() == arity && i < arity {
                    lemma_fresh_view(lambda_bound, args@[i as int]);
                }
            }
            if let Expr::Ident(n, _) = &**head {
                if has_str(&self.folds, n.as_str()) && args.len() == 3 {
                    if let Expr::Lambda { params, body, .. } = &args[2] {
                        if self.folder_is_unique(&args[2]) {
                            proof {
                                lemma_parts_smaller(args@[2]);
                            }
                            let inner = first_param(params);
                            let bound = self.lambda_names_exec(lambda_bound, &args[2]);
                            let ghost lam = args@[2];
                            proof {
                                assert(Set::new(|x: Seq<char>| holds_text(bound@, x)) =~= lambda_names(bv, lam));
                                assert(scoped_view(inner) == (if lam->Lambda_params@.len() > 0 {
                                    Some(lam->Lambda_params@[0].0@)
                                } else {
                                    None
                                }));
                            }
                            return self.callsites_unique_in(ctx, &args[0], name, arity, i, scoped, lambda_bound)
                                && self.callsites_unique_in(ctx, &args[1], name, arity, i, scoped, lambda_bound)
                                && self.callsites_unique_in(ctx, body, name, arity, i, inner, Some(&bound));
                        }
                    }
                }
            }
            if let Expr::Lambda { body, .. } = &**head {
                proof {
                    lemma_parts_smaller(**head);
                }
                if !self.callsites_unique_in(ctx, body, name, arity, i, scoped, lambda_bound) {
                    return false;
                }
                assert(callsites_ok(self.types@, self.folds@, self.returns_unique@, self.linear_params@, *ctx, *e, name@, arity, i, sv, bv) == callsites_args(self.types@, self.folds@, self.returns_unique@, self.linear_params@, *ctx, *e, name@, arity, i, sv, bv, args@.len()));
                let mut k: usize = 0;
                while k < args.len()
                    invariant
                        k <= args@.len(),
                        forall|j: int| 0 <= j < args@.len() ==> size(#[trigger] args@[j]) < size(*e),
                        *e is App && e->App_args == *args,
                        sv == scoped_view(scoped),
                        bv == bound_view(lambda_bound),
                        callsites_args(self.types@, self.folds@, self.returns_unique@, self.linear_params@, *ctx, *e, name@, arity, i, sv, bv, k as nat),
                        callsites_ok(self.types@, self.folds@, self.returns_unique@, self.linear_params@, *ctx, *e, name@, arity, i, sv, bv) == callsites_args(self.types@, self.folds@, self.returns_unique@, self.linear_params@, *ctx, *e, name@, arity, i, sv, bv, args@.len()),
                    decreases args@.len() - k,
                {
                    if !self.callsites_unique_in(ctx, &args[k], name, arity, i, scoped, lambda_bound) {
                        proof {
                            if callsites_args(self.types@, self.folds@, self.returns_unique@, self.linear_params@, *ctx, *e, name@, arity, i, sv, bv, args@.len()) {
                                lemma_callsites_args_prefix(self.types@, self.folds@, self.returns_unique@, self.linear_params@, *ctx, *e, name@, arity, i, sv, bv, (k + 1) as nat, args@.len());
                            }
                        }
                        return false;
                    }
                    k += 1;
                }
                return true;
            }
        }
        if let Expr::Lambda { params, body, .. } = e {
            let bound = self.lambda_names_exec(lambda_bound, e);
            proof {
                assert(Set::new(|x: Seq<char>| holds_text(bound@, x)) =~= lambda_names(bv, *e));
            }
            return self.callsites_unique_in(ctx, body, name, arity, i, scoped, Some(&bound));
        }
        assert(callsites_ok(self.types@, self.folds@, self.returns_unique@, self.linear_params@, *ctx, *e, name@, arity, i, sv, bv) == callsites_kids(self.types@, self.folds@, self.returns_unique@, self.linear_params@, *ctx, *e, name@, arity, i, sv, bv, crate::ast::children(*e).len()));
        let kids = for_each_child(e);
        let mut k: usize = 0;
        while k < kids.len()
            invariant
                k <= kids@.len(),
                refs(kids@) == crate::ast::children(*e),
                forall|j: int| 0 <= j < crate::ast::children(*e).len() ==> size(#[trigger] crate::ast::children(*e)[j]) < size(*e),
                callsites_ok(self.types@, self.folds@, self.returns_unique@, self.linear_params@, *ctx, *e, name@, arity, i, sv, bv) == callsites_kids(self.types@, self.folds@, self.returns_unique@, self.linear_params@, *ctx, *e, name@, arity, i, sv, bv, crate::ast::children(*e).len()),
                sv == scoped_view(scoped),
                bv == bound_view(lambda_bound),
                callsites_kids(self.types@, self.folds@, self.returns_unique@, self.linear_params@, *ctx, *e, name@, arity, i, sv, bv, k as nat),
            decreases kids@.len() - k,
        {
            assert(refs(kids@)[k as int] == *kids@[k as int]);
            if !self.callsites_unique_in(ctx, kids[k], name, arity, i, scoped, lambda_bound) {
                proof {
                    if callsites_kids(self.types@, self.folds@, self.returns_unique@, self.linear_params@, *ctx, *e, name@, arity, i, sv, bv, kids@.len()) {
                        lemma_callsites_kids_prefix(self.types@, self.folds@, self.returns_unique@, self.linear_params@, *ctx, *e, name@, arity, i, sv, bv, (k + 1) as nat, kids@.len());
                    }
                }
                return false;
            }
            k += 1;
        }
        true
    }

    /// The names the lambda `lam` binds for itself, with those of
    /// `lambda_bound`.
    fn lambda_names_exec(&self, lambda_bound: Option<&Vec<String>>, lam: &Expr) -> (r: Vec<String>)
        requires
            lam is Lambda,
        ensures
            forall|x: Seq<char>| #[trigger] holds_text(r@, x) <==> lambda_names(bound_view(lambda_bound), *lam).contains(x),
    {
        let (params, body) = match lam {
            Expr::Lambda { params, body, .. } => (params, body),
            _ => {
                return Vec::new();
            },
        };
        let mut bound: Vec<String> = match lambda_bound {
            Some(b) => b.clone(),
            None => Vec::new(),
        };
        proof {
            match lambda_bound {
                Some(b) => {
                    assert(bound@ =~= b@);
                },
                None => {},
            }
        }
        let ghost b0 = bound@;
        let mut k: usize = 0;
        while k < params.len()
            invariant
                k <= params@.len(),
                forall|x: Seq<char>| #[trigger] holds_text(bound@, x) <==> (holds_text(b0, x) || exists|q: int| 0 <= q < k && (#[trigger] params@[q]).0@ == x),
            decreases params@.len() - k,
        {
            add_str(&mut bound, &params[k].0);
            assert forall|x: Seq<char>| #[trigger] holds_text(bound@, x) <==> (holds_text(b0, x) || exists|q: int| 0 <= q < k + 1 && (#[trigger] params@[q]).0@ == x) by {
                if exists|q: int| 0 <= q < k + 1 && (#[trigger] params@[q]).0@ == x {
                    let q = choose|q: int| 0 <= q < k + 1 && (#[trigger] params@[q]).0@ == x;
                    if q < k {
                        assert(exists|q2: int| 0 <= q2 < k && (#[trigger] params@[q2]).0@ == x);
                    }
                }
            }
            k += 1;
        }
        collect_bound_names(body, &mut bound);
        proof {
            assert forall|x: Seq<char>| #[trigger] holds_text(bound@, x) <==> lambda_names(bound_view(lambda_bound), *lam).contains(x) by {
                match lambda_bound {
                    Some(b) => {
                        assert(holds_text(b0, x) == holds_text(b@, x));
                    },
                    None => {
                        assert(!holds_text(b0, x));
                    },
                }
            }
        }
        bound
    }

    /// Does this folding function hand back a uniquely owned value? Only the
    /// shape an accumulator loop written with `fold` takes: a lambda whose
    /// body passes its own first parameter on first.
    fn folder_is_unique(&self, f: &Expr) -> (r: bool)
        ensures
            r == folder_unique(self.returns_unique@, *f),
    {
        match f {
            Expr::Lambda { params, body, .. } => {
                if params.len() == 0 {
                    return false;
                }
                self.body_is_folder(body, params[0].0.as_str())
            },
            _ => false,
        }
    }

    /// Does every path through a folder's body either hand the accumulator
    /// back untouched or apply an accumulator operation to it?
    fn body_is_folder(&self, body: &Expr, acc: &str) -> (r: bool)
        ensures
            r == folder_body(self.returns_unique@, *body, acc@),
        decreases size(*body),
    {
        proof {
            lemma_parts_smaller(*body);
        }
        match body {
            Expr::Ident(n, _) => same_text(n.as_str(), acc),
            Expr::App { head, args, .. } => {
                match &**head {
                    Expr::Lambda { params, body: inner, .. } => {
                        proof {
                            lemma_parts_smaller(**head);
                        }
                        if params.len() == 0 {
                            return false;
                        }
                        takes_acc_first_with(args, acc, false) && self.body_is_folder(inner, params[0].0.as_str())
                    },
                    Expr::Ident(callee, _) => {
                        proof {
                            reveal_strlit("if");
                            reveal_strlit("push");
                            reveal_strlit("append");
                            reveal_strlit("builtin_append");
                            reveal_strlit("put");
                        }
                        if same_text(callee.as_str(), "if") && args.len() == 3 {
                            return count_in_expr(acc, &args[0]) == 0 && self.body_is_folder(&args[1], acc)
                                && self.body_is_folder(&args[2], acc);
                        }
                        let builtin = ((same_text(callee.as_str(), "push") || same_text(callee.as_str(), "append")
                            || same_text(callee.as_str(), "builtin_append")) && args.len() == 2) || (same_text(
                            callee.as_str(),
                            "put",
                        ) && args.len() == 3);
                        if !takes_acc_first_with(args, acc, builtin) {
                            return false;
                        }
                        builtin || has_pair(&self.returns_unique, callee.as_str(), args.len())
                    },
                    _ => false,
                }
            },
            _ => false,
        }
    }

    fn unique_in(&self, e: &Expr, ctx: &FnDecl, scoped: Option<&str>) -> (r: bool)
        ensures
            r == unique_with(self.types@, self.folds@, self.returns_unique@, self.linear_params@, *e, *ctx, scoped_view(scoped), Seq::empty(), ctx.body@.len()),
    {
        let none: Vec<&Expr> = Vec::new();
        assert(refs(none@) =~= Seq::<Expr>::empty());
        self.unique_in_with(e, ctx, scoped, &none, ctx.body.len())
    }

    /// Does `e` evaluate to a freshly owned value? `exempt` are the sibling
    /// arguments of the consuming call, whose reads finish before its write.
    /// `hops` bounds how many local bindings a chain may pass through: an
    /// acyclic chain in one body passes through at most as many as the body
    /// has statements, so the bound only ever stops a cycle of bindings.
    fn unique_in_with(&self, e: &Expr, ctx: &FnDecl, scoped: Option<&str>, exempt: &Vec<&Expr>, hops: usize) -> (r: bool)
        ensures
            r == unique_with(self.types@, self.folds@, self.returns_unique@, self.linear_params@, *e, *ctx, scoped_view(scoped), refs(exempt@), hops as nat),
        decreases hops, size(*e),
    {
        proof {
            lemma_parts_smaller(*e);
            reveal_strlit("if");
            reveal_strlit("push");
            reveal_strlit("append");
            reveal_strlit("builtin_append");
            reveal_strlit("put");
            reveal_strlit("concat");
            reveal_strlit("text/concat");
            reveal_strlit("builtin_concat");
            reveal_strlit("bytes");
            reveal_strlit("text/bytes");
            reveal_strlit("builtin_bytes");
        }
        let none: Vec<&Expr> = Vec::new();
        assert(refs(none@) =~= Seq::<Expr>::empty());
        match e {
            Expr::List(..) => true,
            Expr::MapLit(..) => true,
            Expr::Str(..) => true,
            Expr::Guard { early, rest, .. } => {
                let n = rest.len();
                let tail = if n > 0 {
                    match &rest[n - 1] {
                        Stmt::Expr(x) => {
                            assert(stmt_expr(rest@[n - 1]) == *x);
                            assert(size(stmt_expr(rest@[n - 1])) < size(*e));
                            self.unique_in_with(x, ctx, scoped, exempt, hops)
                        },
                        _ => false,
                    }
                } else {
                    false
                };
                self.unique_in_with(early, ctx, scoped, exempt, hops) && tail
            },
            Expr::App { head, args, .. } => {
                match &**head {
                    Expr::Ident(n, _) => {
                        if has_str(&self.folds, n.as_str()) && args.len() == 3 {
                            return self.unique_in_with(&args[1], ctx, scoped, exempt, hops) && self.folder_is_unique(
                                &args[2],
                            );
                        }
                        if same_text(n.as_str(), "if") && args.len() == 3 {
                            return self.unique_in_with(&args[1], ctx, scoped, exempt, hops) && self.unique_in_with(
                                &args[2],
                                ctx,
                                scoped,
                                exempt,
                                hops,
                            );
                        }
                        let s = n.as_str();
                        if (same_text(s, "push") || same_text(s, "append") || same_text(s, "builtin_append"))
                            && args.len() == 2 {
                            return self.unique_in_with(&args[0], ctx, scoped, &none, hops);
                        }
                        if same_text(s, "put") && args.len() == 3 {
                            return self.unique_in_with(&args[0], ctx, scoped, &none, hops);
                        }
                        if (same_text(s, "concat") || same_text(s, "text/concat") || same_text(s, "builtin_concat"))
                            && args.len() == 2 {
                            return true;
                        }
                        if (same_text(s, "bytes") || same_text(s, "text/bytes") || same_text(s, "builtin_bytes"))
                            && args.len() == 1 {
                            return true;
                        }
                        if has_str(&self.types, s) {
                            return true;
                        }
                        has_pair(&self.returns_unique, s, args.len())
                    },
                    _ => false,
                }
            },
            Expr::Ident(name, _) => self.is_unique_source(name.as_str(), ctx, scoped, exempt, hops),
            _ => false,
        }
    }

    /// A name holding a uniquely owned value: a folding lambda's own
    /// accumulator, a linear parameter, or a local bound to a unique value,
    /// in the last two cases used at most once in the body.
    fn is_unique_source(&self, var: &str, ctx: &FnDecl, scoped: Option<&str>, exempt: &Vec<&Expr>, hops: usize) -> (r: bool)
        ensures
            r == unique_source(self.types@, self.folds@, self.returns_unique@, self.linear_params@, var@, *ctx, scoped_view(scoped), refs(exempt@), hops as nat),
        decreases hops, 0nat,
    {
        if same_scoped(scoped, var) {
            return true;
        }
        let mut discounted: usize = 0;
        let mut k: usize = 0;
        while k < exempt.len()
            invariant
                k <= exempt@.len(),
                discounted == exempt_uses(var@, refs(exempt@), k as nat),
            decreases exempt@.len() - k,
        {
            assert(refs(exempt@)[k as int] == *exempt@[k as int]);
            discounted = discounted.saturating_add(count_in_expr(var, exempt[k]));
            k += 1;
        }
        if effective_uses(var, &ctx.body).saturating_sub(discounted) > 1 {
            return false;
        }
        assert(refs(exempt@).len() == exempt@.len());
        let ghost rest = match first_var_param(ctx.params@, var@, 0) {
            Some(idx) => lists_site(self.linear_params@, ctx.name@, ctx.params@.len() as int, idx as int),
            None => match first_var_bind(ctx.body@, var@, 0) {
                Some(k) => hops > 0 && k < ctx.body@.len() && unique_with(self.types@, self.folds@, self.returns_unique@, self.linear_params@, ctx.body@[k as int]->Bind_expr, *ctx, scoped_view(scoped), refs(exempt@), (hops - 1) as nat),
                None => false,
            },
        };
        assert(unique_source(self.types@, self.folds@, self.returns_unique@, self.linear_params@, var@, *ctx, scoped_view(scoped), refs(exempt@), hops as nat) == rest);
        let mut idx: usize = 0;
        while idx < ctx.params.len()
            invariant
                idx <= ctx.params@.len(),
                first_var_param(ctx.params@, var@, 0) == first_var_param(ctx.params@, var@, idx as int),
                unique_source(self.types@, self.folds@, self.returns_unique@, self.linear_params@, var@, *ctx, scoped_view(scoped), refs(exempt@), hops as nat) == (match first_var_param(ctx.params@, var@, 0) {
                    Some(idx) => lists_site(self.linear_params@, ctx.name@, ctx.params@.len() as int, idx as int),
                    None => match first_var_bind(ctx.body@, var@, 0) {
                        Some(k) => hops > 0 && k < ctx.body@.len() && unique_with(self.types@, self.folds@, self.returns_unique@, self.linear_params@, ctx.body@[k as int]->Bind_expr, *ctx, scoped_view(scoped), refs(exempt@), (hops - 1) as nat),
                        None => false,
                    },
                }),
            decreases ctx.params@.len() - idx,
        {
            if let Pattern::Var(n, _) = &ctx.params[idx] {
                if same_text(n.as_str(), var) {
                    return has_triple(&self.linear_params, ctx.name.as_str(), ctx.params.len(), idx);
                }
            }
            idx += 1;
        }
        assert(first_var_param(ctx.params@, var@, 0) is None);
        let mut k: usize = 0;
        while k < ctx.body.len()
            invariant
                k <= ctx.body@.len(),
                first_var_bind(ctx.body@, var@, 0) == first_var_bind(ctx.body@, var@, k as int),
                first_var_param(ctx.params@, var@, 0) is None,
                unique_source(self.types@, self.folds@, self.returns_unique@, self.linear_params@, var@, *ctx, scoped_view(scoped), refs(exempt@), hops as nat) == (match first_var_param(ctx.params@, var@, 0) {
                    Some(idx) => lists_site(self.linear_params@, ctx.name@, ctx.params@.len() as int, idx as int),
                    None => match first_var_bind(ctx.body@, var@, 0) {
                        Some(k) => hops > 0 && k < ctx.body@.len() && unique_with(self.types@, self.folds@, self.returns_unique@, self.linear_params@, ctx.body@[k as int]->Bind_expr, *ctx, scoped_view(scoped), refs(exempt@), (hops - 1) as nat),
                        None => false,
                    },
                }),
            decreases ctx.body@.len() - k,
        {
            if let Stmt::Bind { pattern: Pattern::Var(n, _), expr } = &ctx.body[k] {
                if same_text(n.as_str(), var) {
                    if hops == 0 {
                        return false;
                    }
                    return self.unique_in_with(expr, ctx, scoped, exempt, hops - 1);
                }
            }
            k += 1;
        }
        false
    }
}


/// Names the language calls by syntax rather than by name.
fn is_operator(name: &str) -> (r: bool)
    ensures
        r == (name@ == "+"@ || name@ == "-"@ || name@ == "*"@ || name@ == "/"@ || name@ == "%"@ || name@ == "<"@
            || name@ == ">"@ || name@ == "<="@ || name@ == ">="@ || name@ == "=="@),
{
    same_text(name, "+") || same_text(name, "-") || same_text(name, "*") || same_text(name, "/") || same_text(name, "%")
        || same_text(name, "<") || same_text(name, ">") || same_text(name, "<=") || same_text(name, ">=")
        || same_text(name, "==")
}

/// Whether `e` mentions `name` other than as the head of a call of exactly
/// `arity` arguments.
pub open spec fn value_mention(e: Expr, name: Seq<char>, arity: usize) -> bool
    decreases size(e), 1nat, 0nat,
    via value_mention_decreases
{
    if e is Ident {
        e->Ident_0@ == name
    } else if e is App {
        let called = *e->App_head is Ident && e->App_head->Ident_0@ == name && e->App_args@.len() == arity;
        (!called && value_mention(*e->App_head, name, arity)) || value_args(e, name, arity, e->App_args@.len())
    } else {
        value_kids(e, name, arity, crate::ast::children(e).len())
    }
}

/// Whether one of the first `n` arguments of the call `e` mentions it so.
pub open spec fn value_args(e: Expr, name: Seq<char>, arity: usize, n: nat) -> bool
    decreases size(e), 0nat, n,
    via value_args_decreases
{
    if n == 0 || !(e is App) || n > e->App_args@.len() {
        false
    } else {
        value_args(e, name, arity, (n - 1) as nat) || value_mention(e->App_args@[n - 1], name, arity)
    }
}

/// Whether one of the first `n` direct sub-expressions of `e` mentions it so.
pub open spec fn value_kids(e: Expr, name: Seq<char>, arity: usize, n: nat) -> bool
    decreases size(e), 0nat, n,
    via value_kids_decreases
{
    if n == 0 || n > crate::ast::children(e).len() {
        false
    } else {
        value_kids(e, name, arity, (n - 1) as nat) || value_mention(crate::ast::children(e)[n - 1], name, arity)
    }
}

#[via_fn]
proof fn value_mention_decreases(e: Expr, name: Seq<char>, arity: usize) {
    lemma_parts_smaller(e);
}

#[via_fn]
proof fn value_args_decreases(e: Expr, name: Seq<char>, arity: usize, n: nat) {
    lemma_parts_smaller(e);
}

#[via_fn]
proof fn value_kids_decreases(e: Expr, name: Seq<char>, arity: usize, n: nat) {
    lemma_children_smaller(e);
}

proof fn lemma_value_args(e: Expr, name: Seq<char>, arity: usize, k: nat, m: nat)
    requires
        e is App,
        k <= m <= e->App_args@.len(),
        value_args(e, name, arity, k),
    ensures
        value_args(e, name, arity, m),
    decreases m - k,
{
    if k < m {
        lemma_value_args(e, name, arity, k, (m - 1) as nat);
    }
}

proof fn lemma_value_kids(e: Expr, name: Seq<char>, arity: usize, k: nat, m: nat)
    requires
        k <= m <= crate::ast::children(e).len(),
        value_kids(e, name, arity, k),
    ensures
        value_kids(e, name, arity, m),
    decreases m - k,
{
    if k < m {
        lemma_value_kids(e, name, arity, k, (m - 1) as nat);
    }
}

/// Every mention of `name` in `e` that is not the head of an application of
/// exactly `arity` arguments: a bare reference, or a partial application.
fn mentioned_as_value(e: &Expr, name: &str, arity: usize) -> (r: bool)
    ensures
        r == value_mention(*e, name@, arity),
    decreases size(*e),
{
    if let Expr::Ident(n, _) = e {
        return same_text(n.as_str(), name);
    }
    proof {
        lemma_parts_smaller(*e);
        lemma_children_smaller(*e);
    }
    if let Expr::App { head, args, .. } = e {
        let called = is_named(head, name) && args.len() == arity;
        if !called && mentioned_as_value(head, name, arity) {
            return true;
        }
        let mut k: usize = 0;
        while k < args.len()
            invariant
                k <= args@.len(),
                forall|j: int| 0 <= j < args@.len() ==> size(#[trigger] args@[j]) < size(*e),
                *e is App && e->App_args == *args,
                !value_args(*e, name@, arity, k as nat),
            decreases args@.len() - k,
        {
            if mentioned_as_value(&args[k], name, arity) {
                proof {
                    lemma_value_args(*e, name@, arity, (k + 1) as nat, args@.len());
                }
                return true;
            }
            k += 1;
        }
        return false;
    }
    let kids = for_each_child(e);
    let mut k: usize = 0;
    while k < kids.len()
        invariant
            k <= kids@.len(),
            refs(kids@) == crate::ast::children(*e),
            forall|j: int| 0 <= j < crate::ast::children(*e).len() ==> size(#[trigger] crate::ast::children(*e)[j]) < size(*e),
            !(*e is Ident) && !(*e is App),
            !value_kids(*e, name@, arity, k as nat),
        decreases kids@.len() - k,
    {
        assert(refs(kids@)[k as int] == *kids@[k as int]);
        if mentioned_as_value(kids[k], name, arity) {
            proof {
                lemma_value_kids(*e, name@, arity, (k + 1) as nat, kids@.len());
            }
            return true;
        }
        k += 1;
    }
    false
}

impl<'a> Analysis<'a> {
    /// Is this group ever mentioned as a value rather than called? Handed to
    /// a fold, or curried, it is called from somewhere no call site in the
    /// program describes.
    fn escapes_as_value(&self, name: &str, arity: usize) -> (r: bool)
        ensures
            r == escapes_in(self.program.fns@, name@, arity),
    {
        let fns = &self.program.fns;
        let mut k: usize = 0;
        while k < fns.len()
            invariant
                k <= fns@.len(),
                *fns == self.program.fns,
                forall|q: int, j: int| 0 <= q < k && 0 <= j < fns@[q].body@.len() ==> !value_mention(#[trigger] stmt_expr(fns@[q].body@[j]), name@, arity),
            decreases fns@.len() - k,
        {
            let d = &fns[k];
            let mut j: usize = 0;
            while j < d.body.len()
                invariant
                    j <= d.body@.len(),
                    k < fns@.len(),
                    *d == fns@[k as int],
                    *fns == self.program.fns,
                    forall|q: int, j: int| 0 <= q < k && 0 <= j < fns@[q].body@.len() ==> !value_mention(#[trigger] stmt_expr(fns@[q].body@[j]), name@, arity),
                    forall|q: int| 0 <= q < j ==> !value_mention(#[trigger] stmt_expr(d.body@[q]), name@, arity),
                decreases d.body@.len() - j,
            {
                if mentioned_as_value(stmt_expr_of(&d.body[j]), name, arity) {
                    assert(value_mention(stmt_expr(fns@[k as int].body@[j as int]), name@, arity));
                    return true;
                }
                j += 1;
            }
            k += 1;
        }
        false
    }

    /// Every call site of this group hands over a uniquely owned value at
    /// `i`: the caller half of `param_is_linear`, asked on its own. An
    /// operator is called by syntax and a group that escapes as a value is
    /// called from nowhere this walk can see, so neither is granted.
    fn callers_hand_over(&self, name: &str, arity: usize, i: usize) -> (r: bool)
        ensures
            r == hand_over(self.types@, self.folds@, self.returns_unique@, self.linear_params@, self.program.fns@, name@, arity, i),
    {
        if is_operator(name) || self.escapes_as_value(name, arity) {
            return false;
        }
        let fns = &self.program.fns;
        let mut k: usize = 0;
        while k < fns.len()
            invariant
                k <= fns@.len(),
                *fns == self.program.fns,
                !is_operator_name(name@),
                !escapes_in(fns@, name@, arity),
                forall|q: int, j: int| 0 <= q < k && 0 <= j < fns@[q].body@.len() ==> callsites_ok(self.types@, self.folds@, self.returns_unique@, self.linear_params@, fns@[q], #[trigger] stmt_expr(fns@[q].body@[j]), name@, arity, i, None, None),
            decreases fns@.len() - k,
        {
            let caller = &fns[k];
            let mut j: usize = 0;
            while j < caller.body.len()
                invariant
                    j <= caller.body@.len(),
                    k < fns@.len(),
                    *caller == fns@[k as int],
                    *fns == self.program.fns,
                    forall|q: int, j: int| 0 <= q < k && 0 <= j < fns@[q].body@.len() ==> callsites_ok(self.types@, self.folds@, self.returns_unique@, self.linear_params@, fns@[q], #[trigger] stmt_expr(fns@[q].body@[j]), name@, arity, i, None, None),
                    forall|q: int| 0 <= q < j ==> callsites_ok(self.types@, self.folds@, self.returns_unique@, self.linear_params@, *caller, #[trigger] stmt_expr(caller.body@[q]), name@, arity, i, None, None),
                decreases caller.body@.len() - j,
            {
                if !self.callsites_unique_in(caller, stmt_expr_of(&caller.body[j]), name, arity, i, None, None) {
                    assert(!callsites_ok(self.types@, self.folds@, self.returns_unique@, self.linear_params@, fns@[k as int], stmt_expr(fns@[k as int].body@[j as int]), name@, arity, i, None, None));
                    return false;
                }
                j += 1;
            }
            k += 1;
        }
        true
    }
}

/// A site as plain values.
pub open spec fn site_view(s: Site) -> (Seq<char>, usize, usize) {
    (s.0@, s.1, s.2)
}

/// No site is listed twice.
pub open spec fn distinct_sites(v: Seq<Site>) -> bool {
    forall|i: int, j: int| 0 <= i < j < v.len() ==> site_view(#[trigger] v[i]) != site_view(#[trigger] v[j])
}

/// Whether `e` is a `push`, `append` or `put` call written at `line`, `col`.
pub open spec fn is_write_at(e: Expr, line: usize, col: usize) -> bool {
    match e {
        Expr::App { head, args, span, .. } => span.line as usize == line && span.col as usize == col && match *head {
            Expr::Ident(n, _) => ((n@ == "push"@ || n@ == "append"@ || n@ == "builtin_append"@) && args@.len() == 2)
                || (n@ == "put"@ && args@.len() == 3),
            _ => false,
        },
        _ => false,
    }
}

/// Whether such a call is written anywhere in `e`.
pub open spec fn has_write_at(e: Expr, line: usize, col: usize) -> bool
    decreases size(e), 1nat, 0nat,
{
    is_write_at(e, line, col) || writes_among(e, line, col, crate::ast::children(e).len())
}

/// Whether one of the first `n` direct sub-expressions of `e` holds one.
pub open spec fn writes_among(e: Expr, line: usize, col: usize, n: nat) -> bool
    decreases size(e), 0nat, n,
    via writes_among_decreases
{
    if n == 0 || n > crate::ast::children(e).len() {
        false
    } else {
        writes_among(e, line, col, (n - 1) as nat) || has_write_at(crate::ast::children(e)[n - 1], line, col)
    }
}

#[via_fn]
proof fn writes_among_decreases(e: Expr, line: usize, col: usize, n: nat) {
    lemma_children_smaller(e);
}

proof fn lemma_writes_among(e: Expr, line: usize, col: usize, k: nat, m: nat)
    requires
        k <= m <= crate::ast::children(e).len(),
        writes_among(e, line, col, k),
    ensures
        writes_among(e, line, col, m),
    decreases m - k,
{
    if k < m {
        lemma_writes_among(e, line, col, k, (m - 1) as nat);
    }
}

/// A write inside a direct sub-expression is a write inside the whole.
proof fn lemma_child_write(e: Expr, k: int, line: usize, col: usize)
    requires
        0 <= k < crate::ast::children(e).len(),
        has_write_at(crate::ast::children(e)[k], line, col),
    ensures
        has_write_at(e, line, col),
{
    assert(writes_among(e, line, col, (k + 1) as nat));
    lemma_writes_among(e, line, col, (k + 1) as nat, crate::ast::children(e).len());
}

/// Sites added to `out` since `before` are in `file`, at writes inside `e`.
pub open spec fn found_in(before: Seq<Site>, out: Seq<Site>, file: Seq<char>, e: Expr) -> bool {
    &&& before.len() <= out.len()
    &&& forall|i: int| 0 <= i < before.len() ==> out[i] == before[i]
    &&& forall|i: int| before.len() <= i < out.len() ==> (#[trigger] out[i]).0@ == file && has_write_at(e, out[i].1, out[i].2)
}

fn add_site(out: &mut Vec<Site>, file: &String, line: usize, col: usize)
    requires
        distinct_sites(old(out)@),
    ensures
        distinct_sites(final(out)@),
        old(out)@.len() <= final(out)@.len() <= old(out)@.len() + 1,
        forall|i: int| 0 <= i < old(out)@.len() ==> final(out)@[i] == old(out)@[i],
        final(out)@.len() > old(out)@.len() ==> site_view(final(out)@.last()) == (file@, line, col),
        final(out)@.len() == old(out)@.len() <==> exists|k: int| 0 <= k < old(out)@.len() && site_view(#[trigger] old(out)@[k]) == (file@, line, col),
{
    let mut k: usize = 0;
    while k < out.len()
        invariant
            k <= out@.len(),
            out@ == old(out)@,
            distinct_sites(old(out)@),
            forall|j: int| 0 <= j < k ==> site_view(#[trigger] out@[j]) != (file@, line, col),
        decreases out@.len() - k,
    {
        if out[k].1 == line && out[k].2 == col && same_text(out[k].0.as_str(), file.as_str()) {
            return;
        }
        k += 1;
    }
    let f = file.clone();
    out.push((f, line, col));
    assert(distinct_sites(out@)) by {
        assert forall|i: int, j: int| 0 <= i < j < out@.len() implies site_view(#[trigger] out@[i]) != site_view(#[trigger] out@[j]) by {
            if j == out@.len() - 1 {
                assert(site_view(out@[j]) == (file@, line, col));
            } else {
                assert(out@[i] == old(out)@[i] && out@[j] == old(out)@[j]);
            }
        }
    }
}

impl<'a> Analysis<'a> {
    /// The writes in `e` that may extend their list, map or builder in
    /// place. A lambda body is not walked: whether a write inside one is
    /// safe depends on when it runs, and only a validated folder answers
    /// that.
    fn walk_for_push_in(&self, decl: &FnDecl, e: &Expr, out: &mut Vec<Site>, scoped: Option<&str>)
        requires
            distinct_sites(old(out)@),
        ensures
            distinct_sites(final(out)@),
            found_in(old(out)@, final(out)@, decl.file@, *e),
            push_found(self.types@, self.folds@, self.returns_unique@, self.linear_params@, *decl, *e, scoped_view(scoped), old(out)@, final(out)@),
        decreases size(*e), 0nat,
    {
        proof {
            lemma_parts_smaller(*e);
            lemma_children_smaller(*e);
            reveal_strlit("push");
            reveal_strlit("append");
            reveal_strlit("builtin_append");
            reveal_strlit("put");
        }
        let ghost sv = scoped_view(scoped);
        if let Expr::App { head, args, span, .. } = e {
            let line = span.line as usize;
            let col = span.col as usize;
            if (is_named(head, "push") || is_named(head, "append") || is_named(head, "builtin_append")) && args.len() == 2
                && self.unique_in(&args[0], decl, scoped) {
                let ghost before = out@;
                add_site(out, &decl.file, line, col);
                assert(is_write_at(*e, line, col));
                assert(found_in(before, out@, decl.file@, *e));
                assert(unique_write_at(self.types@, self.folds@, self.returns_unique@, self.linear_params@, *decl, *e, sv, line, col));
            }
            if is_named(head, "put") && args.len() == 3 {
                let exempt: Vec<&Expr> = vec![&args[1], &args[2]];
                assert(refs(exempt@) =~= seq![args@[1], args@[2]]);
                if self.unique_in_with(&args[0], decl, scoped, &exempt, decl.body.len()) {
                    let ghost before = out@;
                    add_site(out, &decl.file, line, col);
                    assert(is_write_at(*e, line, col));
                    assert(found_in(before, out@, decl.file@, *e));
                    assert(unique_write_at(self.types@, self.folds@, self.returns_unique@, self.linear_params@, *decl, *e, sv, line, col));
                }
            }
            let ghost here = out@;
            assert(forall|i: int| old(out)@.len() <= i < here.len() ==> push_marks(self.types@, self.folds@, self.returns_unique@, self.linear_params@, *decl, *e, sv, (#[trigger] here[i]).1, here[i].2)) by {
                assert forall|i: int| old(out)@.len() <= i < here.len() implies push_marks(self.types@, self.folds@, self.returns_unique@, self.linear_params@, *decl, *e, sv, (#[trigger] here[i]).1, here[i].2) by {
                    assert(site_view(here[i]) == (decl.file@, line, col));
                }
            }
            assert(forall|l: usize, c: usize| #[trigger] unique_write_at(self.types@, self.folds@, self.returns_unique@, self.linear_params@, *decl, *e, sv, l, c) ==> has_site(here, decl.file@, l, c)) by {
                assert forall|l: usize, c: usize| #[trigger] unique_write_at(self.types@, self.folds@, self.returns_unique@, self.linear_params@, *decl, *e, sv, l, c) implies has_site(here, decl.file@, l, c) by {
                    assert(l == line && c == col);
                    if here.len() > old(out)@.len() {
                        assert(site_view(here[here.len() - 1]) == (decl.file@, line, col));
                    }
                }
            }
            if let Expr::Ident(n, _) = &**head {
                if has_str(&self.folds, n.as_str()) && args.len() == 3 && self.folder_is_unique(&args[2]) {
                    if let Expr::Lambda { params, body, .. } = &args[2] {
                        proof {
                            lemma_parts_smaller(args@[2]);
                        }
                        assert(unique_fold(self.folds@, self.returns_unique@, *e));
                        let inner = first_param(params);
                        assert(scoped_view(inner) == first_param_of(args@[2]));
                        let ghost start = out@;
                        self.walk_for_push_in(decl, &args[0], out, scoped);
                        proof {
                            assert(crate::ast::children(*e)[1] == args@[0]);
                            assert forall|i: int| start.len() <= i < out@.len() implies has_write_at(*e, (#[trigger] out@[i]).1, out@[i].2) by {
                                lemma_child_write(*e, 1, out@[i].1, out@[i].2);
                            }
                        }
                        let ghost mid = out@;
                        self.walk_for_push_in(decl, &args[1], out, scoped);
                        proof {
                            assert(crate::ast::children(*e)[2] == args@[1]);
                            assert forall|i: int| mid.len() <= i < out@.len() implies has_write_at(*e, (#[trigger] out@[i]).1, out@[i].2) by {
                                lemma_child_write(*e, 2, out@[i].1, out@[i].2);
                            }
                        }
                        let ghost late = out@;
                        self.mark_folder_body(decl, body, out, inner);
                        proof {
                            assert(crate::ast::children(*e)[3] == args@[2]);
                            assert(crate::ast::children(args@[2])[0] == **body);
                            assert forall|i: int| late.len() <= i < out@.len() implies has_write_at(*e, (#[trigger] out@[i]).1, out@[i].2) by {
                                lemma_child_write(args@[2], 0, out@[i].1, out@[i].2);
                                lemma_child_write(*e, 3, out@[i].1, out@[i].2);
                            }
                            assert forall|i: int| old(out)@.len() <= i < out@.len() implies push_marks(self.types@, self.folds@, self.returns_unique@, self.linear_params@, *decl, *e, sv, (#[trigger] out@[i]).1, out@[i].2) by {
                                if i < here.len() {
                                    assert(out@[i] == here[i]);
                                } else if i < mid.len() {
                                    assert(out@[i] == mid[i]);
                                } else if i < late.len() {
                                    assert(out@[i] == late[i]);
                                }
                            }
                            assert forall|l: usize, c: usize| #[trigger] push_marks(self.types@, self.folds@, self.returns_unique@, self.linear_params@, *decl, *e, sv, l, c) implies has_site(out@, decl.file@, l, c) by {
                                if unique_write_at(self.types@, self.folds@, self.returns_unique@, self.linear_params@, *decl, *e, sv, l, c) {
                                    lemma_has_site_grows(here, out@, decl.file@, l, c);
                                } else if push_marks(self.types@, self.folds@, self.returns_unique@, self.linear_params@, *decl, args@[0], sv, l, c) {
                                    lemma_has_site_grows(mid, out@, decl.file@, l, c);
                                } else if push_marks(self.types@, self.folds@, self.returns_unique@, self.linear_params@, *decl, args@[1], sv, l, c) {
                                    lemma_has_site_grows(late, out@, decl.file@, l, c);
                                } else {
                                    assert(*args@[2]->Lambda_body == **body);
                                    assert(folder_marks(self.types@, self.folds@, self.returns_unique@, self.linear_params@, *decl, **body, scoped_view(inner), l, c));
                                }
                            }
                        }
                        return;
                    }
                }
            }
        }
        let ghost here = out@;
        assert(!unique_fold(self.folds@, self.returns_unique@, *e));
        let kids = for_each_child(e);
        let mut k: usize = 0;
        while k < kids.len()
            invariant
                k <= kids@.len(),
                refs(kids@) == crate::ast::children(*e),
                forall|j: int| 0 <= j < crate::ast::children(*e).len() ==> size(#[trigger] crate::ast::children(*e)[j]) < size(*e),
                distinct_sites(out@),
                found_in(old(out)@, out@, decl.file@, *e),
                sv == scoped_view(scoped),
                !unique_fold(self.folds@, self.returns_unique@, *e),
                here.len() <= out@.len(),
                forall|i: int| 0 <= i < here.len() ==> out@[i] == here[i],
                forall|i: int| old(out)@.len() <= i < out@.len() ==> push_marks(self.types@, self.folds@, self.returns_unique@, self.linear_params@, *decl, *e, sv, (#[trigger] out@[i]).1, out@[i].2),
                forall|l: usize, c: usize| #[trigger] unique_write_at(self.types@, self.folds@, self.returns_unique@, self.linear_params@, *decl, *e, sv, l, c) ==> has_site(here, decl.file@, l, c),
                forall|l: usize, c: usize| #[trigger] push_kids(self.types@, self.folds@, self.returns_unique@, self.linear_params@, *decl, *e, sv, l, c, k as nat) ==> has_site(out@, decl.file@, l, c),
            decreases kids@.len() - k,
        {
            assert(refs(kids@)[k as int] == *kids@[k as int]);
            assert(crate::ast::children(*e)[k as int] == *kids@[k as int]);
            let ghost before = out@;
            if !matches!(kids[k], Expr::Lambda { .. }) {
                self.walk_for_push_in(decl, kids[k], out, scoped);
                proof {
                    assert forall|i: int| before.len() <= i < out@.len() implies has_write_at(*e, (#[trigger] out@[i]).1, out@[i].2) by {
                        lemma_child_write(*e, k as int, out@[i].1, out@[i].2);
                    }
                }
            }
            proof {
                assert forall|i: int| old(out)@.len() <= i < out@.len() implies push_marks(self.types@, self.folds@, self.returns_unique@, self.linear_params@, *decl, *e, sv, (#[trigger] out@[i]).1, out@[i].2) by {
                    if i < before.len() {
                        assert(out@[i] == before[i]);
                    } else {
                        assert(push_kids(self.types@, self.folds@, self.returns_unique@, self.linear_params@, *decl, *e, sv, out@[i].1, out@[i].2, (k + 1) as nat));
                        lemma_push_kids(self.types@, self.folds@, self.returns_unique@, self.linear_params@, *decl, *e, sv, out@[i].1, out@[i].2, (k + 1) as nat, crate::ast::children(*e).len());
                    }
                }
                assert forall|l: usize, c: usize| #[trigger] push_kids(self.types@, self.folds@, self.returns_unique@, self.linear_params@, *decl, *e, sv, l, c, (k + 1) as nat) implies has_site(out@, decl.file@, l, c) by {
                    if push_kids(self.types@, self.folds@, self.returns_unique@, self.linear_params@, *decl, *e, sv, l, c, k as nat) {
                        lemma_has_site_grows(before, out@, decl.file@, l, c);
                    } else {
                        assert(!(crate::ast::children(*e)[k as int] is Lambda));
                        assert(push_marks(self.types@, self.folds@, self.returns_unique@, self.linear_params@, *decl, *kids@[k as int], sv, l, c));
                    }
                }
            }
            k += 1;
        }
        proof {
            assert forall|l: usize, c: usize| #[trigger] push_marks(self.types@, self.folds@, self.returns_unique@, self.linear_params@, *decl, *e, sv, l, c) implies has_site(out@, decl.file@, l, c) by {
                if unique_write_at(self.types@, self.folds@, self.returns_unique@, self.linear_params@, *decl, *e, sv, l, c) {
                    lemma_has_site_grows(here, out@, decl.file@, l, c);
                } else {
                    assert(push_kids(self.types@, self.folds@, self.returns_unique@, self.linear_params@, *decl, *e, sv, l, c, kids@.len() as nat));
                }
            }
        }
    }

    /// The writes inside a folder body, following the two shapes the check
    /// accepts: the wrapper fusion leaves, and a conditional's arms.
    fn mark_folder_body(&self, decl: &FnDecl, body: &Expr, out: &mut Vec<Site>, acc: Option<&str>)
        requires
            distinct_sites(old(out)@),
        ensures
            distinct_sites(final(out)@),
            found_in(old(out)@, final(out)@, decl.file@, *body),
            folder_found(self.types@, self.folds@, self.returns_unique@, self.linear_params@, *decl, *body, scoped_view(acc), old(out)@, final(out)@),
        decreases size(*body), 2nat,
    {
        proof {
            lemma_parts_smaller(*body);
            reveal_strlit("if");
        }
        if let Expr::App { head, args, .. } = body {
            match &**head {
                Expr::Lambda { params, body: inner, .. } => {
                    proof {
                        lemma_parts_smaller(**head);
                        assert(crate::ast::children(*body)[0] == **head);
                        assert(crate::ast::children(**head)[0] == **inner);
                    }
                    let fp = first_param(params);
                    assert(scoped_view(fp) == first_param_of(**head));
                    assert(*body->App_head->Lambda_body == **inner);
                    self.mark_folder_body(decl, inner, out, fp);
                    proof {
                        assert forall|i: int| old(out)@.len() <= i < out@.len() implies folder_marks(self.types@, self.folds@, self.returns_unique@, self.linear_params@, *decl, *body, scoped_view(acc), (#[trigger] out@[i]).1, out@[i].2) by {
                            assert(folder_marks(self.types@, self.folds@, self.returns_unique@, self.linear_params@, *decl, **inner, scoped_view(fp), out@[i].1, out@[i].2));
                        }
                        assert forall|l: usize, c: usize| #[trigger] folder_marks(self.types@, self.folds@, self.returns_unique@, self.linear_params@, *decl, *body, scoped_view(acc), l, c) implies has_site(out@, decl.file@, l, c) by {
                            assert(folder_marks(self.types@, self.folds@, self.returns_unique@, self.linear_params@, *decl, **inner, scoped_view(fp), l, c));
                        }
                        assert forall|i: int| old(out)@.len() <= i < out@.len() implies has_write_at(*body, (#[trigger] out@[i]).1, out@[i].2) by {
                            lemma_child_write(**head, 0, out@[i].1, out@[i].2);
                            lemma_child_write(*body, 0, out@[i].1, out@[i].2);
                        }
                    }
                    return;
                },
                Expr::Ident(n, _) => {
                    if same_text(n.as_str(), "if") && args.len() == 3 {
                        self.mark_folder_body(decl, &args[1], out, acc);
                        proof {
                            assert(crate::ast::children(*body)[2] == args@[1]);
                            assert forall|i: int| old(out)@.len() <= i < out@.len() implies has_write_at(*body, (#[trigger] out@[i]).1, out@[i].2) by {
                                lemma_child_write(*body, 2, out@[i].1, out@[i].2);
                            }
                        }
                        let ghost mid = out@;
                        self.mark_folder_body(decl, &args[2], out, acc);
                        proof {
                            assert(crate::ast::children(*body)[3] == args@[2]);
                            assert forall|i: int| mid.len() <= i < out@.len() implies has_write_at(*body, (#[trigger] out@[i]).1, out@[i].2) by {
                                lemma_child_write(*body, 3, out@[i].1, out@[i].2);
                            }
                            assert forall|i: int| old(out)@.len() <= i < out@.len() implies folder_marks(self.types@, self.folds@, self.returns_unique@, self.linear_params@, *decl, *body, scoped_view(acc), (#[trigger] out@[i]).1, out@[i].2) by {
                                if i < mid.len() {
                                    assert(out@[i] == mid[i]);
                                }
                            }
                            assert forall|l: usize, c: usize| #[trigger] folder_marks(self.types@, self.folds@, self.returns_unique@, self.linear_params@, *decl, *body, scoped_view(acc), l, c) implies has_site(out@, decl.file@, l, c) by {
                                assert(!(*body->App_head is Lambda) && is_named_spec(*body->App_head, "if"@));
                                if folder_marks(self.types@, self.folds@, self.returns_unique@, self.linear_params@, *decl, args@[1], scoped_view(acc), l, c) {
                                    lemma_has_site_grows(mid, out@, decl.file@, l, c);
                                } else {
                                    assert(folder_marks(self.types@, self.folds@, self.returns_unique@, self.linear_params@, *decl, args@[2], scoped_view(acc), l, c));
                                }
                            }
                        }
                        return;
                    }
                },
                _ => {},
            }
        }
        assert(!(*body is App && *body->App_head is Lambda));
        assert(!(*body is App && is_named_spec(*body->App_head, "if"@) && body->App_args@.len() == 3));
        self.walk_for_push_in(decl, body, out, acc);
        proof {
            assert forall|i: int| old(out)@.len() <= i < out@.len() implies folder_marks(self.types@, self.folds@, self.returns_unique@, self.linear_params@, *decl, *body, scoped_view(acc), (#[trigger] out@[i]).1, out@[i].2) by {
                assert(push_marks(self.types@, self.folds@, self.returns_unique@, self.linear_params@, *decl, *body, scoped_view(acc), out@[i].1, out@[i].2));
            }
            assert forall|l: usize, c: usize| #[trigger] folder_marks(self.types@, self.folds@, self.returns_unique@, self.linear_params@, *decl, *body, scoped_view(acc), l, c) implies has_site(out@, decl.file@, l, c) by {
                assert(push_marks(self.types@, self.folds@, self.returns_unique@, self.linear_params@, *decl, *body, scoped_view(acc), l, c));
            }
        }
    }
}

/// Whether `v` lists the site (`file`, `line`, `col`).
pub open spec fn has_site(v: Seq<Site>, file: Seq<char>, line: usize, col: usize) -> bool {
    exists|k: int| 0 <= k < v.len() && site_view(#[trigger] v[k]) == (file, line, col)
}

/// Whether `e` is a `push`, `append` or `put` written at `line`, `col` whose
/// list argument is uniquely owned in `decl`, a `put`'s key and value
/// exempt.
pub open spec fn unique_write_at(
    types: Seq<String>,
    folds: Seq<String>,
    rets: Seq<(String, usize)>,
    lin: Seq<Site>,
    decl: FnDecl,
    e: Expr,
    scoped: Option<Seq<char>>,
    line: usize,
    col: usize,
) -> bool {
    match e {
        Expr::App { head, args, span, .. } => span.line as usize == line && span.col as usize == col && (((is_named_spec(
            *head,
            "push"@,
        ) || is_named_spec(*head, "append"@) || is_named_spec(*head, "builtin_append"@)) && args@.len() == 2 && unique_with(
            types,
            folds,
            rets,
            lin,
            args@[0],
            decl,
            scoped,
            Seq::empty(),
            decl.body@.len(),
        )) || (is_named_spec(*head, "put"@) && args@.len() == 3 && unique_with(
            types,
            folds,
            rets,
            lin,
            args@[0],
            decl,
            scoped,
            seq![args@[1], args@[2]],
            decl.body@.len(),
        ))),
        _ => false,
    }
}

/// Whether `e` is a fold whose folder is unique.
pub open spec fn unique_fold(folds: Seq<String>, rets: Seq<(String, usize)>, e: Expr) -> bool {
    e is App && *e->App_head is Ident && holds_text(folds, e->App_head->Ident_0@) && e->App_args@.len() == 3
        && folder_unique(rets, e->App_args@[2])
}

/// A lambda's first parameter, where it has one.
pub open spec fn first_param_of(lam: Expr) -> Option<Seq<char>> {
    if lam->Lambda_params@.len() > 0 {
        Some(lam->Lambda_params@[0].0@)
    } else {
        None
    }
}

/// Whether walking `e` for in-place writes marks the site at `line`, `col`:
/// a write here whose list is uniquely owned; inside a unique fold, its
/// seed, its list and its folder's body; elsewhere every sub-expression but
/// a lambda.
pub open spec fn push_marks(
    types: Seq<String>,
    folds: Seq<String>,
    rets: Seq<(String, usize)>,
    lin: Seq<Site>,
    decl: FnDecl,
    e: Expr,
    scoped: Option<Seq<char>>,
    line: usize,
    col: usize,
) -> bool
    decreases size(e), 1nat, 0nat,
    via push_marks_decreases
{
    unique_write_at(types, folds, rets, lin, decl, e, scoped, line, col) || if unique_fold(folds, rets, e) {
        push_marks(types, folds, rets, lin, decl, e->App_args@[0], scoped, line, col) || push_marks(types, folds, rets, lin, decl, e->App_args@[1], scoped, line, col)
            || folder_marks(types, folds, rets, lin, decl, *e->App_args@[2]->Lambda_body, first_param_of(e->App_args@[2]), line, col)
    } else {
        push_kids(types, folds, rets, lin, decl, e, scoped, line, col, crate::ast::children(e).len())
    }
}

/// Whether one of the first `n` direct sub-expressions of `e` that is no
/// lambda marks it.
pub open spec fn push_kids(
    types: Seq<String>,
    folds: Seq<String>,
    rets: Seq<(String, usize)>,
    lin: Seq<Site>,
    decl: FnDecl,
    e: Expr,
    scoped: Option<Seq<char>>,
    line: usize,
    col: usize,
    n: nat,
) -> bool
    decreases size(e), 0nat, n,
    via push_kids_decreases
{
    if n == 0 || n > crate::ast::children(e).len() {
        false
    } else {
        push_kids(types, folds, rets, lin, decl, e, scoped, line, col, (n - 1) as nat) || (!(crate::ast::children(e)[n - 1] is Lambda) && push_marks(
            types, folds, rets, lin, decl, crate::ast::children(e)[n - 1],
            scoped,
            line,
            col,
        ))
    }
}

/// Whether a folder body marks it, read through the wrapper fusion leaves
/// and a conditional's arms with `acc` as the accumulator.
pub open spec fn folder_marks(
    types: Seq<String>,
    folds: Seq<String>,
    rets: Seq<(String, usize)>,
    lin: Seq<Site>,
    decl: FnDecl,
    body: Expr,
    acc: Option<Seq<char>>,
    line: usize,
    col: usize,
) -> bool
    decreases size(body), 2nat, 0nat,
    via folder_marks_decreases
{
    if body is App && *body->App_head is Lambda {
        folder_marks(types, folds, rets, lin, decl, *body->App_head->Lambda_body, first_param_of(*body->App_head), line, col)
    } else if body is App && is_named_spec(*body->App_head, "if"@) && body->App_args@.len() == 3 {
        folder_marks(types, folds, rets, lin, decl, body->App_args@[1], acc, line, col) || folder_marks(types, folds, rets, lin, decl, body->App_args@[2], acc, line, col)
    } else {
        push_marks(types, folds, rets, lin, decl, body, acc, line, col)
    }
}

#[via_fn]
proof fn push_marks_decreases(
    types: Seq<String>,
    folds: Seq<String>,
    rets: Seq<(String, usize)>,
    lin: Seq<Site>,
    decl: FnDecl,
    e: Expr,
    scoped: Option<Seq<char>>,
    line: usize,
    col: usize,
) {
    lemma_parts_smaller(e);
    if e is App && e->App_args@.len() == 3 {
        lemma_parts_smaller(e->App_args@[2]);
    }
}

#[via_fn]
proof fn push_kids_decreases(
    types: Seq<String>,
    folds: Seq<String>,
    rets: Seq<(String, usize)>,
    lin: Seq<Site>,
    decl: FnDecl,
    e: Expr,
    scoped: Option<Seq<char>>,
    line: usize,
    col: usize,
    n: nat,
) {
    lemma_children_smaller(e);
}

#[via_fn]
proof fn folder_marks_decreases(
    types: Seq<String>,
    folds: Seq<String>,
    rets: Seq<(String, usize)>,
    lin: Seq<Site>,
    decl: FnDecl,
    body: Expr,
    acc: Option<Seq<char>>,
    line: usize,
    col: usize,
) {
    lemma_parts_smaller(body);
    if body is App {
        lemma_parts_smaller(*body->App_head);
    }
}

proof fn lemma_push_kids(
    types: Seq<String>,
    folds: Seq<String>,
    rets: Seq<(String, usize)>,
    lin: Seq<Site>,
    decl: FnDecl,
    e: Expr,
    scoped: Option<Seq<char>>,
    line: usize,
    col: usize,
    k: nat,
    m: nat,
)
    requires
        k <= m <= crate::ast::children(e).len(),
        push_kids(types, folds, rets, lin, decl, e, scoped, line, col, k),
    ensures
        push_kids(types, folds, rets, lin, decl, e, scoped, line, col, m),
    decreases m - k,
{
    if k < m {
        lemma_push_kids(types, folds, rets, lin, decl, e, scoped, line, col, k, (m - 1) as nat);
    }
}

/// Sites added to `out` since `before` are those walking `e` marks, and
/// every site it marks is listed.
pub open spec fn push_found(
    types: Seq<String>,
    folds: Seq<String>,
    rets: Seq<(String, usize)>,
    lin: Seq<Site>,
    decl: FnDecl,
    e: Expr,
    scoped: Option<Seq<char>>,
    before: Seq<Site>,
    out: Seq<Site>,
) -> bool {
    &&& forall|i: int| before.len() <= i < out.len() ==> push_marks(types, folds, rets, lin, decl, e, scoped, (#[trigger] out[i]).1, out[i].2)
    &&& forall|line: usize, col: usize| #[trigger] push_marks(types, folds, rets, lin, decl, e, scoped, line, col) ==> has_site(out, decl.file@, line, col)
}

/// The same for a folder body.
pub open spec fn folder_found(
    types: Seq<String>,
    folds: Seq<String>,
    rets: Seq<(String, usize)>,
    lin: Seq<Site>,
    decl: FnDecl,
    body: Expr,
    acc: Option<Seq<char>>,
    before: Seq<Site>,
    out: Seq<Site>,
) -> bool {
    &&& forall|i: int| before.len() <= i < out.len() ==> folder_marks(types, folds, rets, lin, decl, body, acc, (#[trigger] out[i]).1, out[i].2)
    &&& forall|line: usize, col: usize| #[trigger] folder_marks(types, folds, rets, lin, decl, body, acc, line, col) ==> has_site(out, decl.file@, line, col)
}

proof fn lemma_has_site_grows(before: Seq<Site>, out: Seq<Site>, file: Seq<char>, line: usize, col: usize)
    requires
        before.len() <= out.len(),
        forall|i: int| 0 <= i < before.len() ==> out[i] == before[i],
        has_site(before, file, line, col),
    ensures
        has_site(out, file, line, col),
{
    let k = choose|k: int| 0 <= k < before.len() && site_view(#[trigger] before[k]) == (file, line, col);
    assert(out[k] == before[k]);
}

/// Whether `decl` holds a write at `line`, `col` in one of its statements.
pub open spec fn decl_writes_at(decl: FnDecl, line: usize, col: usize) -> bool {
    exists|k: int| 0 <= k < decl.body@.len() && has_write_at(#[trigger] stmt_expr(decl.body@[k]), line, col)
}

/// Whether `s` is in the file of a declaration the program wrote itself,
/// at a write in one of its statements.
pub open spec fn site_written(program: Program, s: Site) -> bool {
    exists|d: int|
        0 <= d < program.fns@.len() && !(#[trigger] program.fns@[d]).synthetic && program.fns@[d].file@ == s.0@
            && decl_writes_at(program.fns@[d], s.1, s.2)
}

/// Whether walking a statement of a declaration the program wrote itself,
/// in the file of `s`, marks the write at `s`.
pub open spec fn push_source(
    program: Program,
    types: Seq<String>,
    folds: Seq<String>,
    rets: Seq<(String, usize)>,
    lin: Seq<Site>,
    s: Site,
) -> bool {
    exists|d: int, j: int|
        0 <= d < program.fns@.len() && !program.fns@[d].synthetic && program.fns@[d].file@ == s.0@ && 0 <= j
            < program.fns@[d].body@.len() && #[trigger] push_marks(
            types,
            folds,
            rets,
            lin,
            program.fns@[d],
            stmt_expr(program.fns@[d].body@[j]),
            None,
            s.1,
            s.2,
        )
}

/// Whether `r` lists exactly the writes that walking the statements of the
/// declarations `program` wrote itself marks, under the given answers,
/// each in the file of its declaration.
pub open spec fn pushes_found(
    program: Program,
    types: Seq<String>,
    folds: Seq<String>,
    rets: Seq<(String, usize)>,
    lin: Seq<Site>,
    r: Seq<Site>,
) -> bool {
    &&& forall|i: int| 0 <= i < r.len() ==> push_source(program, types, folds, rets, lin, #[trigger] r[i])
    &&& forall|d: int, j: int, line: usize, col: usize|
        0 <= d < program.fns@.len() && !program.fns@[d].synthetic && 0 <= j < program.fns@[d].body@.len() && #[trigger] push_marks(
            types,
            folds,
            rets,
            lin,
            program.fns@[d],
            stmt_expr(program.fns@[d].body@[j]),
            None,
            line,
            col,
        ) ==> has_site(r, program.fns@[d].file@, line, col)
}

/// Push call sites, keyed (file, line, column), whose list argument is
/// uniquely owned and may be extended in place. Each is listed once, and
/// each is a `push`, `append` or `put` written in a declaration the program
/// wrote itself, in the file that declaration came from.
pub fn in_place_pushes(program: &Program) -> (r: Vec<Site>)
    ensures
        distinct_sites(r@),
        forall|i: int| 0 <= i < r@.len() ==> site_written(*program, #[trigger] r@[i]),
        exists|types: Seq<String>, folds: Seq<String>, rets: Seq<(String, usize)>, lin: Seq<Site>|
            #[trigger] settled(*program, types, folds, rets, lin) && pushes_found(*program, types, folds, rets, lin, r@),
{
    let analysis = Analysis::new(program);
    let mut out: Vec<Site> = Vec::new();
    let mut k: usize = 0;
    while k < program.fns.len()
        invariant
            k <= program.fns@.len(),
            analysis.program == program,
            distinct_sites(out@),
            forall|i: int| 0 <= i < out@.len() ==> site_written(*program, #[trigger] out@[i]),
            forall|i: int| 0 <= i < out@.len() ==> push_source(*program, analysis.types@, analysis.folds@, analysis.returns_unique@, analysis.linear_params@, #[trigger] out@[i]),
            forall|d: int, j: int, line: usize, col: usize|
                0 <= d < k && !program.fns@[d].synthetic && 0 <= j < program.fns@[d].body@.len() && #[trigger] push_marks(
                analysis.types@, analysis.folds@, analysis.returns_unique@, analysis.linear_params@, program.fns@[d], stmt_expr(program.fns@[d].body@[j]), None, line, col) ==> has_site(out@, program.fns@[d].file@, line, col),
        decreases program.fns@.len() - k,
    {
        let decl = &program.fns[k];
        if !decl.synthetic {
            let mut j: usize = 0;
            while j < decl.body.len()
                invariant
                    k < program.fns@.len(),
                    *decl == program.fns@[k as int],
                    !decl.synthetic,
                    analysis.program == program,
                    j <= decl.body@.len(),
                    distinct_sites(out@),
                    forall|i: int| 0 <= i < out@.len() ==> site_written(*program, #[trigger] out@[i]),
                    forall|i: int| 0 <= i < out@.len() ==> push_source(*program, analysis.types@, analysis.folds@, analysis.returns_unique@, analysis.linear_params@, #[trigger] out@[i]),
                    forall|d: int, j: int, line: usize, col: usize|
                        0 <= d < k && !program.fns@[d].synthetic && 0 <= j < program.fns@[d].body@.len() && #[trigger] push_marks(
                        analysis.types@, analysis.folds@, analysis.returns_unique@, analysis.linear_params@, program.fns@[d], stmt_expr(program.fns@[d].body@[j]), None, line, col) ==> has_site(out@, program.fns@[d].file@, line, col),
                    forall|q: int, line: usize, col: usize|
                        0 <= q < j && #[trigger] push_marks(analysis.types@, analysis.folds@, analysis.returns_unique@, analysis.linear_params@, *decl, stmt_expr(decl.body@[q]), None, line, col) ==> has_site(out@, decl.file@, line, col),
                decreases decl.body@.len() - j,
            {
                let ghost before = out@;
                let e = stmt_expr_of(&decl.body[j]);
                analysis.walk_for_push_in(decl, e, &mut out, None);
                proof {
                    assert(scoped_view(None) == None::<Seq<char>>);
                    assert forall|i: int| 0 <= i < out@.len() implies push_source(*program, analysis.types@, analysis.folds@, analysis.returns_unique@, analysis.linear_params@, #[trigger] out@[i]) by {
                        if i < before.len() {
                            assert(out@[i] == before[i]);
                        } else {
                            assert(push_marks(analysis.types@, analysis.folds@, analysis.returns_unique@, analysis.linear_params@, program.fns@[k as int], stmt_expr(program.fns@[k as int].body@[j as int]), None, out@[i].1, out@[i].2));
                        }
                    }
                    assert forall|d: int, jj: int, line: usize, col: usize|
                        0 <= d < k && !program.fns@[d].synthetic && 0 <= jj < program.fns@[d].body@.len() && #[trigger] push_marks(
                        analysis.types@, analysis.folds@, analysis.returns_unique@, analysis.linear_params@, program.fns@[d], stmt_expr(program.fns@[d].body@[jj]), None, line, col) implies has_site(out@, program.fns@[d].file@, line, col) by {
                        lemma_has_site_grows(before, out@, program.fns@[d].file@, line, col);
                    }
                    assert forall|q: int, line: usize, col: usize|
                        0 <= q < j + 1 && #[trigger] push_marks(analysis.types@, analysis.folds@, analysis.returns_unique@, analysis.linear_params@, *decl, stmt_expr(decl.body@[q]), None, line, col) implies has_site(out@, decl.file@, line, col) by {
                        if q < j {
                            lemma_has_site_grows(before, out@, decl.file@, line, col);
                        }
                    }
                    assert forall|i: int| 0 <= i < out@.len() implies site_written(*program, #[trigger] out@[i]) by {
                        if i >= before.len() {
                            assert(has_write_at(stmt_expr(decl.body@[j as int]), out@[i].1, out@[i].2));
                            assert(decl_writes_at(program.fns@[k as int], out@[i].1, out@[i].2));
                        } else {
                            assert(out@[i] == before[i]);
                        }
                    }
                }
                j += 1;
            }
        }
        proof {
            assert forall|d: int, j: int, line: usize, col: usize|
                0 <= d < k + 1 && !program.fns@[d].synthetic && 0 <= j < program.fns@[d].body@.len() && #[trigger] push_marks(
                analysis.types@, analysis.folds@, analysis.returns_unique@, analysis.linear_params@, program.fns@[d], stmt_expr(program.fns@[d].body@[j]), None, line, col) implies has_site(out@, program.fns@[d].file@, line, col) by {
                if d == k {
                    assert(program.fns@[d] == *decl);
                }
            }
        }
        k += 1;
    }
    assert(settled(*program, analysis.types@, analysis.folds@, analysis.returns_unique@, analysis.linear_params@));
    assert(pushes_found(*program, analysis.types@, analysis.folds@, analysis.returns_unique@, analysis.linear_params@, out@));
    out
}

} // verus!
