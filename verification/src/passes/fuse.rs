//! Enumerable fusion: a consumer applied to a chain of adapters becomes one
//! `fold` over the chain's root, the adapter steps composed into the
//! reducer, so no list is built between the steps of a chain consumed in
//! place. `fold`'s typed arms make the rewrite sound for any root.

use vstd::prelude::*;
use crate::ast::{
    children, copy_expr, for_each_child, lemma_children_smaller, map_children, refs, same_shape, same_stmt_shape, size,
    stmt_expr, stmt_expr_of, twin, Expr, FnDecl, Pattern, Program, Stmt,
};
use crate::diag::Span;
use crate::text::{after_last_slash, has_prefix, same_text};

verus! {

/// A name's last part: what follows its last `/`, or all of it.
pub open spec fn short_of(n: Seq<char>) -> Seq<char> {
    match after_last_slash(n) {
        Some(s) => s,
        None => n,
    }
}

/// Whether `d` is declared in std/list.
pub open spec fn in_std_list(d: FnDecl) -> bool {
    has_prefix(d.file@, "std/list"@)
}

/// Whether std/list declares something whose last part is `s`.
pub open spec fn std_list_short(fns: Seq<FnDecl>, s: Seq<char>) -> bool {
    exists|j: int| 0 <= j < fns.len() && in_std_list(#[trigger] fns[j]) && short_of(fns[j].name@) == s
}

/// The enumerable operation the name `n` spells: its last part, when `n` is
/// a declared name and std/list declares that last part.
pub open spec fn enumerable(fns: Seq<FnDecl>, n: Seq<char>) -> Option<Seq<char>> {
    if (exists|j: int| 0 <= j < fns.len() && (#[trigger] fns[j]).name@ == n) && std_list_short(fns, short_of(n)) {
        Some(short_of(n))
    } else {
        None
    }
}

/// The names fusion reads, as plain values: the enumerable names, the
/// spelling of std/list's `fold`, and of its helpers `bump` and `file_under`.
pub struct FuseNames {
    pub enumerable: Vec<String>,
    pub fold: String,
    pub bump: Option<String>,
    pub file_under: Option<String>,
}

/// The enumerable operation `n` spells, by the table.
pub open spec fn table_enumerable(names: FuseNames, n: Seq<char>) -> Option<Seq<char>> {
    if exists|j: int| 0 <= j < names.enumerable@.len() && (#[trigger] names.enumerable@[j])@ == n {
        Some(short_of(n))
    } else {
        None
    }
}

/// Whether `e` is the name `name`, written anywhere.
pub open spec fn is_ident(e: Expr, name: Seq<char>) -> bool {
    e matches Expr::Ident(n, _) && n@ == name
}

/// `b` is `a` with every use of the name `name`, outside any guard,
/// replaced by a copy of `v`.
pub open spec fn subst(a: Expr, b: Expr, name: Seq<char>, v: Expr) -> bool
    decreases size(a), 1nat, 0nat,
    via subst_decreases
{
    if is_ident(a, name) {
        twin(v, b)
    } else if a is Guard {
        b == a
    } else {
        same_shape(a, b) && children(b).len() == children(a).len() && subst_among(a, b, name, v, children(a).len())
    }
}

pub open spec fn subst_among(a: Expr, b: Expr, name: Seq<char>, v: Expr, n: nat) -> bool
    decreases size(a), 0nat, n,
    via subst_among_decreases
{
    if n == 0 {
        true
    } else if n > children(a).len() || n > children(b).len() {
        false
    } else {
        subst_among(a, b, name, v, (n - 1) as nat) && subst(children(a)[n - 1], children(b)[n - 1], name, v)
    }
}

#[via_fn]
proof fn subst_decreases(a: Expr, b: Expr, name: Seq<char>, v: Expr) {
    lemma_children_smaller(a);
}

#[via_fn]
proof fn subst_among_decreases(a: Expr, b: Expr, name: Seq<char>, v: Expr, n: nat) {
    lemma_children_smaller(a);
}

proof fn lemma_subst_among(a: Expr, b: Expr, name: Seq<char>, v: Expr, n: nat)
    requires
        n <= children(a).len() == children(b).len(),
        forall|i: int| 0 <= i < children(a).len() ==> subst(#[trigger] children(a)[i], children(b)[i], name, v),
    ensures
        subst_among(a, b, name, v, n),
    decreases n,
{
    if n > 0 {
        lemma_subst_among(a, b, name, v, (n - 1) as nat);
    }
}

/// Not within `n` nodes.
pub open spec fn within(c: Expr, n: nat) -> bool {
    size(c) < n
}

fn substitute(e: Expr, name: &str, v: &Expr) -> (r: Expr)
    ensures
        subst(e, r, name@, *v),
    decreases size(e),
{
    if let Expr::Ident(n, _) = &e {
        if same_text(n.as_str(), name) {
            return copy_expr(v);
        }
    }
    if let Expr::Guard { .. } = &e {
        return e;
    }
    let ghost g = e;
    let ghost bound: nat = size(e);
    proof {
        lemma_children_smaller(e);
    }
    let inner = |c: Expr| -> (d: Expr)
        requires
            within(c, bound),
        ensures
            subst(c, d, name@, *v),
        { substitute(c, name, v) };
    let m = map_children(e, inner);
    proof {
        assert forall|i: int| 0 <= i < children(g).len() implies subst(#[trigger] children(g)[i], children(m)[i], name@, *v) by {}
        lemma_subst_among(g, m, name@, *v, children(g).len());
    }
    m
}

/// How many times the name `name` is written in `e`, guards included.
pub open spec fn uses_of(e: Expr, name: Seq<char>) -> nat
    decreases size(e), 1nat, 0nat,
{
    (if is_ident(e, name) { 1nat } else { 0nat }) + uses_among(e, name, children(e).len())
}

pub open spec fn uses_among(e: Expr, name: Seq<char>, n: nat) -> nat
    decreases size(e), 0nat, n,
    via uses_among_decreases
{
    if n == 0 || n > children(e).len() {
        0
    } else {
        uses_among(e, name, (n - 1) as nat) + uses_of(children(e)[n - 1], name)
    }
}

#[via_fn]
proof fn uses_among_decreases(e: Expr, name: Seq<char>, n: nat) {
    lemma_children_smaller(e);
}

/// `n`, or two if it is more: all a single-use question needs.
pub open spec fn capped(n: nat) -> nat {
    if n >= 2 {
        2
    } else {
        n
    }
}

fn count_uses(e: &Expr, name: &str) -> (r: usize)
    ensures
        r == capped(uses_of(*e, name@)),
    decreases size(*e),
{
    let mut n: usize = if let Expr::Ident(x, _) = e {
        if same_text(x.as_str(), name) {
            1
        } else {
            0
        }
    } else {
        0
    };
    let ghost here: nat = if is_ident(*e, name@) { 1nat } else { 0nat };
    proof {
        lemma_children_smaller(*e);
    }
    let kids = for_each_child(e);
    let mut k: usize = 0;
    while k < kids.len()
        invariant
            k <= kids@.len(),
            refs(kids@) == children(*e),
            forall|j: int| 0 <= j < children(*e).len() ==> size(#[trigger] children(*e)[j]) < size(*e),
            n == capped(here + uses_among(*e, name@, k as nat)),
        decreases kids@.len() - k,
    {
        assert(refs(kids@)[k as int] == *kids@[k as int]);
        let c = count_uses(kids[k], name);
        n = if n + c >= 2 {
            2
        } else {
            n + c
        };
        k += 1;
    }
    n
}

/// Whether the name `name` is the collection argument of an enumerable
/// call somewhere in `e`.
pub open spec fn coll_use(e: Expr, name: Seq<char>, fns: Seq<FnDecl>) -> bool
    decreases size(e), 1nat, 0nat,
{
    is_coll_arg(e, name, fns) || coll_among(e, name, fns, children(e).len())
}

/// Whether `e` is an enumerable call whose first argument is the name.
pub open spec fn is_coll_arg(e: Expr, name: Seq<char>, fns: Seq<FnDecl>) -> bool {
    match e {
        Expr::App { head, args, .. } => match *head {
            Expr::Ident(h, _) => enumerable(fns, h@) is Some && args@.len() > 0 && is_ident(args@[0], name),
            _ => false,
        },
        _ => false,
    }
}

pub open spec fn coll_among(e: Expr, name: Seq<char>, fns: Seq<FnDecl>, n: nat) -> bool
    decreases size(e), 0nat, n,
    via coll_among_decreases
{
    if n == 0 || n > children(e).len() {
        false
    } else {
        coll_among(e, name, fns, (n - 1) as nat) || coll_use(children(e)[n - 1], name, fns)
    }
}

#[via_fn]
proof fn coll_among_decreases(e: Expr, name: Seq<char>, fns: Seq<FnDecl>, n: nat) {
    lemma_children_smaller(e);
}

proof fn lemma_coll_among(e: Expr, name: Seq<char>, fns: Seq<FnDecl>, k: nat, m: nat)
    requires
        k <= m <= children(e).len(),
        coll_among(e, name, fns, k),
    ensures
        coll_among(e, name, fns, m),
    decreases m - k,
{
    if k < m {
        lemma_coll_among(e, name, fns, k, (m - 1) as nat);
    }
}

/// The names table reads as the program's names do.
pub open spec fn names_match(names: FuseNames, fns: Seq<FnDecl>) -> bool {
    forall|n: Seq<char>| #[trigger] table_enumerable(names, n) == enumerable(fns, n)
}

fn enumerable_short(names: &FuseNames, n: &str) -> (r: bool)
    ensures
        r == (table_enumerable(*names, n@) is Some),
{
    let mut j: usize = 0;
    while j < names.enumerable.len()
        invariant
            j <= names.enumerable@.len(),
            forall|q: int| 0 <= q < j ==> (#[trigger] names.enumerable@[q])@ != n@,
        decreases names.enumerable@.len() - j,
    {
        if same_text(names.enumerable[j].as_str(), n) {
            return true;
        }
        j += 1;
    }
    false
}

fn has_coll_use(e: &Expr, name: &str, names: &FuseNames, fns: Ghost<Seq<FnDecl>>) -> (r: bool)
    requires
        names_match(*names, fns@),
    ensures
        r == coll_use(*e, name@, fns@),
    decreases size(*e),
{
    if let Expr::App { head, args, .. } = e {
        if let Expr::Ident(h, _) = &**head {
            if args.len() > 0 {
                if let Expr::Ident(first, _) = &args[0] {
                    if same_text(first.as_str(), name) && enumerable_short(names, h.as_str()) {
                        assert(table_enumerable(*names, h@) == enumerable(fns@, h@));
                        return true;
                    }
                }
            }
            assert(table_enumerable(*names, h@) == enumerable(fns@, h@));
        }
    }
    assert(!is_coll_arg(*e, name@, fns@));
    proof {
        lemma_children_smaller(*e);
    }
    let kids = for_each_child(e);
    let mut k: usize = 0;
    while k < kids.len()
        invariant
            k <= kids@.len(),
            refs(kids@) == children(*e),
            names_match(*names, fns@),
            !is_coll_arg(*e, name@, fns@),
            forall|j: int| 0 <= j < children(*e).len() ==> size(#[trigger] children(*e)[j]) < size(*e),
            !coll_among(*e, name@, fns@, k as nat),
        decreases kids@.len() - k,
    {
        assert(refs(kids@)[k as int] == *kids@[k as int]);
        if has_coll_use(kids[k], name, names, fns) {
            assert(coll_among(*e, name@, fns@, (k + 1) as nat));
            proof {
                lemma_coll_among(*e, name@, fns@, (k + 1) as nat, children(*e).len());
            }
            return true;
        }
        k += 1;
    }
    false
}

/// The enumerable operations a binding may be an application of to be
/// inlined back into a chain.
pub open spec fn adapter_short(s: Seq<char>) -> bool {
    s == "drop"@ || s == "map"@ || s == "reject"@ || s == "select"@ || s == "take"@
}

/// Whether `s` binds a plain name to an application of an adapter.
pub open spec fn adapter_binding(s: Stmt, fns: Seq<FnDecl>) -> bool {
    match s {
        Stmt::Bind { pattern: Pattern::Var(_, _), expr: Expr::App { head, .. } } => match *head {
            Expr::Ident(a, _) => match enumerable(fns, a@) {
                Some(sh) => adapter_short(sh),
                None => false,
            },
            _ => false,
        },
        _ => false,
    }
}

/// The name a binding binds.
pub open spec fn bound_name(s: Stmt) -> Seq<char> {
    s->Bind_pattern->Var_0@
}

/// How many times the statements write the name.
pub open spec fn stmts_uses(ss: Seq<Stmt>, name: Seq<char>) -> nat
    decreases ss.len(),
{
    if ss.len() == 0 {
        0
    } else {
        stmts_uses(ss.drop_last(), name) + uses_of(stmt_expr(ss.last()), name)
    }
}

/// Whether the name is used exactly once in `rest`, and somewhere there as
/// the collection argument of an enumerable call.
pub open spec fn sole_coll_use(rest: Seq<Stmt>, name: Seq<char>, fns: Seq<FnDecl>) -> bool {
    &&& stmts_uses(rest, name) == 1
    &&& exists|k: int| 0 <= k < rest.len() && #[trigger] coll_use(stmt_expr(rest[k]), name, fns)
}

/// `b` is the statements `a` with the name replaced by copies of `v`.
pub open spec fn subst_stmts(a: Seq<Stmt>, b: Seq<Stmt>, name: Seq<char>, v: Expr) -> bool {
    &&& a.len() == b.len()
    &&& forall|i: int| 0 <= i < a.len() ==> #[trigger] same_stmt_shape(a[i], b[i])
    &&& forall|i: int| 0 <= i < a.len() ==> subst(#[trigger] stmt_expr(a[i]), stmt_expr(b[i]), name, v)
}

/// `new` is the body `old` with every adapter binding whose name is used
/// exactly once afterwards, as an enumerable call's collection, inlined into
/// that use and dropped: a binding made to keep a line short was a rename,
/// not an escape, and must not hide a chain from fusion.
pub open spec fn inlined(old: Seq<Stmt>, new: Seq<Stmt>, fns: Seq<FnDecl>) -> bool
    decreases old.len(),
{
    if old.len() == 0 {
        new.len() == 0
    } else if adapter_binding(old[0], fns) && sole_coll_use(old.drop_first(), bound_name(old[0]), fns) {
        exists|mid: Seq<Stmt>|
            #[trigger] subst_stmts(old.drop_first(), mid, bound_name(old[0]), stmt_expr(old[0])) && mid.len() < old.len()
                && inlined(mid, new, fns)
    } else {
        new.len() >= 1 && new[0] == old[0] && inlined(old.drop_first(), new.drop_first(), fns)
    }
}

/// The last part of a name.
pub(crate) fn short_name(s: &str) -> (r: Vec<char>)
    ensures
        r@ == short_of(s@),
{
    let cs = crate::text::chars_of(s);
    match crate::text::find_last_char(cs.as_slice(), '/') {
        Some(i) => {
            let len = cs.len();
            assert(i < len);
            crate::text::slice_vec(cs.as_slice(), i + 1, len)
        },
        None => cs,
    }
}

fn is_adapter(names: &FuseNames, a: &str, fns: Ghost<Seq<FnDecl>>) -> (r: bool)
    requires
        names_match(*names, fns@),
    ensures
        r == match enumerable(fns@, a@) {
            Some(sh) => adapter_short(sh),
            None => false,
        },
{
    assert(table_enumerable(*names, a@) == enumerable(fns@, a@));
    if !enumerable_short(names, a) {
        return false;
    }
    let sh = short_name(a);
    proof {
        reveal_strlit("drop");
        reveal_strlit("map");
        reveal_strlit("reject");
        reveal_strlit("select");
        reveal_strlit("take");
    }
    let drop = crate::text::chars_of("drop");
    let map = crate::text::chars_of("map");
    let reject = crate::text::chars_of("reject");
    let select = crate::text::chars_of("select");
    let take = crate::text::chars_of("take");
    crate::text::same_chars(sh.as_slice(), drop.as_slice()) || crate::text::same_chars(sh.as_slice(), map.as_slice())
        || crate::text::same_chars(sh.as_slice(), reject.as_slice()) || crate::text::same_chars(
        sh.as_slice(),
        select.as_slice(),
    ) || crate::text::same_chars(sh.as_slice(), take.as_slice())
}

/// Whether `name` is used once in `rest`, as an enumerable call's collection.
fn used_once_as_collection(rest: &Vec<Stmt>, name: &str, names: &FuseNames, fns: Ghost<Seq<FnDecl>>) -> (r: bool)
    requires
        names_match(*names, fns@),
    ensures
        r == sole_coll_use(rest@, name@, fns@),
{
    let mut n: usize = 0;
    let mut k: usize = 0;
    assert(rest@.subrange(0, 0) =~= Seq::<Stmt>::empty());
    while k < rest.len()
        invariant
            k <= rest@.len(),
            n == capped(stmts_uses(rest@.subrange(0, k as int), name@)),
        decreases rest@.len() - k,
    {
        assert(rest@.subrange(0, k + 1).drop_last() =~= rest@.subrange(0, k as int));
        let c = count_uses(stmt_expr_of(&rest[k]), name);
        n = if n + c >= 2 {
            2
        } else {
            n + c
        };
        k += 1;
    }
    assert(rest@.subrange(0, k as int) =~= rest@);
    if n != 1 {
        return false;
    }
    let mut k: usize = 0;
    while k < rest.len()
        invariant
            k <= rest@.len(),
            names_match(*names, fns@),
            stmts_uses(rest@, name@) == 1,
            forall|q: int| 0 <= q < k ==> !#[trigger] coll_use(stmt_expr(rest@[q]), name@, fns@),
        decreases rest@.len() - k,
    {
        if has_coll_use(stmt_expr_of(&rest[k]), name, names, fns) {
            assert(coll_use(stmt_expr(rest@[k as int]), name@, fns@));
            return true;
        }
        k += 1;
    }
    false
}

/// The statements, with the name replaced by copies of `v`.
fn substitute_all(rest: Vec<Stmt>, name: &str, v: &Expr) -> (r: Vec<Stmt>)
    ensures
        subst_stmts(rest@, r@, name@, *v),
{
    let ghost orig = rest@;
    let mut back = super::canon::reversed(rest);
    let mut out: Vec<Stmt> = Vec::new();
    while back.len() > 0
        invariant
            back@.len() + out@.len() == orig.len(),
            forall|i: int| 0 <= i < back@.len() ==> back@[i] == orig[orig.len() - 1 - i],
            forall|i: int| 0 <= i < out@.len() ==> #[trigger] same_stmt_shape(orig[i], out@[i]),
            forall|i: int| 0 <= i < out@.len() ==> subst(#[trigger] stmt_expr(orig[i]), stmt_expr(out@[i]), name@, *v),
        decreases back@.len(),
    {
        let st = back.pop().unwrap();
        assert(st == orig[out@.len() as int]);
        let next = match st {
            Stmt::Bind { pattern, expr } => Stmt::Bind { pattern, expr: substitute(expr, name, v) },
            Stmt::Expr(e) => Stmt::Expr(substitute(e, name, v)),
            Stmt::Assign { name: target, value } => Stmt::Assign { name: target, value: substitute(value, name, v) },
        };
        out.push(next);
    }
    out
}

/// Inlines every adapter binding whose name the rest of the body uses once,
/// as the collection of an enumerable call, back into that use.
fn inline_single_use_chains(body: Vec<Stmt>, names: &FuseNames, fns: Ghost<Seq<FnDecl>>) -> (r: Vec<Stmt>)
    requires
        names_match(*names, fns@),
    ensures
        inlined(body@, r@, fns@),
{
    let ghost orig = body@;
    let mut done: Vec<Stmt> = Vec::new();
    let mut rest = body;
    assert(done@ + orig =~= orig);
    while rest.len() > 0
        invariant
            names_match(*names, fns@),
            forall|new: Seq<Stmt>| #[trigger] inlined(rest@, new, fns@) ==> inlined(orig, done@ + new, fns@),
        decreases rest@.len(),
    {
        let ghost whole = rest@;
        let st = rest.remove(0);
        assert(st == whole[0]);
        assert(rest@ =~= whole.drop_first());
        let inline = match &st {
            Stmt::Bind { pattern: Pattern::Var(name, _), expr: Expr::App { head, .. } } => match &**head {
                Expr::Ident(a, _) => is_adapter(names, a.as_str(), fns) && used_once_as_collection(&rest, name.as_str(), names, fns),
                _ => false,
            },
            _ => false,
        };
        assert(inline == (adapter_binding(st, fns@) && sole_coll_use(whole.drop_first(), bound_name(st), fns@)));
        if inline {
            let (name, value) = match st {
                Stmt::Bind { pattern: Pattern::Var(n, _), expr } => (n, expr),
                _ => {
                    proof {
                        assert(false);
                    }
                    (String::new(), Expr::Ident(String::new(), crate::diag::Span::at(0, 0)))
                },
            };
            let ghost before_rest = rest@;
            rest = substitute_all(rest, name.as_str(), &value);
            proof {
                assert forall|new: Seq<Stmt>| #[trigger] inlined(rest@, new, fns@) implies inlined(orig, done@ + new, fns@) by {
                    assert(subst_stmts(whole.drop_first(), rest@, bound_name(whole[0]), stmt_expr(whole[0])));
                    assert(inlined(whole, new, fns@));
                }
            }
        } else {
            let ghost before_done = done@;
            done.push(st);
            proof {
                assert forall|new: Seq<Stmt>| #[trigger] inlined(rest@, new, fns@) implies inlined(orig, done@ + new, fns@) by {
                    let full = seq![st] + new;
                    assert(full[0] == whole[0]);
                    assert(full.drop_first() =~= new);
                    assert(inlined(whole, full, fns@));
                    assert(before_done + full =~= done@ + new);
                }
            }
        }
    }
    assert(inlined(rest@, Seq::<Stmt>::empty(), fns@));
    assert(done@ + Seq::<Stmt>::empty() =~= done@);
    done
}

/// The fresh names fusion writes, numbered by the counter.
pub open spec fn acc_name(c: nat) -> Seq<char> {
    "facc"@ + crate::text::digits_of(c)
}

pub open spec fn elem_name(c: nat) -> Seq<char> {
    "felem"@ + crate::text::digits_of(c)
}

pub open spec fn root_name(c: nat) -> Seq<char> {
    "froot"@ + crate::text::digits_of(c)
}

/// `e` is the name `n` written at `span`.
pub open spec fn ident_at(e: Expr, n: Seq<char>, span: Span) -> bool {
    e matches Expr::Ident(x, s) && x@ == n && s == span
}

/// `e` is an unpiped call written at `span`, with `n` arguments.
pub open spec fn call_at(e: Expr, span: Span, n: nat) -> bool {
    e matches Expr::App { args, span: s, piped, .. } && !piped && s == span && args@.len() == n
}

/// `e` is a lambda at `span` taking the names `a` and `x`, written there.
pub open spec fn lambda2_at(e: Expr, a: Seq<char>, x: Seq<char>, span: Span) -> bool {
    &&& e matches Expr::Lambda { params, span: s, .. }
    &&& s == span && e->Lambda_params@.len() == 2
    &&& e->Lambda_params@[0].0@ == a && e->Lambda_params@[0].1 == span
    &&& e->Lambda_params@[1].0@ == x && e->Lambda_params@[1].1 == span
}

/// `e` is the call `f x` at `span`: `f` applied to the name `x`.
pub open spec fn applied_to(e: Expr, f: Expr, x: Seq<char>, span: Span) -> bool {
    call_at(e, span, 1) && *e->App_head == f && ident_at(e->App_args@[0], x, span)
}

/// `e` is `a + b` at `span`, with `a` the name `a` and `b` as `rhs` says.
pub open spec fn plus_at(e: Expr, a: Seq<char>, span: Span) -> bool {
    e matches Expr::BinOp { op, lhs, span: s, .. } && op == crate::lexer::Op::Plus && s == span && ident_at(*lhs, a, span)
}

/// The number `k` written at `span`, as a literal.
pub open spec fn int_at(e: Expr, k: nat, span: Span) -> bool {
    e matches Expr::Int(b, s) && s == span && !b.negative && (if k == 0 { b.digits@.len() == 0 } else { b.digits@ == seq![k as u32] })
}

/// The enumerable operation a call consumes with, when `e` is an unpiped
/// call of an enumerable name.
pub open spec fn consumer_of(e: Expr, fns: Seq<FnDecl>) -> Option<Seq<char>> {
    match e {
        Expr::App { head, piped, .. } => if piped {
            None
        } else {
            match *head {
                Expr::Ident(n, _) => enumerable(fns, n@),
                _ => None,
            }
        },
        _ => None,
    }
}

/// The consumers fusion knows, by operation and argument count; `tally`
/// and `group_by` need std/list's helpers.
pub open spec fn consumer_known(s: Seq<char>, n: nat, names: FuseNames) -> bool {
    ||| s == "fold"@ && n == 3
    ||| s == "tally"@ && n == 1 && names.bump is Some
    ||| s == "group_by"@ && n == 2 && names.file_under is Some
    ||| s == "sum"@ && n == 1
    ||| s == "to_list"@ && n == 1
    ||| s == "count"@ && n == 2
}

/// The words fusion reads tell apart by length and first letter.
proof fn lemma_words()
    ensures
        "fold"@.len() == 4 && "fold"@[0] == 'f',
        "tally"@.len() == 5 && "tally"@[0] == 't',
        "group_by"@.len() == 8 && "group_by"@[0] == 'g',
        "sum"@.len() == 3 && "sum"@[0] == 's',
        "to_list"@.len() == 7 && "to_list"@[0] == 't',
        "count"@.len() == 5 && "count"@[0] == 'c',
        "map"@.len() == 3 && "map"@[0] == 'm',
        "select"@.len() == 6 && "select"@[0] == 's',
        "reject"@.len() == 6 && "reject"@[0] == 'r',
{
    reveal_strlit("fold");
    reveal_strlit("tally");
    reveal_strlit("group_by");
    reveal_strlit("sum");
    reveal_strlit("to_list");
    reveal_strlit("count");
    reveal_strlit("map");
    reveal_strlit("select");
    reveal_strlit("reject");
}

/// What the consumer `s` folds from: `init`, and the reducer `red` over the
/// names `acc_name(c)` and `elem_name(c)`, all written at `span`.
pub open spec fn consumer_start(
    s: Seq<char>,
    args: Seq<Expr>,
    span: Span,
    c: nat,
    names: FuseNames,
    init: Expr,
    red: Expr,
) -> bool {
    let a = acc_name(c);
    let x = elem_name(c);
    if s == "fold"@ {
        init == args[1] && red == args[2]
    } else if s == "tally"@ {
        &&& init matches Expr::MapLit(ps, sp) && ps@.len() == 0 && sp == span
        &&& lambda2_at(red, a, x, span)
        &&& {
            let body = *red->Lambda_body;
            &&& call_at(body, span, 3) && ident_at(*body->App_head, "put"@, span)
            &&& ident_at(body->App_args@[0], a, span) && ident_at(body->App_args@[1], x, span)
            &&& {
                let bumped = body->App_args@[2];
                &&& call_at(bumped, span, 1) && ident_at(*bumped->App_head, names.bump->0@, span)
                &&& bumped->App_args@[0] matches Expr::Index { base, index, strict, span: t }
                &&& !strict && t == span && ident_at(*base, a, span) && ident_at(*index, x, span)
            }
        }
    } else if s == "group_by"@ {
        &&& init matches Expr::MapLit(ps, sp) && ps@.len() == 0 && sp == span
        &&& lambda2_at(red, a, x, span)
        &&& {
            let body = *red->Lambda_body;
            &&& call_at(body, span, 3) && ident_at(*body->App_head, names.file_under->0@, span)
            &&& ident_at(body->App_args@[0], a, span) && applied_to(body->App_args@[1], args[1], x, span)
            &&& ident_at(body->App_args@[2], x, span)
        }
    } else if s == "sum"@ {
        &&& int_at(init, 0, span)
        &&& lambda2_at(red, a, x, span)
        &&& plus_at(*red->Lambda_body, a, span) && ident_at(*red->Lambda_body->BinOp_rhs, x, span)
    } else if s == "to_list"@ {
        &&& init matches Expr::List(items, sp) && items@.len() == 0 && sp == span
        &&& lambda2_at(red, a, x, span)
        &&& {
            let body = *red->Lambda_body;
            call_at(body, span, 2) && ident_at(*body->App_head, "push"@, span) && ident_at(body->App_args@[0], a, span)
                && ident_at(body->App_args@[1], x, span)
        }
    } else {
        &&& int_at(init, 0, span)
        &&& lambda2_at(red, a, x, span)
        &&& {
            let body = *red->Lambda_body;
            &&& call_at(body, span, 3) && ident_at(*body->App_head, "if"@, span)
            &&& applied_to(body->App_args@[0], args[1], x, span)
            &&& plus_at(body->App_args@[1], a, span) && int_at(*body->App_args@[1]->BinOp_rhs, 1, span)
            &&& ident_at(body->App_args@[2], a, span)
        }
    }
}

/// Whether the loop looks at `src` as an adapter step: an unpiped call of an
/// enumerable name with two arguments. It counts such a step even where the
/// operation is one it cannot fuse.
pub open spec fn examined(src: Expr, fns: Seq<FnDecl>) -> bool {
    consumer_of(src, fns) is Some && src->App_args@.len() == 2
}

/// Whether `src` is an adapter step fusion composes: `map`, `select` or
/// `reject`.
pub open spec fn fusable(src: Expr, fns: Seq<FnDecl>) -> bool {
    examined(src, fns) && {
        let op = consumer_of(src, fns)->0;
        op == "map"@ || op == "select"@ || op == "reject"@
    }
}

/// `out` is the reducer `red` composed with the adapter `op` whose step is
/// `step`, over the names of counter `c`.
pub open spec fn wrapped(op: Seq<char>, red: Expr, step: Expr, out: Expr, c: nat, span: Span) -> bool {
    let a = acc_name(c);
    let x = elem_name(c);
    &&& lambda2_at(out, a, x, span)
    &&& {
        let body = *out->Lambda_body;
        if op == "map"@ {
            call_at(body, span, 2) && *body->App_head == red && ident_at(body->App_args@[0], a, span)
                && applied_to(body->App_args@[1], step, x, span)
        } else {
            let stepped = body->App_args@[0];
            let kept = if op == "select"@ { body->App_args@[1] } else { body->App_args@[2] };
            let passed = if op == "select"@ { body->App_args@[2] } else { body->App_args@[1] };
            &&& call_at(body, span, 3) && ident_at(*body->App_head, "if"@, span)
            &&& applied_to(stepped, step, x, span)
            &&& call_at(kept, span, 2) && *kept->App_head == red && ident_at(kept->App_args@[0], a, span)
                && ident_at(kept->App_args@[1], x, span)
            &&& ident_at(passed, a, span)
        }
    }
}

/// How many adapter steps lead the chain at `src`.
pub open spec fn chain_len(src: Expr, fns: Seq<FnDecl>) -> nat
    decreases size(src),
    via chain_len_decreases
{
    if fusable(src, fns) {
        1 + chain_len(src->App_args@[0], fns)
    } else {
        0
    }
}

/// Whether the chain at `src` ends at a step the loop looks at and stops.
pub open spec fn chain_stop(src: Expr, fns: Seq<FnDecl>) -> bool
    decreases size(src),
    via chain_stop_decreases
{
    if fusable(src, fns) {
        chain_stop(src->App_args@[0], fns)
    } else {
        examined(src, fns)
    }
}

#[via_fn]
proof fn chain_len_decreases(src: Expr, fns: Seq<FnDecl>) {
    crate::ast::lemma_parts_smaller(src);
}

#[via_fn]
proof fn chain_stop_decreases(src: Expr, fns: Seq<FnDecl>) {
    crate::ast::lemma_parts_smaller(src);
}

/// Folding the chain at `src` into the reducer `red`, from counter `c`:
/// `root` is where the chain starts, `out` the composed reducer, each step
/// composed over the names of the next count.
pub open spec fn chain_folds(src: Expr, red: Expr, c: nat, span: Span, fns: Seq<FnDecl>, root: Expr, out: Expr) -> bool
    decreases size(src),
    via chain_folds_decreases
{
    if fusable(src, fns) {
        exists|r2: Expr|
            #[trigger] wrapped(consumer_of(src, fns)->0, red, src->App_args@[1], r2, c + 1, span)
                && chain_folds(src->App_args@[0], r2, c + 1, span, fns, root, out)
    } else {
        root == src && out == red
    }
}

#[via_fn]
proof fn chain_folds_decreases(src: Expr, red: Expr, c: nat, span: Span, fns: Seq<FnDecl>, root: Expr, out: Expr) {
    crate::ast::lemma_parts_smaller(src);
}

/// `out` is `Ok` with the call of std/list's `fold` at `span` over `root`,
/// from `init`, with the reducer `red`.
pub open spec fn fold_call(out: Result<Expr, Expr>, names: FuseNames, span: Span, root: Expr, init: Expr, red: Expr) -> bool {
    &&& out is Ok
    &&& call_at(out->Ok_0, span, 3) && ident_at(*out->Ok_0->App_head, names.fold@, span)
    &&& out->Ok_0->App_args@ == seq![root, init, red]
}

/// Where the counter stands after a fusion attempt at `e` from `c`: moved
/// as `try_cost` says, unless it cannot hold that.
pub open spec fn after_try(e: Expr, names: FuseNames, fns: Seq<FnDecl>, c: nat) -> nat {
    if c + try_cost(e, names, fns) > usize::MAX {
        c
    } else {
        c + try_cost(e, names, fns)
    }
}

/// How far a fusion attempt at `e` moves the counter.
pub open spec fn try_cost(e: Expr, names: FuseNames, fns: Seq<FnDecl>) -> nat {
    match consumer_of(e, fns) {
        None => 0,
        Some(s) => if !consumer_known(s, e->App_args@.len(), names) {
            1
        } else {
            1 + chain_len(e->App_args@[0], fns) + if chain_stop(e->App_args@[0], fns) { 1nat } else { 0nat }
        },
    }
}

/// A fusion attempt at `e` with the counter at `c0`: `Ok` with the fold
/// when `e` is a known consumer of a chain of at least one adapter step,
/// `Err` with `e` itself otherwise. Names are numbered from `c0 + 1`. An
/// attempt whose names the counter cannot hold is not made.
pub open spec fn fuses(e: Expr, names: FuseNames, fns: Seq<FnDecl>, c0: nat, out: Result<Expr, Expr>) -> bool {
    if c0 + try_cost(e, names, fns) > usize::MAX || consumer_of(e, fns) is None || !consumer_known(
        consumer_of(e, fns)->0,
        e->App_args@.len(),
        names,
    ) || !fusable(e->App_args@[0], fns) {
        out == Err::<Expr, Expr>(e)
    } else {
        let span = e->App_span;
        let args = e->App_args@;
        exists|init: Expr, red: Expr, root: Expr, red2: Expr|
            #![trigger consumer_start(consumer_of(e, fns)->0, args, span, c0 + 1, names, init, red), chain_folds(args[0], red, c0 + 1, span, fns, root, red2)]
            consumer_start(consumer_of(e, fns)->0, args, span, c0 + 1, names, init, red)
                && chain_folds(args[0], red, c0 + 1, span, fns, root, red2) && fold_call(out, names, span, root, init, red2)
    }
}

/// The enumerable operation `e` consumes with, by the table.
fn consumer_name(e: &Expr, names: &FuseNames, fns: Ghost<Seq<FnDecl>>) -> (r: Option<Vec<char>>)
    requires
        names_match(*names, fns@),
    ensures
        match r {
            Some(s) => consumer_of(*e, fns@) == Some(s@),
            None => consumer_of(*e, fns@) is None,
        },
{
    match e {
        Expr::App { head, piped, .. } => {
            if *piped {
                return None;
            }
            match &**head {
                Expr::Ident(n, _) => {
                    assert(table_enumerable(*names, n@) == enumerable(fns@, n@));
                    if enumerable_short(names, n.as_str()) {
                        Some(short_name(n.as_str()))
                    } else {
                        None
                    }
                },
                _ => None,
            }
        },
        _ => None,
    }
}

fn spells(s: &Vec<char>, word: &str) -> (r: bool)
    ensures
        r == (s@ == word@),
{
    let w = crate::text::chars_of(word);
    crate::text::same_chars(s.as_slice(), w.as_slice())
}

fn known_consumer(s: &Vec<char>, n: usize, names: &FuseNames) -> (r: bool)
    ensures
        r == consumer_known(s@, n as nat, *names),
{
    (spells(s, "fold") && n == 3) || (spells(s, "tally") && n == 1 && names.bump.is_some()) || (spells(s, "group_by")
        && n == 2 && names.file_under.is_some()) || (spells(s, "sum") && n == 1) || (spells(s, "to_list") && n == 1) || (
    spells(s, "count") && n == 2)
}

fn is_examined(src: &Expr, names: &FuseNames, fns: Ghost<Seq<FnDecl>>) -> (r: Option<Vec<char>>)
    requires
        names_match(*names, fns@),
    ensures
        match r {
            Some(op) => examined(*src, fns@) && consumer_of(*src, fns@) == Some(op@),
            None => !examined(*src, fns@),
        },
{
    match consumer_name(src, names, fns) {
        Some(op) => {
            if let Expr::App { args, .. } = src {
                if args.len() == 2 {
                    return Some(op);
                }
            }
            None
        },
        None => None,
    }
}

fn is_fusable_op(op: &Vec<char>) -> (r: bool)
    ensures
        r == (op@ == "map"@ || op@ == "select"@ || op@ == "reject"@),
{
    spells(op, "map") || spells(op, "select") || spells(op, "reject")
}

/// The chain's length and whether it stops at a looked-at step; a length of
/// `usize::MAX` says only that it is at least that long.
fn chain_shape(src: &Expr, names: &FuseNames, fns: Ghost<Seq<FnDecl>>) -> (r: (usize, bool))
    requires
        names_match(*names, fns@),
    ensures
        r.0 < usize::MAX ==> r.0 == chain_len(*src, fns@) && r.1 == chain_stop(*src, fns@),
        r.0 == usize::MAX ==> chain_len(*src, fns@) >= usize::MAX,
    decreases size(*src),
{
    match is_examined(src, names, fns) {
        Some(op) => {
            if is_fusable_op(&op) {
                proof {
                    crate::ast::lemma_parts_smaller(*src);
                }
                match src {
                    Expr::App { args, .. } => {
                        let (k, stop) = chain_shape(&args[0], names, fns);
                        if k == usize::MAX {
                            (usize::MAX, stop)
                        } else {
                            (k + 1, stop)
                        }
                    },
                    _ => (0, false),
                }
            } else {
                (0, true)
            }
        },
        None => (0, false),
    }
}

/// `prefix` followed by the digits of `c`.
fn fresh(prefix: &str, c: usize) -> (r: String)
    ensures
        r@ == prefix@ + crate::text::digits_of(c as nat),
{
    let mut cs: Vec<char> = Vec::new();
    crate::text::push_str(&mut cs, prefix);
    crate::text::push_u64(c as u64, &mut cs);
    crate::text::string_from_chars(cs.as_slice())
}

fn ident(n: &String, span: Span) -> (r: Expr)
    ensures
        ident_at(r, n@, span),
{
    Expr::Ident(n.clone(), span)
}

fn word(w: &str, span: Span) -> (r: Expr)
    ensures
        ident_at(r, w@, span),
{
    Expr::Ident(crate::text::string_of(w), span)
}

fn call(head: Expr, args: Vec<Expr>, span: Span) -> (r: Expr)
    ensures
        call_at(r, span, args@.len()),
        *r->App_head == head,
        r->App_args@ == args@,
{
    Expr::App { head: Box::new(head), args, span, piped: false }
}

fn lambda2(a: &String, x: &String, body: Expr, span: Span) -> (r: Expr)
    ensures
        lambda2_at(r, a@, x@, span),
        *r->Lambda_body == body,
{
    let params = vec![(a.clone(), span), (x.clone(), span)];
    Expr::Lambda { params, body: Box::new(body), span }
}

fn int_lit(k: u32, span: Span) -> (r: Expr)
    requires
        k <= 1,
    ensures
        int_at(r, k as nat, span),
{
    let digits: Vec<u32> = if k == 0 {
        Vec::new()
    } else {
        vec![k]
    };
    assert(k != 0 ==> digits@ =~= seq![k]);
    Expr::Int(crate::number::Big { negative: false, digits }, span)
}

/// The reducer `red` composed with the adapter `op` and its step.
fn wrap(op: &Vec<char>, red: Expr, step: Expr, c: usize, span: Span) -> (r: Expr)
    requires
        op@ == "map"@ || op@ == "select"@ || op@ == "reject"@,
    ensures
        wrapped(op@, red, step, r, c as nat, span),
{
    let a = fresh("facc", c);
    let x = fresh("felem", c);
    proof {
        reveal_strlit("facc");
        reveal_strlit("felem");
        assert(a@ =~= acc_name(c as nat));
        assert(x@ =~= elem_name(c as nat));
    }
    if spells(op, "map") {
        let stepped = call(step, vec![ident(&x, span)], span);
        let body = call(red, vec![ident(&a, span), stepped], span);
        lambda2(&a, &x, body, span)
    } else {
        let stepped = call(step, vec![ident(&x, span)], span);
        let kept = call(red, vec![ident(&a, span), ident(&x, span)], span);
        let args = if spells(op, "select") {
            vec![stepped, kept, ident(&a, span)]
        } else {
            vec![stepped, ident(&a, span), kept]
        };
        let body = call(word("if", span), args, span);
        lambda2(&a, &x, body, span)
    }
}

/// What the consumer `s` folds from, and its reducer, over the names of `c`.
fn start_for(s: &Vec<char>, args: Vec<Expr>, span: Span, c: usize, names: &FuseNames) -> (r: (Expr, Expr, Expr))
    requires
        consumer_known(s@, args@.len(), *names),
    ensures
        consumer_start(s@, args@, span, c as nat, *names, r.1, r.2),
        r.0 == args@[0],
{
    let ghost all = args@;
    proof {
        lemma_words();
    }
    let a = fresh("facc", c);
    let x = fresh("felem", c);
    proof {
        reveal_strlit("facc");
        reveal_strlit("felem");
        assert(a@ =~= acc_name(c as nat));
        assert(x@ =~= elem_name(c as nat));
    }
    let mut args = args;
    if spells(s, "fold") {
        let red = args.pop().unwrap();
        let init = args.pop().unwrap();
        let src = args.pop().unwrap();
        return (src, init, red);
    }
    if spells(s, "tally") {
        let src = args.pop().unwrap();
        let bump = match &names.bump {
            Some(b) => b,
            None => {
                proof {
                    assert(false);
                }
                return (src, Expr::MapLit(Vec::new(), span), Expr::MapLit(Vec::new(), span));
            },
        };
        let seen = Expr::Index { base: Box::new(ident(&a, span)), index: Box::new(ident(&x, span)), strict: false, span };
        let bumped = call(ident(bump, span), vec![seen], span);
        let body = call(word("put", span), vec![ident(&a, span), ident(&x, span), bumped], span);
        return (src, Expr::MapLit(Vec::new(), span), lambda2(&a, &x, body, span));
    }
    if spells(s, "group_by") {
        let key = args.pop().unwrap();
        let src = args.pop().unwrap();
        let file_under = match &names.file_under {
            Some(f) => f,
            None => {
                proof {
                    assert(false);
                }
                return (src, Expr::MapLit(Vec::new(), span), Expr::MapLit(Vec::new(), span));
            },
        };
        let keyed = call(key, vec![ident(&x, span)], span);
        let body = call(ident(file_under, span), vec![ident(&a, span), keyed, ident(&x, span)], span);
        return (src, Expr::MapLit(Vec::new(), span), lambda2(&a, &x, body, span));
    }
    if spells(s, "sum") {
        let src = args.pop().unwrap();
        let body = Expr::BinOp {
            op: crate::lexer::Op::Plus,
            lhs: Box::new(ident(&a, span)),
            rhs: Box::new(ident(&x, span)),
            span,
        };
        return (src, int_lit(0, span), lambda2(&a, &x, body, span));
    }
    if spells(s, "to_list") {
        let src = args.pop().unwrap();
        let body = call(word("push", span), vec![ident(&a, span), ident(&x, span)], span);
        return (src, Expr::List(Vec::new(), span), lambda2(&a, &x, body, span));
    }
    let pred = args.pop().unwrap();
    let src = args.pop().unwrap();
    let test = call(pred, vec![ident(&x, span)], span);
    let more = Expr::BinOp { op: crate::lexer::Op::Plus, lhs: Box::new(ident(&a, span)), rhs: Box::new(int_lit(1, span)), span };
    let body = call(word("if", span), vec![test, more, ident(&a, span)], span);
    (src, int_lit(0, span), lambda2(&a, &x, body, span))
}

/// A consumer applied to a chain of adapters, as one `fold` over the chain's
/// root with the steps composed into the reducer; `Err` hands `e` back
/// where there is nothing to fuse. The counter moves as `try_cost` says.
fn try_fuse(e: Expr, names: &FuseNames, fns: Ghost<Seq<FnDecl>>, counter: usize) -> (r: (Result<Expr, Expr>, usize))
    requires
        names_match(*names, fns@),
    ensures
        fuses(e, *names, fns@, counter as nat, r.0),
        r.1 == after_try(e, *names, fns@, counter as nat),
{
    proof {
        lemma_words();
    }
    let consumer = match consumer_name(&e, names, fns) {
        Some(s) => s,
        None => {
            return (Err(e), counter);
        },
    };
    let n = match &e {
        Expr::App { args, .. } => args.len(),
        _ => 0,
    };
    if !known_consumer(&consumer, n, names) {
        if counter == usize::MAX {
            return (Err(e), counter);
        }
        return (Err(e), counter + 1);
    }
    let (k, stop) = match &e {
        Expr::App { args, .. } => chain_shape(&args[0], names, fns),
        _ => (0, false),
    };
    if k == usize::MAX {
        return (Err(e), counter);
    }
    let m: usize = if stop {
        k + 1
    } else {
        k
    };
    if m == usize::MAX || counter > usize::MAX - m - 1 {
        return (Err(e), counter);
    }
    if k == 0 {
        return (Err(e), counter + m + 1);
    }
    let ghost g = e;
    let (args, span) = match e {
        Expr::App { args, span, .. } => (args, span),
        _ => {
            proof {
                assert(false);
            }
            (Vec::new(), crate::diag::Span::at(0, 0))
        },
    };
    let c1 = counter + 1;
    let (src0, init, red0) = start_for(&consumer, args, span, c1, names);
    let ghost src_start = src0;
    let ghost red_start = red0;
    let mut source = src0;
    let mut red = red0;
    let mut c = c1;
    let mut left = k;
    while left > 0
        invariant
            names_match(*names, fns@),
            chain_len(source, fns@) == left,
            chain_stop(source, fns@) == stop,
            c + left == c1 + k,
            c + left + (if stop { 1nat } else { 0nat }) <= usize::MAX,
            forall|root: Expr, out: Expr| #[trigger] chain_folds(source, red, c as nat, span, fns@, root, out)
                ==> chain_folds(src_start, red_start, c1 as nat, span, fns@, root, out),
        decreases left,
    {
        let op = match consumer_name(&source, names, fns) {
            Some(op) => op,
            None => {
                proof {
                    assert(false);
                }
                Vec::new()
            },
        };
        let ghost here = source;
        let ghost red_here = red;
        let ghost cp = c as nat;
        assert(fusable(here, fns@));
        let ghost hargs = here->App_args@;
        let mut parts = match source {
            Expr::App { args, .. } => args,
            _ => {
                proof {
                    assert(false);
                }
                Vec::new()
            },
        };
        assert(parts@ == hargs);
        let step = parts.pop().unwrap();
        let inner = parts.pop().unwrap();
        assert(step == hargs[1] && inner == hargs[0]);
        c = c + 1;
        red = wrap(&op, red, step, c, span);
        source = inner;
        left = left - 1;
        proof {
            assert forall|root: Expr, out: Expr| #[trigger] chain_folds(source, red, c as nat, span, fns@, root, out)
                implies chain_folds(src_start, red_start, c1 as nat, span, fns@, root, out) by {
                assert(wrapped(consumer_of(here, fns@)->0, red_here, here->App_args@[1], red, cp + 1, span));
                assert(chain_folds(here, red_here, cp, span, fns@, root, out));
            }
        }
    }
    assert(chain_folds(source, red, c as nat, span, fns@, source, red));
    assert(chain_folds(src_start, red_start, c1 as nat, span, fns@, source, red));
    assert(consumer_start(consumer_of(g, fns@)->0, g->App_args@, span, c1 as nat, *names, init, red_start));
    let last = if stop {
        c + 1
    } else {
        c
    };
    let fused = Expr::App {
        head: Box::new(Expr::Ident(names.fold.clone(), span)),
        args: vec![source, init, red],
        span,
        piped: false,
    };
    assert(fold_call(Ok::<Expr, Expr>(fused), *names, span, source, init, red));
    proof {
        assert(src_start == g->App_args@[0]);
        assert(span == g->App_span);
        assert(fusable(g->App_args@[0], fns@));
        assert(counter + try_cost(g, *names, fns@) <= usize::MAX);
        assert(consumer_start(consumer_of(g, fns@)->0, g->App_args@, g->App_span, (counter + 1) as nat, *names, init, red_start)
            && chain_folds(g->App_args@[0], red_start, (counter + 1) as nat, g->App_span, fns@, source, red)
            && fold_call(Ok::<Expr, Expr>(fused), *names, g->App_span, source, init, red));
    }
    (Ok(fused), last)
}

/// Whether `e` is a piped stage of a chain: a piped call of an enumerable
/// name with at least one argument, the first being what flows in.
pub open spec fn is_stage(e: Expr, fns: Seq<FnDecl>) -> bool {
    match e {
        Expr::App { head, args, piped, .. } => piped && args@.len() > 0 && match *head {
            Expr::Ident(n, _) => enumerable(fns, n@) is Some,
            _ => false,
        },
        _ => false,
    }
}

/// How many piped stages lead `e`.
pub open spec fn stage_count(e: Expr, fns: Seq<FnDecl>) -> nat
    decreases size(e),
    via stage_count_decreases
{
    if is_stage(e, fns) {
        1 + stage_count(e->App_args@[0], fns)
    } else {
        0
    }
}

#[via_fn]
proof fn stage_count_decreases(e: Expr, fns: Seq<FnDecl>) {
    crate::ast::lemma_parts_smaller(e);
}

/// What flows into the `i`th stage.
pub open spec fn stage_at(e: Expr, i: nat) -> Expr
    decreases i,
{
    if i == 0 {
        e
    } else {
        stage_at(e->App_args@[0], (i - 1) as nat)
    }
}

/// `x` is the first `n` stages of `e` again, piped or not as `piped` says,
/// flowing from the name `tmp` written at `span`: each stage's name and
/// span kept, its other arguments copies of the stage's (`copied`) or the
/// stage's own.
pub open spec fn rechained(x: Expr, e: Expr, n: nat, tmp: Seq<char>, span: Span, piped: bool, copied: bool) -> bool
    decreases n,
{
    if n == 0 {
        ident_at(x, tmp, span)
    } else {
        &&& x matches Expr::App { head, args, span: s, piped: p }
        &&& e matches Expr::App { head: h, args: a, span: t, .. }
        &&& x->App_span == e->App_span && x->App_piped == piped
        &&& ident_at(*x->App_head, e->App_head->Ident_0@, e->App_span)
        &&& x->App_args@.len() == e->App_args@.len()
        &&& rechained(x->App_args@[0], e->App_args@[0], (n - 1) as nat, tmp, span, piped, copied)
        &&& forall|i: int| 1 <= i < e->App_args@.len() ==> if copied {
            twin(#[trigger] e->App_args@[i], x->App_args@[i])
        } else {
            x->App_args@[i] == #[trigger] e->App_args@[i]
        }
    }
}

/// The fused form of a piped chain: bind the subject once, and if it is not
/// a description run the fold the nested spelling fused into, else the
/// original pipes.
pub open spec fn piped_form(out: Expr, e: Expr, n: nat, tmp: Seq<char>, fused: Expr) -> bool {
    let span = e->App_span;
    &&& out matches Expr::Block(ss, s) && s == span && ss@.len() == 2
    &&& out->Block_0@[0] matches Stmt::Bind { pattern, expr } && expr == stage_at(e, n)
    &&& out->Block_0@[0]->Bind_pattern matches Pattern::Var(v, sp) && v@ == tmp && sp == span
    &&& out->Block_0@[1] matches Stmt::Expr(picked)
    &&& {
        let picked = out->Block_0@[1]->Expr_0;
        &&& call_at(picked, span, 3) && ident_at(*picked->App_head, "if"@, span)
        &&& {
            let test = picked->App_args@[0];
            call_at(test, span, 1) && ident_at(*test->App_head, "is_desc"@, span) && ident_at(test->App_args@[0], tmp, span)
        }
        &&& rechained(picked->App_args@[1], e, n, tmp, span, true, false)
        &&& picked->App_args@[2] == fused
    }
}

/// A fusion attempt at the piped chain `e` with the counter at `c0`, which
/// leaves it at `c1`: a chain of fewer than two stages is left alone; else
/// the subject's name takes the next count, and the nested spelling of the
/// chain is fused as `fuses` says, the pipes kept beside the fold.
pub open spec fn fuses_piped(e: Expr, names: FuseNames, fns: Seq<FnDecl>, c0: nat, out: Result<Expr, Expr>, c1: nat) -> bool {
    let n = stage_count(e, fns);
    if n < 2 || n >= usize::MAX || c0 >= usize::MAX {
        out == Err::<Expr, Expr>(e) && c1 == c0
    } else {
        let c = c0 + 1nat;
        let tmp = root_name(c);
        exists|nested: Expr, attempt: Result<Expr, Expr>|
            #![trigger fuses(nested, names, fns, c, attempt)]
            rechained(nested, e, n, tmp, e->App_span, false, true) && fuses(nested, names, fns, c, attempt)
                && c1 == after_try(nested, names, fns, c)
                && match attempt {
                Ok(fused) => out is Ok && piped_form(out->Ok_0, e, n, tmp, fused),
                Err(_) => out == Err::<Expr, Expr>(e),
            }
    }
}

fn stage_name(e: &Expr, names: &FuseNames, fns: Ghost<Seq<FnDecl>>) -> (r: bool)
    requires
        names_match(*names, fns@),
    ensures
        r == is_stage(*e, fns@),
{
    match e {
        Expr::App { head, args, piped, .. } => {
            if !*piped || args.len() == 0 {
                return false;
            }
            match &**head {
                Expr::Ident(n, _) => {
                    assert(table_enumerable(*names, n@) == enumerable(fns@, n@));
                    enumerable_short(names, n.as_str())
                },
                _ => false,
            }
        },
        _ => false,
    }
}

fn count_stages(e: &Expr, names: &FuseNames, fns: Ghost<Seq<FnDecl>>) -> (r: usize)
    requires
        names_match(*names, fns@),
    ensures
        r < usize::MAX ==> r == stage_count(*e, fns@),
        r == usize::MAX ==> stage_count(*e, fns@) >= usize::MAX,
    decreases size(*e),
{
    if !stage_name(e, names, fns) {
        return 0;
    }
    proof {
        crate::ast::lemma_parts_smaller(*e);
    }
    match e {
        Expr::App { args, .. } => {
            let k = count_stages(&args[0], names, fns);
            if k == usize::MAX {
                usize::MAX
            } else {
                k + 1
            }
        },
        _ => 0,
    }
}

/// The first `n` stages of `e` again, unpiped, flowing from `tmp`, with
/// copies of their other arguments.
fn nested_copy(e: &Expr, n: usize, tmp: &String, span: Span, fns: Ghost<Seq<FnDecl>>) -> (r: Expr)
    requires
        n <= stage_count(*e, fns@),
    ensures
        rechained(r, *e, n as nat, tmp@, span, false, true),
    decreases n,
{
    if n == 0 {
        return Expr::Ident(tmp.clone(), span);
    }
    match e {
        Expr::App { head, args, span: sspan, .. } => {
            let name = match &**head {
                Expr::Ident(x, _) => x.clone(),
                _ => {
                    proof {
                        assert(false);
                    }
                    String::new()
                },
            };
            let inner = nested_copy(&args[0], n - 1, tmp, span, fns);
            let mut all: Vec<Expr> = vec![inner];
            let mut i: usize = 1;
            while i < args.len()
                invariant
                    1 <= i <= args@.len(),
                    all@.len() == i,
                    rechained(all@[0], args@[0], (n - 1) as nat, tmp@, span, false, true),
                    forall|j: int| 1 <= j < i ==> twin(#[trigger] args@[j], all@[j]),
                decreases args@.len() - i,
            {
                all.push(copy_expr(&args[i]));
                i += 1;
            }
            Expr::App { head: Box::new(Expr::Ident(name, *sspan)), args: all, span: *sspan, piped: false }
        },
        _ => {
            proof {
                assert(false);
            }
            Expr::Ident(tmp.clone(), span)
        },
    }
}

/// The first `n` stages of `e` again, still piped, flowing from `tmp`, with
/// their own other arguments; and what flowed into the `n`th.
fn rechain_moved(e: Expr, n: usize, tmp: &String, span: Span, fns: Ghost<Seq<FnDecl>>) -> (r: (Expr, Expr))
    requires
        n <= stage_count(e, fns@),
    ensures
        rechained(r.0, e, n as nat, tmp@, span, true, false),
        r.1 == stage_at(e, n as nat),
    decreases n,
{
    if n == 0 {
        return (Expr::Ident(tmp.clone(), span), e);
    }
    let ghost g = e;
    match e {
        Expr::App { head, args, span: sspan, .. } => {
            let name = match &*head {
                Expr::Ident(x, _) => x.clone(),
                _ => {
                    proof {
                        assert(false);
                    }
                    String::new()
                },
            };
            let ghost orig = args@;
            let mut rest = super::canon::reversed(args);
            let first = rest.pop().unwrap();
            assert(first == orig[0]);
            let (inner, root) = rechain_moved(first, n - 1, tmp, span, fns);
            let mut all: Vec<Expr> = vec![inner];
            while rest.len() > 0
                invariant
                    rest@.len() + all@.len() == orig.len(),
                    all@.len() >= 1,
                    forall|q: int| 0 <= q < rest@.len() ==> rest@[q] == orig[orig.len() - 1 - q],
                    rechained(all@[0], orig[0], (n - 1) as nat, tmp@, span, true, false),
                    forall|j: int| 1 <= j < all@.len() ==> all@[j] == #[trigger] orig[j],
                decreases rest@.len(),
            {
                let x = rest.pop().unwrap();
                assert(x == orig[all@.len() as int]);
                all.push(x);
            }
            let r = Expr::App { head: Box::new(Expr::Ident(name, sspan)), args: all, span: sspan, piped: true };
            assert(stage_at(g, n as nat) == stage_at(orig[0], (n - 1) as nat));
            (r, root)
        },
        _ => {
            proof {
                assert(false);
            }
            (Expr::Ident(tmp.clone(), span), e)
        },
    }
}

proof fn lemma_piped_unfused(
    e: Expr,
    names: FuseNames,
    fns: Seq<FnDecl>,
    c0: nat,
    nested: Expr,
    x: Expr,
    c1: nat,
)
    requires
        2 <= stage_count(e, fns) < usize::MAX,
        c0 < usize::MAX,
        rechained(nested, e, stage_count(e, fns), root_name(c0 + 1nat), e->App_span, false, true),
        fuses(nested, names, fns, c0 + 1nat, Err::<Expr, Expr>(x)),
        c1 == after_try(nested, names, fns, c0 + 1nat),
    ensures
        fuses_piped(e, names, fns, c0, Err::<Expr, Expr>(e), c1),
{
    let attempt = Err::<Expr, Expr>(x);
    assert(match attempt {
        Ok(fused) => false,
        Err(_) => Err::<Expr, Expr>(e) == Err::<Expr, Expr>(e),
    });
}

proof fn lemma_piped_fused(
    e: Expr,
    names: FuseNames,
    fns: Seq<FnDecl>,
    c0: nat,
    nested: Expr,
    fused: Expr,
    out: Expr,
    c1: nat,
)
    requires
        2 <= stage_count(e, fns) < usize::MAX,
        c0 < usize::MAX,
        rechained(nested, e, stage_count(e, fns), root_name(c0 + 1nat), e->App_span, false, true),
        fuses(nested, names, fns, c0 + 1nat, Ok::<Expr, Expr>(fused)),
        c1 == after_try(nested, names, fns, c0 + 1nat),
        piped_form(out, e, stage_count(e, fns), root_name(c0 + 1nat), fused),
    ensures
        fuses_piped(e, names, fns, c0, Ok::<Expr, Expr>(out), c1),
{
}

/// The pipe spelling of a chain fuses too, one runtime branch late: a piped
/// chain's subject may be a description, which no rewrite may touch, so the
/// subject is bound once and tested, a description taking the original
/// pipes and anything else the fold of the nested spelling.
fn try_fuse_piped(e: Expr, names: &FuseNames, fns: Ghost<Seq<FnDecl>>, counter: usize) -> (r: (Result<Expr, Expr>, usize))
    requires
        names_match(*names, fns@),
    ensures
        fuses_piped(e, *names, fns@, counter as nat, r.0, r.1 as nat),
{
    let m = count_stages(&e, names, fns);
    if m < 2 || m == usize::MAX || counter == usize::MAX {
        return (Err(e), counter);
    }
    let c = counter + 1;
    let tmp = fresh("froot", c);
    proof {
        reveal_strlit("froot");
        assert(tmp@ =~= root_name(c as nat));
    }
    let span = match &e {
        Expr::App { span, .. } => *span,
        _ => crate::diag::Span::at(0, 0),
    };
    let nested = nested_copy(&e, m, &tmp, span, fns);
    let ghost nested_g = nested;
    let (attempt, after) = try_fuse(nested, names, fns, c);
    match attempt {
        Err(x) => {
            proof {
                lemma_piped_unfused(e, *names, fns@, counter as nat, nested_g, x, after as nat);
            }
            (Err(e), after)
        },
        Ok(fused) => {
            let ghost g = e;
            assert(fuses(nested_g, *names, fns@, c as nat, Ok::<Expr, Expr>(fused)));
            let (original, root) = rechain_moved(e, m, &tmp, span, fns);
            let test = Expr::App {
                head: Box::new(Expr::Ident(crate::text::string_of("is_desc"), span)),
                args: vec![Expr::Ident(tmp.clone(), span)],
                span,
                piped: false,
            };
            let picked = Expr::App {
                head: Box::new(Expr::Ident(crate::text::string_of("if"), span)),
                args: vec![test, original, fused],
                span,
                piped: false,
            };
            let block = Expr::Block(
                vec![Stmt::Bind { pattern: Pattern::Var(tmp, span), expr: root }, Stmt::Expr(picked)],
                span,
            );
            assert(piped_form(block, g, m as nat, root_name(c as nat), fused));
            assert(rechained(nested_g, g, stage_count(g, fns@), root_name(c as nat), g->App_span, false, true));
            proof {
                lemma_piped_fused(g, *names, fns@, counter as nat, nested_g, fused, block, after as nat);
            }
            (Ok(block), after)
        },
    }
}

} // verus!


verus! {

/// One fusion attempt at `mid` with the counter at `c`: the fold of the
/// nested spelling where there is one, else what the piped spelling gives,
/// else `mid` itself; the counter ends at `c1`.
pub open spec fn fuse_step(mid: Expr, names: FuseNames, fns: Seq<FnDecl>, c: nat, r: Expr, c1: nat) -> bool {
    exists|a: Result<Expr, Expr>|
        #![trigger fuses(mid, names, fns, c, a)]
        fuses(mid, names, fns, c, a) && match a {
            Ok(x) => r == x && c1 == after_try(mid, names, fns, c),
            Err(_) => exists|p: Result<Expr, Expr>|
                #![trigger fuses_piped(mid, names, fns, after_try(mid, names, fns, c), p, c1)]
                fuses_piped(mid, names, fns, after_try(mid, names, fns, c), p, c1) && r == match p {
                    Ok(y) => y,
                    Err(_) => mid,
                },
        }
}

/// How fusion went over one expression: the node it tried at, its direct
/// sub-expressions already fused; the counter before each of them and after
/// the last; and how it went over each of them.
pub struct FuseTrace {
    pub mid: Expr,
    pub counts: Seq<nat>,
    pub kids: Seq<FuseTrace>,
}

/// `e` with fusion run over it bottom up as `t` records, the counter going
/// from `c0` to `c1`: its direct sub-expressions first, in order, and then
/// the node itself. What follows an early return is left as written.
pub open spec fn fused_by(e: Expr, names: FuseNames, fns: Seq<FnDecl>, c0: nat, r: Expr, c1: nat, t: FuseTrace) -> bool
    decreases size(e), 1nat, 0nat,
{
    &&& t.counts.len() > 0 && t.counts[0] == c0
    &&& if e is Guard {
        t.mid == e && t.counts.len() == 1
    } else {
        &&& same_shape(e, t.mid) && children(t.mid).len() == children(e).len()
        &&& t.counts.len() == children(e).len() + 1 && t.kids.len() == children(e).len()
        &&& kids_fused_by(e, names, fns, children(t.mid), t.counts, t.kids, children(e).len())
    }
    &&& fuse_step(t.mid, names, fns, t.counts.last(), r, c1)
}

/// The first `n` direct sub-expressions of `e` fused into `outs`, the `i`th
/// with the counter going from `counts[i]` to `counts[i + 1]` as `kids[i]`
/// records.
pub open spec fn kids_fused_by(
    e: Expr,
    names: FuseNames,
    fns: Seq<FnDecl>,
    outs: Seq<Expr>,
    counts: Seq<nat>,
    kids: Seq<FuseTrace>,
    n: nat,
) -> bool
    decreases size(e), 0nat, n,
    via kids_fused_by_decreases
{
    if n == 0 || n > children(e).len() {
        n == 0
    } else {
        kids_fused_by(e, names, fns, outs, counts, kids, (n - 1) as nat) && fused_by(
            children(e)[n - 1],
            names,
            fns,
            counts[n - 1],
            outs[n - 1],
            counts[n as int],
            kids[n - 1],
        )
    }
}

#[via_fn]
proof fn kids_fused_by_decreases(
    e: Expr,
    names: FuseNames,
    fns: Seq<FnDecl>,
    outs: Seq<Expr>,
    counts: Seq<nat>,
    kids: Seq<FuseTrace>,
    n: nat,
) {
    lemma_children_smaller(e);
}

/// What fusion did to the first `n` sub-expressions reads only the first `n`
/// entries of each record.
proof fn lemma_kids_prefix(
    e: Expr,
    names: FuseNames,
    fns: Seq<FnDecl>,
    outs: Seq<Expr>,
    counts: Seq<nat>,
    kids: Seq<FuseTrace>,
    outs2: Seq<Expr>,
    counts2: Seq<nat>,
    kids2: Seq<FuseTrace>,
    n: nat,
)
    requires
        kids_fused_by(e, names, fns, outs, counts, kids, n),
        n <= outs.len() && n <= outs2.len() && n < counts.len() && n < counts2.len() && n <= kids.len() && n <= kids2.len(),
        forall|i: int| 0 <= i < n ==> outs[i] == outs2[i] && kids[i] == kids2[i],
        forall|i: int| 0 <= i <= n ==> counts[i] == counts2[i],
    ensures
        kids_fused_by(e, names, fns, outs2, counts2, kids2, n),
    decreases n,
{
    if n > 0 {
        lemma_kids_prefix(e, names, fns, outs, counts, kids, outs2, counts2, kids2, (n - 1) as nat);
    }
}

proof fn lemma_piped_step(
    mid: Expr,
    names: FuseNames,
    fns: Seq<FnDecl>,
    c: nat,
    ca: nat,
    p: Result<Expr, Expr>,
    c1: nat,
    r: Expr,
)
    requires
        fuses(mid, names, fns, c, Err::<Expr, Expr>(mid)),
        ca == after_try(mid, names, fns, c),
        fuses_piped(mid, names, fns, ca, p, c1),
        r == match p {
            Ok(y) => y,
            Err(z) => z,
        },
    ensures
        fuse_step(mid, names, fns, c, r, c1),
{
    if p is Err {
        assert(p == Err::<Expr, Expr>(mid));
    }
}

fn is_guard(e: &Expr) -> (r: bool)
    ensures
        r == (*e is Guard),
{
    match e {
        Expr::Guard { .. } => true,
        _ => false,
    }
}

/// Fusion run over `e` bottom up, as the trace handed back records.
fn fuse_expr(e: Expr, names: &FuseNames, fns: Ghost<Seq<FnDecl>>, counter: usize) -> (r: (Expr, usize, Ghost<FuseTrace>))
    requires
        names_match(*names, fns@),
    ensures
        fused_by(e, *names, fns@, counter as nat, r.0, r.1 as nat, r.2@),
    decreases size(e),
{
    let ghost g = e;
    let ghost mut counts: Seq<nat> = seq![counter as nat];
    let ghost mut traces: Seq<FuseTrace> = Seq::empty();
    let (mid, c) = if is_guard(&e) {
        (e, counter)
    } else {
        let n = for_each_child(&e).len();
        let mut holes: Vec<Expr> = Vec::new();
        while holes.len() < n
            invariant
                holes@.len() <= n,
            decreases n - holes@.len(),
        {
            holes.push(Expr::Ident(String::new(), Span::at(0, 0)));
        }
        let (shell, kids) = crate::ast::swap_children(e, holes);
        let mut kids = kids;
        let mut outs: Vec<Expr> = Vec::new();
        let mut c = counter;
        proof {
            lemma_children_smaller(g);
        }
        while kids.len() > 0
            invariant
                names_match(*names, fns@),
                g == e,
                n == children(g).len(),
                outs@.len() + kids@.len() == n,
                kids@ == children(g).subrange(outs@.len() as int, n as int),
                counts.len() == outs@.len() + 1,
                traces.len() == outs@.len(),
                counts[0] == counter as nat,
                counts.last() == c as nat,
                kids_fused_by(g, *names, fns@, outs@, counts, traces, outs@.len()),
                forall|i: int| 0 <= i < children(g).len() ==> size(#[trigger] children(g)[i]) < size(g),
            decreases kids@.len(),
        {
            let k = kids.remove(0);
            assert(k == children(g)[outs@.len() as int]);
            let (x, c2, t) = fuse_expr(k, names, fns, c);
            let ghost before = outs@;
            let ghost counts0 = counts;
            let ghost traces0 = traces;
            proof {
                counts = counts.push(c2 as nat);
                traces = traces.push(t@);
            }
            outs.push(x);
            proof {
                lemma_kids_prefix(g, *names, fns@, before, counts0, traces0, outs@, counts, traces, before.len());
            }
            c = c2;
        }
        let (mid, _) = crate::ast::swap_children(shell, outs);
        assert(same_shape(g, mid));
        assert(kids_fused_by(g, *names, fns@, children(mid), counts, traces, children(g).len()));
        (mid, c)
    };
    let ghost m = mid;
    let (attempt, ca) = try_fuse(mid, names, fns, c);
    let out = match attempt {
        Ok(x) => {
            assert(fuse_step(m, *names, fns@, c as nat, x, ca as nat));
            (x, ca)
        },
        Err(back) => {
            assert(back == m);
            let (p, c1) = try_fuse_piped(back, names, fns, ca);
            let ghost pg = p;
            let out = match p {
                Ok(y) => y,
                Err(z) => z,
            };
            proof {
                lemma_piped_step(m, *names, fns@, c as nat, ca as nat, pg, c1 as nat, out);
            }
            (out, c1)
        },
    };
    let ghost t = FuseTrace { mid: m, counts, kids: traces };
    assert(t.counts == counts && t.kids == traces && t.mid == m);
    assert(fused_by(g, *names, fns@, counter as nat, out.0, out.1 as nat, t));
    (out.0, out.1, Ghost(t))
}

} // verus!

verus! {

/// Whether the program declares something named `n`.
pub open spec fn declared(fns: Seq<FnDecl>, n: Seq<char>) -> bool {
    exists|i: int| 0 <= i < fns.len() && (#[trigger] fns[i]).name@ == n
}

/// Whether `n` is one of the names `t`.
pub open spec fn listed(t: Seq<String>, n: Seq<char>) -> bool {
    exists|q: int| 0 <= q < t.len() && (#[trigger] t[q])@ == n
}

/// Whether `d` is a `fold` of std/list written in the source.
pub open spec fn fold_decl(d: FnDecl) -> bool {
    in_std_list(d) && !d.synthetic && short_of(d.name@) == "fold"@
}

/// Whether `d` is a helper of std/list written in the source whose last
/// part is `w`.
pub open spec fn helper_decl(d: FnDecl, w: Seq<char>) -> bool {
    in_std_list(d) && !d.synthetic && short_of(d.name@) == w
}

/// Whether the program declares a `fold` of std/list.
pub open spec fn has_fold(fns: Seq<FnDecl>) -> bool {
    exists|j: int| 0 <= j < fns.len() && fold_decl(#[trigger] fns[j])
}

/// Whether `s` spells the first `fold` of std/list the program declares.
pub open spec fn first_fold(fns: Seq<FnDecl>, s: Seq<char>) -> bool {
    exists|j: int|
        0 <= j < fns.len() && fold_decl(#[trigger] fns[j]) && fns[j].name@ == s && forall|k: int|
            0 <= k < j ==> !fold_decl(#[trigger] fns[k])
}

/// Whether `o` spells the last helper `w` of std/list the program declares,
/// or is `None` where it declares none.
pub open spec fn last_helper(fns: Seq<FnDecl>, w: Seq<char>, o: Option<String>) -> bool {
    match o {
        None => forall|j: int| 0 <= j < fns.len() ==> !helper_decl(#[trigger] fns[j], w),
        Some(s) => exists|j: int|
            0 <= j < fns.len() && helper_decl(#[trigger] fns[j], w) && fns[j].name@ == s@ && forall|k: int|
                j < k < fns.len() ==> !helper_decl(#[trigger] fns[k], w),
    }
}

/// The names fusion reads, as the program `fns` gives them.
pub open spec fn names_of(names: FuseNames, fns: Seq<FnDecl>) -> bool {
    &&& names_match(names, fns)
    &&& first_fold(fns, names.fold@)
    &&& last_helper(fns, "bump"@, names.bump)
    &&& last_helper(fns, "file_under"@, names.file_under)
}

pub(crate) fn in_list_file(d: &FnDecl) -> (r: bool)
    ensures
        r == in_std_list(*d),
{
    proof {
        reveal_strlit("std/list");
    }
    let file = crate::text::chars_of(d.file.as_str());
    let list = crate::text::chars_of("std/list");
    let r = crate::text::prefix_at(file.as_slice(), 0, list.as_slice());
    assert(file@.subrange(0, file@.len() as int) =~= file@);
    r
}

fn in_std(d: &FnDecl) -> (r: bool)
    ensures
        r == has_prefix(d.file@, "std/"@),
{
    proof {
        reveal_strlit("std/");
    }
    let file = crate::text::chars_of(d.file.as_str());
    let std = crate::text::chars_of("std/");
    let r = crate::text::prefix_at(file.as_slice(), 0, std.as_slice());
    assert(file@.subrange(0, file@.len() as int) =~= file@);
    r
}

fn std_short(fns: &Vec<FnDecl>, s: &Vec<char>) -> (r: bool)
    ensures
        r == std_list_short(fns@, s@),
{
    let mut k: usize = 0;
    while k < fns.len()
        invariant
            k <= fns@.len(),
            forall|j: int| 0 <= j < k ==> !(in_std_list(#[trigger] fns@[j]) && short_of(fns@[j].name@) == s@),
        decreases fns@.len() - k,
    {
        if in_list_file(&fns[k]) {
            let sh = short_name(fns[k].name.as_str());
            if crate::text::same_chars(sh.as_slice(), s.as_slice()) {
                return true;
            }
        }
        k += 1;
    }
    false
}

fn helper_named(d: &FnDecl, w: &str) -> (r: bool)
    ensures
        r == helper_decl(*d, w@),
{
    if !in_list_file(d) || d.synthetic {
        return false;
    }
    let sh = short_name(d.name.as_str());
    let wc = crate::text::chars_of(w);
    crate::text::same_chars(sh.as_slice(), wc.as_slice())
}

fn last_helper_in(fns: &Vec<FnDecl>, w: &str) -> (r: Option<String>)
    ensures
        last_helper(fns@, w@, r),
{
    let mut found: Option<String> = None;
    let mut k: usize = 0;
    while k < fns.len()
        invariant
            k <= fns@.len(),
            match found {
                None => forall|j: int| 0 <= j < k ==> !helper_decl(#[trigger] fns@[j], w@),
                Some(s) => exists|j: int|
                    0 <= j < k && helper_decl(#[trigger] fns@[j], w@) && fns@[j].name@ == s@ && forall|q: int|
                        j < q < k ==> !helper_decl(#[trigger] fns@[q], w@),
            },
        decreases fns@.len() - k,
    {
        if helper_named(&fns[k], w) {
            found = Some(fns[k].name.clone());
            assert(helper_decl(fns@[k as int], w@));
        }
        k += 1;
    }
    found
}

fn first_fold_in(fns: &Vec<FnDecl>) -> (r: Option<String>)
    ensures
        match r {
            None => !has_fold(fns@),
            Some(s) => first_fold(fns@, s@),
        },
{
    proof {
        reveal_strlit("fold");
    }
    let mut k: usize = 0;
    while k < fns.len()
        invariant
            k <= fns@.len(),
            forall|j: int| 0 <= j < k ==> !fold_decl(#[trigger] fns@[j]),
        decreases fns@.len() - k,
    {
        if helper_named(&fns[k], "fold") {
            assert(fold_decl(fns@[k as int]));
            return Some(fns[k].name.clone());
        }
        k += 1;
    }
    None
}

/// The names fusion reads from the program `fns`: `None` where it declares
/// no `fold` of std/list, and fusion has nothing to name.
pub fn fuse_names(fns: &Vec<FnDecl>) -> (r: Option<FuseNames>)
    ensures
        match r {
            None => !has_fold(fns@),
            Some(names) => names_of(names, fns@),
        },
{
    proof {
        reveal_strlit("fold");
    }
    let fold = match first_fold_in(fns) {
        None => {
            return None;
        },
        Some(s) => s,
    };
    let mut table: Vec<String> = Vec::new();
    let mut j: usize = 0;
    while j < fns.len()
        invariant
            j <= fns@.len(),
            forall|q: int|
                0 <= q < table@.len() ==> declared(fns@, #[trigger] table@[q]@) && std_list_short(
                    fns@,
                    short_of(table@[q]@),
                ),
            forall|i: int|
                0 <= i < j && std_list_short(fns@, short_of((#[trigger] fns@[i]).name@)) ==> listed(
                    table@,
                    fns@[i].name@,
                ),
        decreases fns@.len() - j,
    {
        let ghost before = table@;
        let sh = short_name(fns[j].name.as_str());
        if std_short(fns, &sh) {
            table.push(fns[j].name.clone());
            proof {
                assert(table@[table@.len() - 1]@ == fns@[j as int].name@);
                assert(declared(fns@, fns@[j as int].name@));
                assert forall|q: int| 0 <= q < before.len() implies table@[q] == before[q] by {}
                assert forall|n: Seq<char>| listed(before, n) implies listed(table@, n) by {
                    let q = choose|q: int| 0 <= q < before.len() && (#[trigger] before[q])@ == n;
                    assert(table@[q] == before[q]);
                }
                assert(listed(table@, fns@[j as int].name@));
            }
        }
        j += 1;
    }
    let names = FuseNames {
        enumerable: table,
        fold,
        bump: last_helper_in(fns, "bump"),
        file_under: last_helper_in(fns, "file_under"),
    };
    let ghost t = table@;
    assert(names.enumerable@ == t);
    assert forall|n: Seq<char>| #[trigger] table_enumerable(names, n) == enumerable(fns@, n) by {
        assert((table_enumerable(names, n) is Some) == listed(t, n));
        assert((enumerable(fns@, n) is Some) == (declared(fns@, n) && std_list_short(fns@, short_of(n))));
        if listed(t, n) {
            let q = choose|q: int| 0 <= q < t.len() && (#[trigger] t[q])@ == n;
            assert(declared(fns@, t[q]@));
        }
        if declared(fns@, n) && std_list_short(fns@, short_of(n)) {
            let i = choose|i: int| 0 <= i < fns@.len() && (#[trigger] fns@[i]).name@ == n;
            assert(listed(t, fns@[i].name@));
        }
    }
    Some(names)
}

} // verus!

verus! {

/// The statements `a` fused into `b` one after another, the counter going
/// from `counts[i]` to `counts[i + 1]` over the `i`th as `ts[i]` records.
pub open spec fn stmts_fused_by(
    a: Seq<Stmt>,
    b: Seq<Stmt>,
    names: FuseNames,
    fns: Seq<FnDecl>,
    counts: Seq<nat>,
    ts: Seq<FuseTrace>,
) -> bool {
    &&& a.len() == b.len() && counts.len() == a.len() + 1 && ts.len() == a.len()
    &&& forall|i: int| 0 <= i < a.len() ==> #[trigger] same_stmt_shape(a[i], b[i])
    &&& forall|i: int|
        #![trigger ts[i]]
        0 <= i < a.len() ==> fused_by(
            stmt_expr(a[i]),
            names,
            fns,
            counts[i],
            stmt_expr(b[i]),
            counts[i + 1],
            ts[i],
        )
}

/// What fusion makes of the declaration `d`, the counter going from `c0` to
/// `c1`: a declaration of std is kept as it is; any other keeps all but its
/// body, whose adapter bindings are inlined and whose statements are then
/// fused in turn.
pub open spec fn decl_fused(d: FnDecl, e: FnDecl, names: FuseNames, fns: Seq<FnDecl>, c0: nat, c1: nat) -> bool {
    &&& e.name == d.name && e.is_pub == d.is_pub && e.span == d.span && e.params == d.params
    &&& e.file == d.file && e.synthetic == d.synthetic
    &&& if has_prefix(d.file@, "std/"@) {
        e.body == d.body && c1 == c0
    } else {
        exists|mid: Seq<Stmt>, counts: Seq<nat>, ts: Seq<FuseTrace>|
            #![trigger stmts_fused_by(mid, e.body@, names, fns, counts, ts)]
            inlined(d.body@, mid, fns) && stmts_fused_by(mid, e.body@, names, fns, counts, ts) && counts[0] == c0
                && counts.last() == c1
    }
}

/// The declarations `a` fused into `b` in order, the counter going from
/// `counts[i]` to `counts[i + 1]` over the `i`th.
pub open spec fn decls_fused(a: Seq<FnDecl>, b: Seq<FnDecl>, names: FuseNames, fns: Seq<FnDecl>, counts: Seq<nat>) -> bool {
    &&& a.len() == b.len() && counts.len() == a.len() + 1
    &&& forall|i: int| 0 <= i < a.len() ==> #[trigger] decl_fused(a[i], b[i], names, fns, counts[i], counts[i + 1])
}

proof fn lemma_stmts_push(
    a: Seq<Stmt>,
    b: Seq<Stmt>,
    names: FuseNames,
    fns: Seq<FnDecl>,
    counts: Seq<nat>,
    ts: Seq<FuseTrace>,
    s: Stmt,
    s2: Stmt,
    c2: nat,
    t: FuseTrace,
)
    requires
        stmts_fused_by(a, b, names, fns, counts, ts),
        same_stmt_shape(s, s2),
        fused_by(stmt_expr(s), names, fns, counts.last(), stmt_expr(s2), c2, t),
    ensures
        stmts_fused_by(a.push(s), b.push(s2), names, fns, counts.push(c2), ts.push(t)),
{
    let a2 = a.push(s);
    let b2 = b.push(s2);
    let cs = counts.push(c2);
    let ts2 = ts.push(t);
    assert forall|i: int| 0 <= i < a2.len() implies #[trigger] same_stmt_shape(a2[i], b2[i]) by {
        if i < a.len() {
            assert(a2[i] == a[i] && b2[i] == b[i]);
        }
    }
    assert forall|i: int|
        #![trigger ts2[i]]
        0 <= i < a2.len() implies fused_by(
            stmt_expr(a2[i]),
            names,
            fns,
            cs[i],
            stmt_expr(b2[i]),
            cs[i + 1],
            ts2[i],
        ) by {
        if i < a.len() {
            assert(a2[i] == a[i] && b2[i] == b[i] && cs[i] == counts[i] && cs[i + 1] == counts[i + 1] && ts2[i] == ts[i]);
        } else {
            assert(cs[i] == counts.last());
        }
    }
    assert(a2.len() == b2.len() && cs.len() == a2.len() + 1 && ts2.len() == a2.len());
    assert(stmts_fused_by(a2, b2, names, fns, cs, ts2));
}

fn fuse_body(body: Vec<Stmt>, names: &FuseNames, fns: Ghost<Seq<FnDecl>>, counter: usize) -> (r: (
    Vec<Stmt>,
    usize,
    Ghost<Seq<nat>>,
    Ghost<Seq<FuseTrace>>,
))
    requires
        names_match(*names, fns@),
    ensures
        stmts_fused_by(body@, r.0@, *names, fns@, r.2@, r.3@),
        r.2@[0] == counter as nat,
        r.2@.last() == r.1 as nat,
{
    let ghost orig = body@;
    let mut rest = body;
    let mut out: Vec<Stmt> = Vec::new();
    let mut c = counter;
    let ghost mut counts: Seq<nat> = seq![counter as nat];
    let ghost mut ts: Seq<FuseTrace> = Seq::empty();
    while rest.len() > 0
        invariant
            names_match(*names, fns@),
            out@.len() + rest@.len() == orig.len(),
            rest@ == orig.subrange(out@.len() as int, orig.len() as int),
            stmts_fused_by(orig.subrange(0, out@.len() as int), out@, *names, fns@, counts, ts),
            counts[0] == counter as nat,
            counts.last() == c as nat,
        decreases rest@.len(),
    {
        let ghost k = out@.len() as int;
        let s = rest.remove(0);
        assert(s == orig[k]);
        let (shell, x) = crate::ast::swap_stmt(s, Expr::Ident(String::new(), Span::at(0, 0)));
        let ghost x_g = x;
        let (y, c2, t) = fuse_expr(x, names, fns, c);
        let ghost y_g = y;
        let (s2, _) = crate::ast::swap_stmt(shell, y);
        let ghost before = out@;
        let ghost counts0 = counts;
        let ghost ts0 = ts;
        out.push(s2);
        proof {
            lemma_stmts_push(orig.subrange(0, k), before, *names, fns@, counts0, ts0, s, s2, c2 as nat, t@);
            assert(orig.subrange(0, k + 1) =~= orig.subrange(0, k).push(s));
            counts = counts.push(c2 as nat);
            ts = ts.push(t@);
        }
        c = c2;
    }
    assert(orig.subrange(0, orig.len() as int) =~= orig);
    (out, c, Ghost(counts), Ghost(ts))
}

fn fuse_decl(d: FnDecl, names: &FuseNames, fns: Ghost<Seq<FnDecl>>, counter: usize) -> (r: (FnDecl, usize))
    requires
        names_match(*names, fns@),
    ensures
        decl_fused(d, r.0, *names, fns@, counter as nat, r.1 as nat),
{
    if in_std(&d) {
        return (d, counter);
    }
    let ghost g = d;
    let FnDecl { name, is_pub, span, params, body, file, synthetic } = d;
    let mid = inline_single_use_chains(body, names, fns);
    let ghost mid_g = mid@;
    let (done, c, counts, ts) = fuse_body(mid, names, fns, counter);
    let e = FnDecl { name, is_pub, span, params, body: done, file, synthetic };
    assert(stmts_fused_by(mid_g, e.body@, *names, fns@, counts@, ts@));
    (e, c)
}

/// Enumerable fusion over a whole program: a consumer applied to a chain
/// of adapters becomes one `fold` over the chain's root, in every
/// declaration outside std, the adapter bindings used once as a chain's
/// collection inlined first. A program without std/list's `fold` is left as
/// it is. The counter that numbers the fresh names runs on from one
/// declaration to the next.
pub fn fuse_enumerable(program: &mut Program)
    ensures
        final(program).types == old(program).types,
        !has_fold(old(program).fns@) ==> final(program).fns == old(program).fns,
        has_fold(old(program).fns@) ==> exists|names: FuseNames, counts: Seq<nat>|
            #![trigger decls_fused(old(program).fns@, final(program).fns@, names, old(program).fns@, counts)]
            names_of(names, old(program).fns@) && counts[0] == 0 && decls_fused(
                old(program).fns@,
                final(program).fns@,
                names,
                old(program).fns@,
                counts,
            ),
{
    let names = match fuse_names(&program.fns) {
        None => {
            return;
        },
        Some(n) => n,
    };
    let ghost fns = program.fns@;
    let mut rest: Vec<FnDecl> = Vec::new();
    std::mem::swap(&mut rest, &mut program.fns);
    let mut out: Vec<FnDecl> = Vec::new();
    let mut c: usize = 0;
    let ghost mut counts: Seq<nat> = seq![0nat];
    while rest.len() > 0
        invariant
            names_of(names, fns),
            out@.len() + rest@.len() == fns.len(),
            rest@ == fns.subrange(out@.len() as int, fns.len() as int),
            decls_fused(fns.subrange(0, out@.len() as int), out@, names, fns, counts),
            counts[0] == 0,
            counts.last() == c as nat,
        decreases rest@.len(),
    {
        let ghost k = out@.len() as int;
        let d = rest.remove(0);
        assert(d == fns[k]);
        let (e, c2) = fuse_decl(d, &names, Ghost(fns), c);
        let ghost before = out@;
        let ghost counts0 = counts;
        out.push(e);
        proof {
            counts = counts.push(c2 as nat);
            let a = fns.subrange(0, k + 1);
            assert forall|i: int| 0 <= i < a.len() implies #[trigger] decl_fused(
                a[i],
                out@[i],
                names,
                fns,
                counts[i],
                counts[i + 1],
            ) by {
                if i < k {
                    assert(a[i] == fns.subrange(0, k)[i]);
                    assert(out@[i] == before[i]);
                    assert(counts[i] == counts0[i] && counts[i + 1] == counts0[i + 1]);
                }
            }
        }
        c = c2;
    }
    assert(fns.subrange(0, fns.len() as int) =~= fns);
    program.fns = out;
    assert(decls_fused(fns, program.fns@, names, fns, counts));
}

} // verus!
