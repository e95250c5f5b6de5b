//! Field reads become getter calls, and getters that nothing reads go.

use vstd::prelude::*;
use crate::ast::{
    children, for_each_child, getter_name, getter_of, is_getter_name, lemma_children_smaller, map_children,
    map_stmts, refs, same_shape, same_stmts_shape, size, stmt_expr, stmt_expr_of, stmt_exprs, Expr, FnDecl, Program,
};
use crate::text::after_last_slash;

verus! {

/// Whether `b` is the call `.name b'` written at `span`: a read of field
/// `name`, made a call of its getter.
pub open spec fn is_read_call(b: Expr, name: Seq<char>, span: crate::diag::Span) -> bool {
    &&& b matches Expr::App { head, args, span: s, piped } && s == span && !piped && args@.len() == 1
    &&& *b->head matches Expr::Ident(n, t) && n@ == getter_of(name) && t == span
}

/// `b` is `a` with every field read `x.name` inside it, innermost first,
/// written as the getter call `.name x`.
pub open spec fn reads_desugared(a: Expr, b: Expr) -> bool
    decreases size(a), 1nat, 0nat,
    via reads_desugared_decreases
{
    match a {
        Expr::Field { base, name, span } => is_read_call(b, name@, span) && reads_desugared(*base, b->args@[0]),
        _ => same_shape(a, b) && children(b).len() == children(a).len() && reads_among(a, b, children(a).len()),
    }
}

/// The first `n` direct sub-expressions of `b` are those of `a`, desugared.
pub open spec fn reads_among(a: Expr, b: Expr, n: nat) -> bool
    decreases size(a), 0nat, n,
    via reads_among_decreases
{
    if n == 0 {
        true
    } else if n > children(a).len() || n > children(b).len() {
        false
    } else {
        reads_among(a, b, (n - 1) as nat) && reads_desugared(children(a)[n - 1], children(b)[n - 1])
    }
}

#[via_fn]
proof fn reads_desugared_decreases(a: Expr, b: Expr) {
    lemma_children_smaller(a);
    match a {
        Expr::Field { .. } => {
            assert(children(a)[0] == *a->Field_base);
        },
        _ => {},
    }
}

#[via_fn]
proof fn reads_among_decreases(a: Expr, b: Expr, n: nat) {
    lemma_children_smaller(a);
}

proof fn lemma_reads_among(a: Expr, b: Expr, n: nat)
    requires
        n <= children(a).len() == children(b).len(),
        forall|i: int| 0 <= i < children(a).len() ==> reads_desugared(#[trigger] children(a)[i], children(b)[i]),
    ensures
        reads_among(a, b, n),
    decreases n,
{
    if n > 0 {
        lemma_reads_among(a, b, (n - 1) as nat);
    }
}

/// Not within `n` nodes.
pub open spec fn below(c: Expr, n: nat) -> bool {
    size(c) < n
}

fn desugar_reads(e: Expr) -> (r: Expr)
    ensures
        reads_desugared(e, r),
    decreases size(e),
{
    let ghost g = e;
    let ghost bound: nat = size(e);
    proof {
        lemma_children_smaller(e);
    }
    let inner = |c: Expr| -> (d: Expr)
        requires
            below(c, bound),
        ensures
            reads_desugared(c, d),
        { desugar_reads(c) };
    let m = map_children(e, inner);
    proof {
        assert forall|i: int| 0 <= i < children(g).len() implies reads_desugared(#[trigger] children(g)[i], children(m)[i]) by {}
    }
    match m {
        Expr::Field { base, name, span } => {
            proof {
                assert(children(g)[0] == *g->Field_base && children(m)[0] == *base);
            }
            let head = Expr::Ident(getter_name(name.as_str()), span);
            Expr::App { head: Box::new(head), args: vec![*base], span, piped: false }
        },
        other => {
            proof {
                lemma_reads_among(g, other, children(g).len());
            }
            other
        },
    }
}

/// `b` is the declaration `a` with every statement's field reads made
/// getter calls.
pub open spec fn decl_reads(a: FnDecl, b: FnDecl) -> bool {
    &&& a.name == b.name && a.is_pub == b.is_pub && a.span == b.span && a.params == b.params
    &&& a.file == b.file && a.synthetic == b.synthetic
    &&& same_stmts_shape(a.body@, b.body@)
    &&& forall|j: int| 0 <= j < a.body@.len() ==> reads_desugared(#[trigger] stmt_expr(a.body@[j]), stmt_expr(b.body@[j]))
}

/// `b` is the program `a` with every field read made a getter call.
pub open spec fn reads_done(a: Program, b: Program) -> bool {
    &&& b.types == a.types && b.fns@.len() == a.fns@.len()
    &&& forall|i: int| 0 <= i < a.fns@.len() ==> #[trigger] decl_reads(a.fns@[i], b.fns@[i])
}

/// `x.name` is the getter applied, so every field read becomes a call of
/// the getter for that field, innermost first. Inequality is settled first
/// (see `desugar_inequality`), for it has to see the same merged program.
pub fn desugar_field_reads(program: &mut Program)
    ensures
        exists|mid: Program| #[trigger] super::inequality_desugared(*old(program), mid) && reads_done(mid, *final(program)),
{
    super::desugar_inequality(program);
    let ghost mid = *program;
    let mut fns: Vec<FnDecl> = Vec::new();
    std::mem::swap(&mut fns, &mut program.fns);
    let ghost orig = fns@;
    let mut back: Vec<FnDecl> = Vec::new();
    while fns.len() > 0
        invariant
            fns@.len() + back@.len() == orig.len(),
            fns@ == orig.subrange(0, fns@.len() as int),
            forall|i: int| 0 <= i < back@.len() ==> back@[i] == orig[orig.len() - 1 - i],
        decreases fns@.len(),
    {
        let d = fns.pop().unwrap();
        back.push(d);
        assert(fns@ =~= orig.subrange(0, fns@.len() as int));
    }
    let mut out: Vec<FnDecl> = Vec::new();
    while back.len() > 0
        invariant
            back@.len() + out@.len() == orig.len(),
            forall|i: int| 0 <= i < back@.len() ==> back@[i] == orig[orig.len() - 1 - i],
            forall|i: int| 0 <= i < out@.len() ==> decl_reads(#[trigger] orig[i], out@[i]),
        decreases back@.len(),
    {
        let d = back.pop().unwrap();
        assert(d == orig[out@.len() as int]);
        let FnDecl { name, is_pub, span, params, body, file, synthetic } = d;
        let ghost old_body = body@;
        let read_each = |c: Expr| -> (r: Expr)
            ensures
                reads_desugared(c, r),
            { desugar_reads(c) };
        let new_body = map_stmts(body, &read_each);
        let nd = FnDecl { name, is_pub, span, params, body: new_body, file, synthetic };
        proof {
            assert forall|j: int| 0 <= j < old_body.len() implies reads_desugared(#[trigger] stmt_expr(old_body[j]), stmt_expr(nd.body@[j])) by {
                assert(stmt_exprs(old_body)[j] == stmt_expr(old_body[j]));
                assert(stmt_exprs(nd.body@)[j] == stmt_expr(nd.body@[j]));
            }
        }
        out.push(nd);
    }
    program.fns = out;
    assert(reads_done(mid, *program));
}

/// Whether `e` is a name that reaches `n`: `n` itself, or a qualified name
/// whose last part is `n`.
pub open spec fn is_mention(e: Expr, n: Seq<char>) -> bool {
    match e {
        Expr::Ident(name, _) => name@ == n || after_last_slash(name@) == Some(n),
        Expr::Partial(name, _) => name@ == n || after_last_slash(name@) == Some(n),
        _ => false,
    }
}

/// Whether `e` mentions `n` anywhere inside it.
pub open spec fn mentions(e: Expr, n: Seq<char>) -> bool
    decreases size(e), 1nat, 0nat,
{
    is_mention(e, n) || mentions_among(e, n, children(e).len())
}

/// Whether one of the first `k` direct sub-expressions of `e` mentions `n`.
pub open spec fn mentions_among(e: Expr, n: Seq<char>, k: nat) -> bool
    decreases size(e), 0nat, k,
    via mentions_among_decreases
{
    if k == 0 || k > children(e).len() {
        false
    } else {
        mentions_among(e, n, (k - 1) as nat) || mentions(children(e)[k - 1], n)
    }
}

#[via_fn]
proof fn mentions_among_decreases(e: Expr, n: Seq<char>, k: nat) {
    lemma_children_smaller(e);
}

proof fn lemma_mentions_among(e: Expr, n: Seq<char>, k: nat, m: nat)
    requires
        k <= m <= children(e).len(),
        mentions_among(e, n, k),
    ensures
        mentions_among(e, n, m),
    decreases m - k,
{
    if k < m {
        lemma_mentions_among(e, n, k, (m - 1) as nat);
    }
}

/// Whether some statement of `d` mentions `n`.
pub open spec fn decl_mentions(d: FnDecl, n: Seq<char>) -> bool {
    exists|k: int| 0 <= k < d.body@.len() && #[trigger] mentions(stmt_expr(d.body@[k]), n)
}

/// Whether an arm of `fns` that is not a getter mentions `n`.
pub open spec fn read_somewhere(fns: Seq<FnDecl>, n: Seq<char>) -> bool {
    exists|j: int| 0 <= j < fns.len() && !is_getter_name(fns[j].name@) && #[trigger] decl_mentions(fns[j], n)
}

/// Whether `d` stays: it is no getter, or something that is not a getter
/// names it.
pub open spec fn keeps(fns: Seq<FnDecl>, d: FnDecl) -> bool {
    !is_getter_name(d.name@) || read_somewhere(fns, d.name@)
}

/// The arms of `upto` that `fns` keeps, in order.
pub open spec fn kept(fns: Seq<FnDecl>, upto: Seq<FnDecl>) -> Seq<FnDecl>
    decreases upto.len(),
{
    if upto.len() == 0 {
        Seq::empty()
    } else if keeps(fns, upto.last()) {
        kept(fns, upto.drop_last()).push(upto.last())
    } else {
        kept(fns, upto.drop_last())
    }
}

/// Whether `d` is an element of `s`.
pub open spec fn among(s: Seq<FnDecl>, d: FnDecl) -> bool {
    exists|i: int| 0 <= i < s.len() && s[i] == d
}

proof fn lemma_kept_members(fns: Seq<FnDecl>, upto: Seq<FnDecl>)
    ensures
        forall|i: int| 0 <= i < kept(fns, upto).len() ==> among(upto, #[trigger] kept(fns, upto)[i]) && keeps(fns, kept(fns, upto)[i]),
        forall|j: int| 0 <= j < upto.len() && keeps(fns, #[trigger] upto[j]) ==> among(kept(fns, upto), upto[j]),
    decreases upto.len(),
{
    if upto.len() > 0 {
        let pre = upto.drop_last();
        lemma_kept_members(fns, pre);
        let k0 = kept(fns, pre);
        let k1 = kept(fns, upto);
        assert forall|i: int| 0 <= i < k1.len() implies among(upto, #[trigger] k1[i]) && keeps(fns, k1[i]) by {
            if i < k0.len() {
                assert(k1[i] == k0[i]);
                assert(among(pre, k0[i]));
                let j = choose|j: int| 0 <= j < pre.len() && pre[j] == k0[i];
                assert(upto[j] == pre[j]);
            } else {
                assert(k1[i] == upto[upto.len() - 1]);
            }
        }
        assert forall|j: int| 0 <= j < upto.len() && keeps(fns, #[trigger] upto[j]) implies among(k1, upto[j]) by {
            if j < pre.len() {
                assert(upto[j] == pre[j]);
                assert(among(k0, pre[j]));
                let i = choose|i: int| 0 <= i < k0.len() && k0[i] == pre[j];
                assert(k1[i] == k0[i]);
            } else {
                assert(k1[k0.len() as int] == upto.last());
            }
        }
    }
}

proof fn lemma_kept_all(fns: Seq<FnDecl>, upto: Seq<FnDecl>)
    requires
        forall|j: int| 0 <= j < upto.len() ==> keeps(fns, #[trigger] upto[j]),
    ensures
        kept(fns, upto) == upto,
    decreases upto.len(),
{
    if upto.len() > 0 {
        lemma_kept_all(fns, upto.drop_last());
        assert(keeps(fns, upto[upto.len() - 1]));
        assert(upto.drop_last().push(upto.last()) =~= upto);
    }
}

/// Pruning twice prunes nothing more: what the first pass keeps, the
/// second keeps whole.
pub proof fn law_prune_settles(fns: Seq<FnDecl>)
    ensures
        kept(kept(fns, fns), kept(fns, fns)) == kept(fns, fns),
{
    let k = kept(fns, fns);
    lemma_kept_members(fns, fns);
    assert forall|n: Seq<char>| #[trigger] read_somewhere(k, n) == read_somewhere(fns, n) by {
        if read_somewhere(k, n) {
            let j = choose|j: int| 0 <= j < k.len() && !is_getter_name(k[j].name@) && #[trigger] decl_mentions(k[j], n);
            assert(among(fns, k[j]));
            let q = choose|q: int| 0 <= q < fns.len() && fns[q] == k[j];
            assert(decl_mentions(fns[q], n));
        }
        if read_somewhere(fns, n) {
            let j = choose|j: int| 0 <= j < fns.len() && !is_getter_name(fns[j].name@) && #[trigger] decl_mentions(fns[j], n);
            assert(keeps(fns, fns[j]));
            assert(among(k, fns[j]));
            let i = choose|i: int| 0 <= i < k.len() && k[i] == fns[j];
            assert(decl_mentions(k[i], n));
        }
    }
    assert forall|j: int| 0 <= j < k.len() implies keeps(k, #[trigger] k[j]) by {
        assert(keeps(fns, k[j]));
        if is_getter_name(k[j].name@) {
            assert(read_somewhere(fns, k[j].name@));
            assert(read_somewhere(k, k[j].name@));
        }
    }
    lemma_kept_all(k, k);
}

fn name_reaches(name: &String, n: &str) -> (r: bool)
    ensures
        r == (name@ == n@ || after_last_slash(name@) == Some(n@)),
{
    if crate::text::same_text(name.as_str(), n) {
        return true;
    }
    let cs = crate::text::chars_of(name.as_str());
    match crate::text::find_last_char(cs.as_slice(), '/') {
        None => false,
        Some(i) => {
            let len = cs.len();
            assert(i < len);
            let short = crate::text::slice_vec(cs.as_slice(), i + 1, len);
            let ns = crate::text::chars_of(n);
            crate::text::same_chars(short.as_slice(), ns.as_slice())
        },
    }
}

fn mentions_name(e: &Expr, n: &str) -> (r: bool)
    ensures
        r == mentions(*e, n@),
    decreases size(*e),
{
    match e {
        Expr::Ident(name, _) => {
            if name_reaches(name, n) {
                return true;
            }
        },
        Expr::Partial(name, _) => {
            if name_reaches(name, n) {
                return true;
            }
        },
        _ => {},
    }
    assert(!is_mention(*e, n@));
    let kids = for_each_child(e);
    proof {
        lemma_children_smaller(*e);
    }
    let mut i: usize = 0;
    while i < kids.len()
        invariant
            i <= kids@.len(),
            refs(kids@) == children(*e),
            !is_mention(*e, n@),
            forall|j: int| 0 <= j < children(*e).len() ==> size(#[trigger] children(*e)[j]) < size(*e),
            !mentions_among(*e, n@, i as nat),
        decreases kids@.len() - i,
    {
        assert(refs(kids@)[i as int] == *kids@[i as int]);
        assert(size(children(*e)[i as int]) < size(*e));
        if mentions_name(kids[i], n) {
            assert(mentions_among(*e, n@, (i + 1) as nat));
            proof {
                lemma_mentions_among(*e, n@, (i + 1) as nat, children(*e).len());
            }
            return true;
        }
        i += 1;
    }
    false
}

/// Whether an arm of `fns` that is not a getter names `n`.
fn named_outside_getters(fns: &Vec<FnDecl>, n: &str) -> (r: bool)
    ensures
        r == read_somewhere(fns@, n@),
{
    let mut j: usize = 0;
    while j < fns.len()
        invariant
            j <= fns@.len(),
            forall|q: int| 0 <= q < j ==> !(!is_getter_name(fns@[q].name@) && #[trigger] decl_mentions(fns@[q], n@)),
        decreases fns@.len() - j,
    {
        let d = &fns[j];
        if !d.is_getter() {
            let mut k: usize = 0;
            while k < d.body.len()
                invariant
                    k <= d.body@.len(),
                    j < fns@.len(),
                    fns@[j as int] == *d,
                    !is_getter_name(d.name@),
                    forall|q: int| 0 <= q < k ==> !#[trigger] mentions(stmt_expr(d.body@[q]), n@),
                decreases d.body@.len() - k,
            {
                if mentions_name(stmt_expr_of(&d.body[k]), n) {
                    assert(decl_mentions(*d, n@));
                    assert(fns@[j as int] == *d);
                    return true;
                }
                k += 1;
            }
            assert(!decl_mentions(*d, n@));
        }
        assert(fns@[j as int] == *d);
        j += 1;
    }
    false
}

/// Every field has a getter so that its name resolves wherever it is read,
/// but a program that never reads a field does not keep its accessor: a
/// getter stays only where an arm that is not itself a getter names it,
/// bare or as the last part of a qualified name. Nothing can call a function
/// whose name the program does not mention, so dropping the rest changes
/// nothing a program can see.
pub fn prune_unused_getters(program: &mut Program)
    ensures
        final(program).types == old(program).types,
        final(program).fns@ == kept(old(program).fns@, old(program).fns@),
{
    let ghost all = program.fns@;
    let mut keep: Vec<bool> = Vec::new();
    let mut i: usize = 0;
    while i < program.fns.len()
        invariant
            i <= program.fns@.len(),
            program.fns@ == all,
            keep@.len() == i,
            forall|q: int| 0 <= q < i ==> keep@[q] == #[trigger] keeps(all, all[q]),
        decreases program.fns@.len() - i,
    {
        let d = &program.fns[i];
        let stays = !d.is_getter() || named_outside_getters(&program.fns, d.name.as_str());
        keep.push(stays);
        i += 1;
    }
    assert(all.len() <= usize::MAX);
    let mut fns: Vec<FnDecl> = Vec::new();
    std::mem::swap(&mut fns, &mut program.fns);
    let mut back: Vec<FnDecl> = Vec::new();
    while fns.len() > 0
        invariant
            fns@.len() + back@.len() == all.len(),
            fns@ == all.subrange(0, fns@.len() as int),
            forall|q: int| 0 <= q < back@.len() ==> back@[q] == all[all.len() - 1 - q],
        decreases fns@.len(),
    {
        let d = fns.pop().unwrap();
        back.push(d);
        assert(fns@ =~= all.subrange(0, fns@.len() as int));
    }
    let mut out: Vec<FnDecl> = Vec::new();
    let mut at: usize = 0;
    while back.len() > 0
        invariant
            all.len() <= usize::MAX,
            back@.len() + at == all.len(),
            keep@.len() == all.len(),
            forall|q: int| 0 <= q < all.len() ==> keep@[q] == #[trigger] keeps(all, all[q]),
            forall|q: int| 0 <= q < back@.len() ==> back@[q] == all[all.len() - 1 - q],
            out@ == kept(all, all.subrange(0, at as int)),
        decreases back@.len(),
    {
        let d = back.pop().unwrap();
        assert(d == all[at as int]);
        assert(all.subrange(0, at + 1).drop_last() =~= all.subrange(0, at as int));
        assert(all.subrange(0, at + 1).last() == all[at as int]);
        if keep[at] {
            out.push(d);
        }
        at += 1;
    }
    assert(all.subrange(0, all.len() as int) =~= all);
    program.fns = out;
}

} // verus!
