//! Inlining the wrappers that hide a builtin behind a name.
//!
//! `pub fn append acc x` whose whole body is `builtin_append acc x` is a
//! rename, not a function. Left alone it compiles to a real call, and every
//! analysis downstream sees a user function where the program meant a
//! primitive: the uniqueness analysis in particular, which decides whether an
//! append can extend its accumulator in place, cannot decide that inside the
//! wrapper, where the accumulator is a parameter a caller one frame away owns.
//!
//! So the rename is undone before anything looks: a call to such a wrapper
//! becomes the call it stands for, at the site that made it.

use vstd::prelude::*;
use vstd::set_lib::lemma_len_subset;
use crate::ast::{
    children, lemma_children_smaller, map_children, map_stmts, same_part_shape, same_shape, same_stmt_shape,
    same_stmts_shape, size, stmt_expr,
    stmt_exprs, Expr, FnDecl, Pattern, Program, Stmt,
};
use crate::text::has_prefix;

verus! {

/// Builtins that can produce an err, and so carry the origin of the site that
/// called them. A wrapper round one stays: inlining it would move the site the
/// err says it was born at.
pub open spec fn births_err(t: Seq<char>) -> bool {
    t == "builtin_to_int"@ || t == "builtin_to_float"@ || t == "builtin_utf8"@ || t == "builtin_from_code"@
}

/// An arm's group: its name and how many parameters it takes.
pub open spec fn key_of(d: FnDecl) -> (Seq<char>, nat) {
    (d.name@, d.params@.len())
}

/// How many arms of `fns` the group `k` has.
pub open spec fn group_size(fns: Seq<FnDecl>, k: (Seq<char>, nat)) -> nat
    decreases fns.len(),
{
    if fns.len() == 0 {
        0
    } else {
        group_size(fns.drop_last(), k) + if key_of(fns.last()) == k { 1nat } else { 0nat }
    }
}

/// The parameter is a plain name and the argument passes that very name.
pub open spec fn passes_through(p: Pattern, a: Expr) -> bool {
    &&& p matches Pattern::Var(n, _)
    &&& a matches Expr::Ident(m, _)
    &&& p->Var_0@ == a->Ident_0@
}

/// Each parameter is passed on, as itself, in its own place.
pub open spec fn threads(params: Seq<Pattern>, args: Seq<Expr>) -> bool {
    params.len() == args.len() && forall|i: int| 0 <= i < params.len() ==> #[trigger] passes_through(params[i], args[i])
}

/// The call an arm's whole body is, when it is exactly one unpiped call of a
/// name: the name and the arguments.
pub open spec fn sole_call(d: FnDecl) -> Option<(Seq<char>, Seq<Expr>)> {
    if d.body@.len() == 1 {
        match d.body@[0] {
            Stmt::Expr(Expr::App { head, args, piped, .. }) => if piped {
                None
            } else {
                match *head {
                    Expr::Ident(c, _) => Some((c@, args@)),
                    _ => None,
                }
            },
            _ => None,
        }
    } else {
        None
    }
}

/// What a call of `callee` with `arity` arguments stands for, given the
/// renames already `known`: a builtin stands for itself; a known rename
/// stands for its builtin when it is its group's only arm (a second arm makes
/// the group a dispatch, and the value could take the other door).
pub open spec fn resolve(fns: Seq<FnDecl>, known: Map<(Seq<char>, nat), Seq<char>>, callee: Seq<char>, arity: nat) -> Option<Seq<char>> {
    if has_prefix(callee, "builtin_"@) {
        Some(callee)
    } else if known.contains_key((callee, arity)) && group_size(fns, (callee, arity)) == 1 {
        Some(known[(callee, arity)])
    } else {
        None
    }
}

/// The builtin the arm `d` is a rename of, given `known`: its body is one call
/// that resolves to a builtin that births no err, passing the arm's own
/// parameters in their own order and nothing else.
pub open spec fn forwards(fns: Seq<FnDecl>, known: Map<(Seq<char>, nat), Seq<char>>, d: FnDecl) -> Option<Seq<char>> {
    match sole_call(d) {
        Some((callee, args)) => match resolve(fns, known, callee, args.len()) {
            Some(t) => if args.len() == d.params@.len() && !births_err(t) && threads(d.params@, args) {
                Some(t)
            } else {
                None
            },
            None => None,
        },
        None => None,
    }
}

/// The renames the arms from `i` on make, given `known`: for each group, what
/// its last arm that is a rename stands for.
pub open spec fn renames_from(fns: Seq<FnDecl>, known: Map<(Seq<char>, nat), Seq<char>>, i: nat) -> Map<(Seq<char>, nat), Seq<char>>
    decreases fns.len() - i,
{
    if i >= fns.len() {
        Map::empty()
    } else {
        let later = renames_from(fns, known, i + 1);
        match forwards(fns, known, fns[i as int]) {
            Some(t) => if later.contains_key(key_of(fns[i as int])) {
                later
            } else {
                later.insert(key_of(fns[i as int]), t)
            },
            None => later,
        }
    }
}

/// One round: the renames of the whole program, given `known`.
pub open spec fn round(fns: Seq<FnDecl>, known: Map<(Seq<char>, nat), Seq<char>>) -> Map<(Seq<char>, nat), Seq<char>> {
    renames_from(fns, known, 0)
}

/// The renames after `n + 1` rounds, the first from nothing known.
pub open spec fn after_rounds(fns: Seq<FnDecl>, n: nat) -> Map<(Seq<char>, nat), Seq<char>>
    decreases n,
{
    if n == 0 {
        round(fns, Map::empty())
    } else {
        round(fns, after_rounds(fns, (n - 1) as nat))
    }
}

/// Whether one more round after `n` finds no new group.
pub open spec fn settled_at(fns: Seq<FnDecl>, n: nat) -> bool {
    after_rounds(fns, n + 1).dom().len() == after_rounds(fns, n).dom().len()
}

/// No rename stands for a builtin that births an err.
pub open spec fn clean(m: Map<(Seq<char>, nat), Seq<char>>) -> bool {
    forall|k: (Seq<char>, nat)| m.contains_key(k) ==> !births_err(#[trigger] m[k])
}

proof fn lemma_renames_from(fns: Seq<FnDecl>, known: Map<(Seq<char>, nat), Seq<char>>, i: nat)
    ensures
        clean(renames_from(fns, known, i)),
        renames_from(fns, known, i).dom().finite(),
        renames_from(fns, known, i).dom().len() <= fns.len() - i || i >= fns.len(),
        forall|k: (Seq<char>, nat)| #[trigger] renames_from(fns, known, i).contains_key(k)
            ==> exists|j: int| i <= j < fns.len() && key_of(fns[j]) == k && #[trigger] forwards(fns, known, fns[j]) is Some,
    decreases fns.len() - i,
{
    if i < fns.len() {
        lemma_renames_from(fns, known, i + 1);
        let later = renames_from(fns, known, i + 1);
        if i + 1 >= fns.len() {
            assert(later.dom().len() == 0);
        }
    }
}

/// With more groups known (and none an err's birth), every arm that was a
/// rename still is one.
proof fn lemma_forwards_grows(fns: Seq<FnDecl>, a: Map<(Seq<char>, nat), Seq<char>>, b: Map<(Seq<char>, nat), Seq<char>>, d: FnDecl)
    requires
        a.dom().subset_of(b.dom()),
        clean(b),
        forwards(fns, a, d) is Some,
    ensures
        forwards(fns, b, d) is Some,
{
    let (callee, args) = sole_call(d)->0;
    if !has_prefix(callee, "builtin_"@) {
        assert(b.contains_key((callee, args.len())));
    }
}

proof fn lemma_renames_grow(fns: Seq<FnDecl>, a: Map<(Seq<char>, nat), Seq<char>>, b: Map<(Seq<char>, nat), Seq<char>>, i: nat)
    requires
        a.dom().subset_of(b.dom()),
        clean(b),
    ensures
        renames_from(fns, a, i).dom().subset_of(renames_from(fns, b, i).dom()),
    decreases fns.len() - i,
{
    if i < fns.len() {
        lemma_renames_grow(fns, a, b, i + 1);
        if forwards(fns, a, fns[i as int]) is Some {
            lemma_forwards_grows(fns, a, b, fns[i as int]);
        }
    }
}

/// Each round finds every group the one before it found.
pub proof fn lemma_rounds_grow(fns: Seq<FnDecl>, n: nat)
    ensures
        after_rounds(fns, n).dom().subset_of(after_rounds(fns, n + 1).dom()),
        after_rounds(fns, n).dom().finite(),
        after_rounds(fns, n).dom().len() <= fns.len(),
        clean(after_rounds(fns, n)),
    decreases n,
{
    lemma_renames_from(fns, Map::empty(), 0);
    if n == 0 {
        lemma_renames_from(fns, Map::empty(), 0);
        lemma_renames_from(fns, after_rounds(fns, 0), 0);
        lemma_renames_grow(fns, Map::empty(), after_rounds(fns, 0), 0);
    } else {
        lemma_rounds_grow(fns, (n - 1) as nat);
        lemma_renames_from(fns, after_rounds(fns, (n - 1) as nat), 0);
        lemma_renames_from(fns, after_rounds(fns, n), 0);
        lemma_renames_grow(fns, after_rounds(fns, (n - 1) as nat), after_rounds(fns, n), 0);
    }
}

/// A table of renames as the map it spells: group name and arity to the
/// builtin, a later row deciding over an earlier one.
pub open spec fn table_map(v: Seq<(String, usize, String)>) -> Map<(Seq<char>, nat), Seq<char>>
    decreases v.len(),
{
    if v.len() == 0 {
        Map::empty()
    } else {
        table_map(v.drop_last()).insert((v.last().0@, v.last().1 as nat), v.last().2@)
    }
}

/// No two rows of the table are for one group.
pub open spec fn distinct_keys(v: Seq<(String, usize, String)>) -> bool {
    forall|i: int, j: int| 0 <= i < j < v.len() ==> (#[trigger] v[i].0)@ != (#[trigger] v[j].0)@ || v[i].1 != v[j].1
}

proof fn lemma_table_map(v: Seq<(String, usize, String)>)
    requires
        distinct_keys(v),
    ensures
        table_map(v).dom().finite(),
        table_map(v).dom().len() == v.len(),
        forall|k: (Seq<char>, nat)| #[trigger] table_map(v).contains_key(k)
            <==> exists|j: int| 0 <= j < v.len() && (#[trigger] v[j].0)@ == k.0 && v[j].1 as nat == k.1,
    decreases v.len(),
{
    if v.len() > 0 {
        let w = v.drop_last();
        assert(distinct_keys(w)) by {
            assert forall|i: int, j: int| 0 <= i < j < w.len() implies (#[trigger] w[i].0)@ != (#[trigger] w[j].0)@ || w[i].1 != w[j].1 by {
                assert(w[i] == v[i] && w[j] == v[j]);
            }
        }
        lemma_table_map(w);
        let k = (v.last().0@, v.last().1 as nat);
        if table_map(w).contains_key(k) {
            let j = choose|j: int| 0 <= j < w.len() && (#[trigger] w[j].0)@ == k.0 && w[j].1 as nat == k.1;
            assert(w[j] == v[j]);
            assert(v[j].0@ != v[v.len() - 1].0@ || v[j].1 != v[v.len() - 1].1);
        }
        assert forall|q: (Seq<char>, nat)| #[trigger] table_map(v).contains_key(q)
            <== exists|j: int| 0 <= j < v.len() && (#[trigger] v[j].0)@ == q.0 && v[j].1 as nat == q.1 by {
            if exists|j: int| 0 <= j < v.len() && (#[trigger] v[j].0)@ == q.0 && v[j].1 as nat == q.1 {
                let j = choose|j: int| 0 <= j < v.len() && (#[trigger] v[j].0)@ == q.0 && v[j].1 as nat == q.1;
                if j < v.len() - 1 {
                    assert(w[j] == v[j]);
                }
            }
        }
        assert forall|q: (Seq<char>, nat)| #[trigger] table_map(v).contains_key(q)
            ==> exists|j: int| 0 <= j < v.len() && (#[trigger] v[j].0)@ == q.0 && v[j].1 as nat == q.1 by {
            if table_map(v).contains_key(q) && q != k {
                assert(table_map(w).contains_key(q));
                let j = choose|j: int| 0 <= j < w.len() && (#[trigger] w[j].0)@ == q.0 && w[j].1 as nat == q.1;
                assert(w[j] == v[j]);
            }
            if q == k {
                assert(v[v.len() - 1].0@ == q.0);
            }
        }
    }
}

proof fn lemma_table_map_finite(v: Seq<(String, usize, String)>)
    ensures
        table_map(v).dom().finite(),
        v.len() > 0 ==> table_map(v).dom().len() > 0,
    decreases v.len(),
{
    if v.len() > 0 {
        lemma_table_map_finite(v.drop_last());
        let k = (v.last().0@, v.last().1 as nat);
        assert(table_map(v).dom().contains(k));
    }
}

/// The table's row for `name` at `arity`, if it has one.
fn lookup<'a>(v: &'a Vec<(String, usize, String)>, name: &str, arity: usize) -> (r: Option<&'a String>)
    ensures
        match r {
            Some(t) => table_map(v@).contains_key((name@, arity as nat)) && table_map(v@)[(name@, arity as nat)] == t@,
            None => !table_map(v@).contains_key((name@, arity as nat)),
        },
{
    let mut k = v.len();
    assert(v@.subrange(0, k as int) =~= v@);
    while k > 0
        invariant
            k <= v@.len(),
            table_map(v@).contains_key((name@, arity as nat)) <==> table_map(v@.subrange(0, k as int)).contains_key((name@, arity as nat)),
            table_map(v@).contains_key((name@, arity as nat)) ==> table_map(v@)[(name@, arity as nat)] == table_map(v@.subrange(0, k as int))[(name@, arity as nat)],
        decreases k,
    {
        let ghost pre = v@.subrange(0, k as int);
        assert(pre.drop_last() =~= v@.subrange(0, k - 1));
        if v[k - 1].1 == arity && crate::text::same_text(v[k - 1].0.as_str(), name) {
            return Some(&v[k - 1].2);
        }
        k -= 1;
    }
    None
}

/// How many arms the group `name` at `arity` has.
fn count_group(fns: &Vec<FnDecl>, name: &str, arity: usize) -> (r: usize)
    ensures
        r == group_size(fns@, (name@, arity as nat)),
{
    let mut n: usize = 0;
    let mut i: usize = 0;
    assert(fns@.subrange(0, 0) =~= Seq::<FnDecl>::empty());
    while i < fns.len()
        invariant
            i <= fns@.len(),
            n == group_size(fns@.subrange(0, i as int), (name@, arity as nat)),
            n <= i,
        decreases fns@.len() - i,
    {
        assert(fns@.subrange(0, i + 1).drop_last() =~= fns@.subrange(0, i as int));
        if fns[i].params.len() == arity && crate::text::same_text(fns[i].name.as_str(), name) {
            n += 1;
        }
        i += 1;
    }
    assert(fns@.subrange(0, i as int) =~= fns@);
    n
}

fn is_builtin_name(name: &str) -> (r: bool)
    ensures
        r == has_prefix(name@, "builtin_"@),
{
    let cs = crate::text::chars_of(name);
    let prefix = crate::text::chars_of("builtin_");
    proof {
        reveal_strlit("builtin_");
    }
    if cs.len() < prefix.len() {
        return false;
    }
    let r = crate::text::prefix_at(cs.as_slice(), 0, prefix.as_slice());
    assert(cs@.subrange(0, cs@.len() as int) =~= cs@);
    r
}

fn births_err_name(t: &str) -> (r: bool)
    ensures
        r == births_err(t@),
{
    crate::text::same_text(t, "builtin_to_int") || crate::text::same_text(t, "builtin_to_float")
        || crate::text::same_text(t, "builtin_utf8") || crate::text::same_text(t, "builtin_from_code")
}

fn threads_args(params: &Vec<Pattern>, args: &Vec<Expr>) -> (r: bool)
    ensures
        r == threads(params@, args@),
{
    if params.len() != args.len() {
        return false;
    }
    let mut i: usize = 0;
    while i < params.len()
        invariant
            i <= params@.len() == args@.len(),
            forall|j: int| 0 <= j < i ==> #[trigger] passes_through(params@[j], args@[j]),
        decreases params@.len() - i,
    {
        let ok = match (&params[i], &args[i]) {
            (Pattern::Var(n, _), Expr::Ident(m, _)) => crate::text::same_text(n.as_str(), m.as_str()),
            _ => false,
        };
        if !ok {
            assert(!passes_through(params@[i as int], args@[i as int]));
            return false;
        }
        i += 1;
    }
    true
}

/// The builtin the arm `d` is a rename of, given the renames `known`.
fn forwards_to(fns: &Vec<FnDecl>, known: &Vec<(String, usize, String)>, d: &FnDecl) -> (r: Option<String>)
    ensures
        match r {
            Some(t) => forwards(fns@, table_map(known@), *d) == Some(t@),
            None => forwards(fns@, table_map(known@), *d) is None,
        },
{
    if d.body.len() != 1 {
        return None;
    }
    let (callee, args) = match &d.body[0] {
        Stmt::Expr(Expr::App { head, args, piped, .. }) => {
            if *piped {
                return None;
            }
            match &**head {
                Expr::Ident(c, _) => (c, args),
                _ => {
                    return None;
                },
            }
        },
        _ => {
            return None;
        },
    };
    assert(sole_call(*d) == Some((callee@, args@)));
    let target: String = if is_builtin_name(callee.as_str()) {
        callee.clone()
    } else {
        match lookup(known, callee.as_str(), args.len()) {
            Some(t) => {
                if count_group(fns, callee.as_str(), args.len()) != 1 {
                    return None;
                }
                t.clone()
            },
            None => {
                return None;
            },
        }
    };
    if args.len() != d.params.len() || births_err_name(target.as_str()) || !threads_args(&d.params, args) {
        return None;
    }
    Some(target)
}

/// One round of finding renames, given those already `known`.
fn find_round(fns: &Vec<FnDecl>, known: &Vec<(String, usize, String)>) -> (r: Vec<(String, usize, String)>)
    ensures
        table_map(r@) == round(fns@, table_map(known@)),
        distinct_keys(r@),
{
    let ghost m = table_map(known@);
    let mut out: Vec<(String, usize, String)> = Vec::new();
    let mut i = fns.len();
    while i > 0
        invariant
            i <= fns@.len(),
            m == table_map(known@),
            table_map(out@) == renames_from(fns@, m, i as nat),
            distinct_keys(out@),
        decreases i,
    {
        let d = &fns[i - 1];
        assert(fns@[i - 1] == *d);
        match forwards_to(fns, known, d) {
            Some(t) => {
                proof {
                    lemma_table_map(out@);
                }
                if lookup(&out, d.name.as_str(), d.params.len()).is_none() {
                    let ghost before = out@;
                    out.push((d.name.clone(), d.params.len(), t));
                    assert(out@.drop_last() == before);
                    assert(distinct_keys(out@)) by {
                        assert forall|a: int, b: int| 0 <= a < b < out@.len() implies (#[trigger] out@[a].0)@ != (#[trigger] out@[b].0)@
                            || out@[a].1 != out@[b].1 by {
                            if b == out@.len() - 1 && out@[a].0@ == out@[b].0@ && out@[a].1 == out@[b].1 {
                                assert(before[a] == out@[a]);
                                assert(table_map(before).contains_key((d.name@, d.params@.len())));
                            }
                        }
                    }
                }
            },
            None => {},
        }
        i -= 1;
    }
    out
}

/// Wrapper name and arity, with the builtin it stands for. An arm qualifies
/// when its body is exactly one call of a builtin, passing its own parameters
/// in their own order and nothing else: anything more, and treating it as the
/// builtin would be a decision rather than a rename. A rename of a rename
/// resolves too, through a wrapper that is its group's only arm, so rounds
/// repeat until one finds no new group. A builtin that births an err keeps
/// its wrapper.
pub fn aliases(program: &Program) -> (r: Vec<(String, usize, String)>)
    ensures
        distinct_keys(r@),
        exists|n: nat| #![trigger settled_at(program.fns@, n)]
            settled_at(program.fns@, n) && (forall|m: nat| m < n ==> !settled_at(program.fns@, m))
            && table_map(r@) == after_rounds(program.fns@, n),
{
    let ghost fns = program.fns@;
    let nothing: Vec<(String, usize, String)> = Vec::new();
    assert(table_map(nothing@) == Map::<(Seq<char>, nat), Seq<char>>::empty());
    let mut found = find_round(&program.fns, &nothing);
    let ghost mut n: nat = 0;
    loop
        invariant
            fns == program.fns@,
            distinct_keys(found@),
            table_map(found@) == after_rounds(fns, n),
            forall|m: nat| m < n ==> !settled_at(fns, m),
        decreases fns.len() - table_map(found@).dom().len(),
    {
        let grown = find_round(&program.fns, &found);
        proof {
            lemma_table_map(found@);
            lemma_table_map(grown@);
            lemma_rounds_grow(fns, n);
            lemma_rounds_grow(fns, n + 1);
            lemma_len_subset(after_rounds(fns, n).dom(), after_rounds(fns, n + 1).dom());
        }
        if grown.len() == found.len() {
            assert(settled_at(fns, n));
            return found;
        }
        found = grown;
        proof {
            n = n + 1;
        }
    }
}

/// The renames a call may take: those of groups that have one arm. A second
/// arm makes the group a dispatch, and sending its calls straight to the
/// builtin would delete the door to the other arm.
pub open spec fn redirects(fns: Seq<FnDecl>, renames: Map<(Seq<char>, nat), Seq<char>>) -> Map<(Seq<char>, nat), Seq<char>> {
    Map::new(|k: (Seq<char>, nat)| renames.contains_key(k) && group_size(fns, k) == 1, |k: (Seq<char>, nat)| renames[k])
}

/// The renames `aliases` settles on for `fns`: those of the first round
/// after which another finds no new group.
pub open spec fn settles_with(fns: Seq<FnDecl>, n: nat) -> bool {
    settled_at(fns, n) && forall|m: nat| m < n ==> !settled_at(fns, m)
}

/// Whether `a` is a call of a name that `m` redirects at its arity.
pub open spec fn is_redirected_call(a: Expr, m: Map<(Seq<char>, nat), Seq<char>>) -> bool {
    match a {
        Expr::App { head, args, .. } => match *head {
            Expr::Ident(n, _) => m.contains_key((n@, args@.len())),
            _ => false,
        },
        _ => false,
    }
}

/// The name `b`'s head is the builtin `m` gives `a`'s head, at the same span.
pub open spec fn head_redirected(a: Expr, b: Expr, m: Map<(Seq<char>, nat), Seq<char>>) -> bool {
    match (a, b) {
        (Expr::App { head: h, args, span, piped }, Expr::App { head: h2, args: args2, span: s2, piped: p2 }) => {
            &&& s2 == span && p2 == piped && args2@.len() == args@.len()
            &&& match (*h, *h2) {
                (Expr::Ident(n, sp), Expr::Ident(t, sp2)) => sp2 == sp && t@ == m[(n@, args@.len())],
                _ => false,
            }
        },
        _ => false,
    }
}

/// `b` is `a` with every call of a redirected name sent to its builtin.
pub open spec fn redirected(a: Expr, b: Expr, m: Map<(Seq<char>, nat), Seq<char>>) -> bool
    decreases size(a), 1nat, 0nat,
    via redirected_decreases
{
    if is_redirected_call(a, m) {
        head_redirected(a, b, m) && children(b).len() == children(a).len()
            && redirected_between(a, b, m, 1, children(a).len())
    } else {
        same_shape(a, b) && children(b).len() == children(a).len()
            && redirected_between(a, b, m, 0, children(a).len())
    }
}

/// The direct sub-expressions of `b` from `lo` up to `n` are those of `a`,
/// redirected.
pub open spec fn redirected_between(a: Expr, b: Expr, m: Map<(Seq<char>, nat), Seq<char>>, lo: nat, n: nat) -> bool
    decreases size(a), 0nat, n,
    via redirected_between_decreases
{
    if n <= lo {
        true
    } else if n > children(a).len() || n > children(b).len() {
        false
    } else {
        redirected_between(a, b, m, lo, (n - 1) as nat) && redirected(children(a)[n - 1], children(b)[n - 1], m)
    }
}

#[via_fn]
proof fn redirected_decreases(a: Expr, b: Expr, m: Map<(Seq<char>, nat), Seq<char>>) {
    lemma_children_smaller(a);
}

#[via_fn]
proof fn redirected_between_decreases(a: Expr, b: Expr, m: Map<(Seq<char>, nat), Seq<char>>, lo: nat, n: nat) {
    lemma_children_smaller(a);
}

proof fn lemma_redirected_between(a: Expr, b: Expr, m: Map<(Seq<char>, nat), Seq<char>>, lo: nat, n: nat)
    requires
        n <= children(a).len() == children(b).len(),
        forall|i: int| lo <= i < children(a).len() ==> redirected(#[trigger] children(a)[i], children(b)[i], m),
    ensures
        redirected_between(a, b, m, lo, n),
    decreases n,
{
    if n > lo {
        lemma_redirected_between(a, b, m, lo, (n - 1) as nat);
    }
}

/// Not within `n` nodes.
pub open spec fn under(c: Expr, n: nat) -> bool {
    size(c) < n
}

fn redirect(e: Expr, table: &Vec<(String, usize, String)>, gm: Ghost<Map<(Seq<char>, nat), Seq<char>>>) -> (r: Expr)
    requires
        table_map(table@) == gm@,
    ensures
        redirected(e, r, gm@),
    decreases size(e),
{
    let ghost g = e;
    let ghost bound: nat = size(e);
    proof {
        lemma_children_smaller(e);
    }
    let inner = |c: Expr| -> (d: Expr)
        requires
            under(c, bound),
        ensures
            redirected(c, d, gm@),
        { redirect(c, table, gm) };
    let mapped = map_children(e, inner);
    proof {
        assert forall|i: int| 0 <= i < children(g).len() implies redirected(#[trigger] children(g)[i], children(mapped)[i], gm@) by {}
    }
    match mapped {
        Expr::App { head, args, span, piped } => {
            let ghost mh = *head;
            let target: Option<String> = match &*head {
                Expr::Ident(n, _) => match lookup(table, n.as_str(), args.len()) {
                    Some(t) => Some(t.clone()),
                    None => None,
                },
                _ => None,
            };
            match target {
                Some(t) => {
                    let sp = match &*head {
                        Expr::Ident(_, sp) => *sp,
                        _ => span,
                    };
                    let r = Expr::App { head: Box::new(Expr::Ident(t, sp)), args, span, piped };
                    proof {
                        assert(children(g)[0] == *g->App_head && children(mapped)[0] == mh);
                        assert(is_redirected_call(g, gm@));
                        assert forall|i: int| 1 <= i < children(g).len() implies redirected(#[trigger] children(g)[i], children(r)[i], gm@) by {
                            assert(children(r)[i] == children(mapped)[i]);
                        }
                        lemma_redirected_between(g, r, gm@, 1, children(g).len());
                    }
                    r
                },
                None => {
                    let r = Expr::App { head, args, span, piped };
                    proof {
                        assert(children(g)[0] == *g->App_head && children(mapped)[0] == mh);
                        assert(!is_redirected_call(g, gm@));
                        lemma_redirected_between(g, r, gm@, 0, children(g).len());
                    }
                    r
                },
            }
        },
        other => {
            proof {
                lemma_redirected_between(g, other, gm@, 0, children(g).len());
            }
            other
        },
    }
}

/// With nothing to redirect, an expression is its own rewrite.
proof fn lemma_redirected_itself(e: Expr)
    ensures
        redirected(e, e, Map::empty()),
    decreases size(e),
{
    lemma_children_smaller(e);
    assert forall|i: int| 0 <= i < children(e).len() implies redirected(#[trigger] children(e)[i], children(e)[i], Map::empty()) by {
        lemma_redirected_itself(children(e)[i]);
    }
    lemma_redirected_between(e, e, Map::empty(), 0, children(e).len());
    match e {
        Expr::Str(ps, _) => {
            assert(forall|i: int| 0 <= i < ps@.len() ==> same_part_shape(#[trigger] ps@[i], ps@[i]));
        },
        Expr::Guard { rest, .. } => {
            assert(forall|i: int| 0 <= i < rest@.len() ==> same_stmt_shape(#[trigger] rest@[i], rest@[i]));
        },
        Expr::Block(x, _) => {
            assert(forall|i: int| 0 <= i < x@.len() ==> same_stmt_shape(#[trigger] x@[i], x@[i]));
        },
        Expr::Build(x, _) => {
            assert(forall|i: int| 0 <= i < x@.len() ==> same_stmt_shape(#[trigger] x@[i], x@[i]));
        },
        _ => {},
    }
}

/// `b` is the declaration `a` with its calls redirected by `m`.
pub open spec fn decl_redirected(a: FnDecl, b: FnDecl, m: Map<(Seq<char>, nat), Seq<char>>) -> bool {
    &&& a.name == b.name && a.is_pub == b.is_pub && a.span == b.span && a.params == b.params
    &&& a.file == b.file && a.synthetic == b.synthetic
    &&& same_stmts_shape(a.body@, b.body@)
    &&& forall|j: int| 0 <= j < a.body@.len() ==> redirected(#[trigger] stmt_expr(a.body@[j]), stmt_expr(b.body@[j]), m)
}

/// The rows of `table` whose group has one arm.
fn single_arm_rows(fns: &Vec<FnDecl>, table: Vec<(String, usize, String)>) -> (r: Vec<(String, usize, String)>)
    ensures
        table_map(r@) == redirects(fns@, table_map(table@)),
{
    let ghost rows = table@;
    let mut out: Vec<(String, usize, String)> = Vec::new();
    let mut i: usize = 0;
    assert(table_map(out@) =~= redirects(fns@, table_map(rows.subrange(0, 0))));
    while i < table.len()
        invariant
            i <= table@.len(),
            table@ == rows,
            table_map(out@) == redirects(fns@, table_map(rows.subrange(0, i as int))),
        decreases table@.len() - i,
    {
        let row = &table[i];
        let ghost before = out@;
        assert(rows.subrange(0, i + 1).drop_last() =~= rows.subrange(0, i as int));
        assert(rows.subrange(0, i + 1).last() == *row);
        if count_group(fns, row.0.as_str(), row.1) == 1 {
            out.push((row.0.clone(), row.1, row.2.clone()));
            assert(out@.drop_last() == before);
        }
        assert(table_map(out@) =~= redirects(fns@, table_map(rows.subrange(0, i + 1))));
        i += 1;
    }
    assert(rows.subrange(0, i as int) =~= rows);
    out
}

/// Rewrite every call of a rename into the call it stands for: a call of a
/// group whose one arm is a rename of a builtin (see `aliases`) calls the
/// builtin instead, at the same site and with the same arguments. A group with
/// a second arm is a dispatch and keeps its calls. A program with no such
/// group is left as it is.
pub fn inline_builtin_wrappers(program: &mut Program)
    ensures
        exists|n: nat| #![trigger settles_with(old(program).fns@, n)] settles_with(old(program).fns@, n) && {
            let m = redirects(old(program).fns@, after_rounds(old(program).fns@, n));
            &&& m.dom().len() == 0 ==> *final(program) == *old(program)
            &&& final(program).types == old(program).types
            &&& final(program).fns@.len() == old(program).fns@.len()
            &&& forall|i: int| 0 <= i < old(program).fns@.len()
                ==> #[trigger] decl_redirected(old(program).fns@[i], final(program).fns@[i], m)
        },
{
    let ghost fns0 = program.fns@;
    let found = aliases(program);
    let ghost n = choose|n: nat| #![trigger settled_at(fns0, n)] settled_at(fns0, n) && (forall|m: nat| m < n ==> !settled_at(fns0, m))
        && table_map(found@) == after_rounds(fns0, n);
    assert(settles_with(fns0, n));
    let table = single_arm_rows(&program.fns, found);
    let gm: Ghost<Map<(Seq<char>, nat), Seq<char>>> = Ghost(redirects(fns0, after_rounds(fns0, n)));
    if table.len() == 0 {
        assert(table_map(table@) =~= Map::<(Seq<char>, nat), Seq<char>>::empty());
        assert forall|i: int| 0 <= i < fns0.len() implies #[trigger] decl_redirected(fns0[i], fns0[i], gm@) by {
            let d = fns0[i];
            assert forall|j: int| 0 <= j < d.body@.len() implies redirected(#[trigger] stmt_expr(d.body@[j]), stmt_expr(d.body@[j]), gm@) by {
                lemma_redirected_itself(stmt_expr(d.body@[j]));
            }
        }
        return;
    }
    let mut fns: Vec<FnDecl> = Vec::new();
    std::mem::swap(&mut fns, &mut program.fns);
    let ghost orig = fns@;
    let mut back: Vec<FnDecl> = Vec::new();
    while fns.len() > 0
        invariant
            fns@.len() + back@.len() == orig.len(),
            fns@ == orig.subrange(0, fns@.len() as int),
            forall|i: int| 0 <= i < back@.len() ==> back@[i] == orig[orig.len() - 1 - i],
        decreases fns@.len(),
    {
        let d = fns.pop().unwrap();
        back.push(d);
        assert(fns@ =~= orig.subrange(0, fns@.len() as int));
    }
    let mut out: Vec<FnDecl> = Vec::new();
    while back.len() > 0
        invariant
            table_map(table@) == gm@,
            back@.len() + out@.len() == orig.len(),
            forall|i: int| 0 <= i < back@.len() ==> back@[i] == orig[orig.len() - 1 - i],
            forall|i: int| 0 <= i < out@.len() ==> decl_redirected(#[trigger] orig[i], out@[i], gm@),
        decreases back@.len(),
    {
        let d = back.pop().unwrap();
        assert(d == orig[out@.len() as int]);
        let FnDecl { name, is_pub, span, params, body, file, synthetic } = d;
        let ghost old_body = body@;
        let each = |c: Expr| -> (r: Expr)
            ensures
                redirected(c, r, gm@),
            { redirect(c, &table, gm) };
        let new_body = map_stmts(body, &each);
        let nd = FnDecl { name, is_pub, span, params, body: new_body, file, synthetic };
        proof {
            assert forall|j: int| 0 <= j < old_body.len() implies redirected(#[trigger] stmt_expr(old_body[j]), stmt_expr(nd.body@[j]), gm@) by {
                assert(stmt_exprs(old_body)[j] == stmt_expr(old_body[j]));
                assert(stmt_exprs(nd.body@)[j] == stmt_expr(nd.body@[j]));
            }
        }
        out.push(nd);
    }
    program.fns = out;
    proof {
        lemma_table_map_finite(table@);
    }
}

} // verus!
