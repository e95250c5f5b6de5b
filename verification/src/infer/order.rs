//! The order inference walks the functions in: callees before their
//! callers, so that within one round the answers a caller reads are
//! already fresh wherever the call graph has no cycle.

use vstd::prelude::*;
use crate::ast::{children, for_each_child, lemma_children_smaller, refs, size, stmt_expr_of, Expr, Program};
use crate::text::{lemma_seq_lt_total, lemma_seq_lt_transitive, same_text, seq_lt, text_less};

verus! {

/// How many entries of `s` are `v`.
pub open spec fn count_of(s: Seq<u8>, v: u8) -> nat
    decreases s.len(),
{
    if s.len() == 0 {
        0
    } else {
        count_of(s.drop_last(), v) + if s.last() == v { 1nat } else { 0nat }
    }
}

proof fn lemma_count_update(s: Seq<u8>, i: int, x: u8, v: u8)
    requires
        0 <= i < s.len(),
    ensures
        count_of(s.update(i, x), v) + (if s[i] == v { 1nat } else { 0nat }) == count_of(s, v) + (if x == v { 1nat } else { 0nat }),
    decreases s.len(),
{
    let t = s.update(i, x);
    if i < s.len() - 1 {
        assert(t.drop_last() =~= s.drop_last().update(i, x));
        lemma_count_update(s.drop_last(), i, x, v);
    } else {
        assert(t.drop_last() =~= s.drop_last());
    }
}

proof fn lemma_count_all(s: Seq<u8>, v: u8)
    requires
        forall|i: int| 0 <= i < s.len() ==> s[i] == v,
    ensures
        count_of(s, v) == s.len(),
    decreases s.len(),
{
    if s.len() > 0 {
        lemma_count_all(s.drop_last(), v);
    }
}

/// The DFS state the walk keeps: 0 unseen, 1 on the current path, 2 done;
/// `order` lists exactly the done ones, each once.
pub open spec fn walk_state(state: Seq<u8>, order: Seq<usize>, n: nat) -> bool {
    &&& state.len() == n
    &&& forall|i: int| 0 <= i < n ==> #[trigger] state[i] <= 2
    &&& forall|k: int| 0 <= k < order.len() ==> (#[trigger] order[k]) < n && state[order[k] as int] == 2
    &&& forall|i: int| 0 <= i < n && #[trigger] state[i] == 2 ==> exists|k: int| 0 <= k < order.len() && order[k] == i
    &&& forall|k1: int, k2: int| 0 <= k1 < k2 < order.len() ==> (#[trigger] order[k1]) != (#[trigger] order[k2])
    &&& order.len() == count_of(state, 2)
}

/// Whether `p` is a walk along calls: each entry calls the next.
pub open spec fn is_path(calls: Seq<Vec<usize>>, p: Seq<usize>) -> bool {
    &&& forall|i: int| 0 <= i < p.len() ==> (#[trigger] p[i]) < calls.len()
    &&& forall|i: int| 0 <= i < p.len() - 1 ==> calls[p[i] as int]@.contains(#[trigger] p[i + 1])
}

/// Whether the function `a` reaches `b` through calls, in zero or more steps.
pub open spec fn reaches(calls: Seq<Vec<usize>>, a: usize, b: usize) -> bool {
    exists|p: Seq<usize>| #[trigger] is_path(calls, p) && p.len() >= 1 && p[0] == a && p.last() == b
}

/// Whether `v` is listed in `order` before position `k`.
pub open spec fn listed_before(order: Seq<usize>, v: usize, k: int) -> bool {
    exists|k1: int| 0 <= k1 < k && order[k1] == v
}

/// Every function done so far comes after each function it calls, unless
/// that callee reaches it back.
pub open spec fn callees_first(calls: Seq<Vec<usize>>, order: Seq<usize>) -> bool {
    forall|k: int, j: int|
        0 <= k < order.len() && 0 <= j < calls[order[k] as int]@.len() ==> listed_before(order, #[trigger] calls[order[k] as int]@[j], k)
            || reaches(calls, calls[order[k] as int]@[j], order[k])
}

proof fn lemma_reach_self(calls: Seq<Vec<usize>>, a: usize)
    requires
        a < calls.len(),
    ensures
        reaches(calls, a, a),
{
    let p = seq![a];
    assert(is_path(calls, p));
}

proof fn lemma_reach_step(calls: Seq<Vec<usize>>, a: usize, b: usize, c: usize)
    requires
        reaches(calls, a, b),
        b < calls.len(),
        c < calls.len(),
        calls[b as int]@.contains(c),
    ensures
        reaches(calls, a, c),
{
    let p = choose|p: Seq<usize>| #[trigger] is_path(calls, p) && p.len() >= 1 && p[0] == a && p.last() == b;
    let q = p.push(c);
    assert forall|i: int| 0 <= i < q.len() - 1 implies calls[q[i] as int]@.contains(#[trigger] q[i + 1]) by {
        if i < p.len() - 1 {
            assert(q[i] == p[i] && q[i + 1] == p[i + 1]);
        } else {
            assert(q[i] == b && q[i + 1] == c);
        }
    }
    assert(is_path(calls, q));
}

fn visit(node: usize, calls: &Vec<Vec<usize>>, state: &mut Vec<u8>, order: &mut Vec<usize>)
    requires
        node < calls@.len(),
        forall|i: int, j: int| 0 <= i < calls@.len() && 0 <= j < calls@[i]@.len() ==> #[trigger] calls@[i]@[j] < calls@.len(),
        walk_state(old(state)@, old(order)@, calls@.len() as nat),
        old(state)@[node as int] == 0,
        callees_first(calls@, old(order)@),
        forall|g: int| 0 <= g < calls@.len() && #[trigger] old(state)@[g] == 1 ==> reaches(calls@, g as usize, node),
    ensures
        walk_state(final(state)@, final(order)@, calls@.len() as nat),
        callees_first(calls@, final(order)@),
        old(order)@.len() <= final(order)@.len(),
        forall|k: int| 0 <= k < old(order)@.len() ==> #[trigger] final(order)@[k] == old(order)@[k],
        final(state)@[node as int] == 2,
        forall|i: int| 0 <= i < calls@.len() && old(state)@[i] != 0 ==> #[trigger] final(state)@[i] == old(state)@[i],
        forall|i: int| 0 <= i < calls@.len() && #[trigger] final(state)@[i] == 1 ==> old(state)@[i] == 1,
        count_of(final(state)@, 0) < count_of(old(state)@, 0),
    decreases count_of(old(state)@, 0),
{
    let ghost s0 = state@;
    let n = calls.len();
    proof {
        lemma_count_update(state@, node as int, 1, 0);
        lemma_count_update(state@, node as int, 1, 2);
    }
    state[node] = 1;
    let ghost s1 = state@;
    let mut k: usize = 0;
    while k < calls[node].len()
        invariant
            s0 == old(state)@,
            n == calls@.len(),
            node < n,
            forall|i: int, j: int| 0 <= i < calls@.len() && 0 <= j < calls@[i]@.len() ==> #[trigger] calls@[i]@[j] < calls@.len(),
            walk_state(state@, order@, n as nat),
            state@[node as int] == 1,
            forall|i: int| 0 <= i < n && s0[i] != 0 ==> #[trigger] state@[i] == s0[i],
            forall|i: int| 0 <= i < n && #[trigger] state@[i] == 1 ==> s0[i] == 1 || i == node,
            count_of(state@, 0) < count_of(s0, 0),
            k <= calls@[node as int]@.len(),
            callees_first(calls@, order@),
            old(order)@.len() <= order@.len(),
            forall|q: int| 0 <= q < old(order)@.len() ==> #[trigger] order@[q] == old(order)@[q],
            forall|g: int| 0 <= g < n && #[trigger] s0[g] == 1 ==> reaches(calls@, g as usize, node),
            forall|j: int| 0 <= j < k ==> state@[#[trigger] calls@[node as int]@[j] as int] != 0,
        decreases calls@[node as int]@.len() - k,
    {
        let child = calls[node][k];
        if state[child] == 0 {
            proof {
                assert(calls@[node as int]@.contains(child)) by {
                    assert(calls@[node as int]@[k as int] == child);
                }
                assert forall|g: int| 0 <= g < n && #[trigger] state@[g] == 1 implies reaches(calls@, g as usize, child) by {
                    if g == node {
                        lemma_reach_self(calls@, node);
                    }
                    lemma_reach_step(calls@, g as usize, node, child);
                }
            }
            let ghost before_s = state@;
            let ghost before_o = order@;
            visit(child, calls, state, order);
            proof {
                assert forall|j: int| 0 <= j < k + 1 implies state@[#[trigger] calls@[node as int]@[j] as int] != 0 by {
                    if j < k {
                        assert(before_s[calls@[node as int]@[j] as int] != 0);
                    }
                }
            }
        }
        k += 1;
    }
    let ghost s2 = state@;
    let ghost o2 = order@;
    proof {
        lemma_count_update(state@, node as int, 2, 2);
        assert forall|q: int| 0 <= q < o2.len() implies o2[q] != node by {
            assert(s2[o2[q] as int] == 2);
        }
    }
    state[node] = 2;
    order.push(node);
    proof {
        assert forall|kk: int, j: int|
            0 <= kk < order@.len() && 0 <= j < calls@[order@[kk] as int]@.len() implies listed_before(order@, #[trigger] calls@[order@[kk] as int]@[j], kk)
                || reaches(calls@, calls@[order@[kk] as int]@[j], order@[kk]) by {
            if kk < o2.len() {
                assert(order@[kk] == o2[kk]);
                if listed_before(o2, calls@[o2[kk] as int]@[j], kk) {
                    let k1 = choose|k1: int| 0 <= k1 < kk && o2[k1] == calls@[o2[kk] as int]@[j];
                    assert(order@[k1] == o2[k1]);
                }
            } else {
                let v = calls@[node as int]@[j];
                assert(order@[kk] == node);
                assert(s2[v as int] != 0);
                if s2[v as int] == 2 {
                    let k1 = choose|k1: int| 0 <= k1 < o2.len() && o2[k1] == v;
                    assert(order@[k1] == o2[k1]);
                } else {
                    if v == node {
                        lemma_reach_self(calls@, node);
                    } else {
                        assert(s0[v as int] == 1);
                    }
                }
            }
        }
        lemma_count_update(s2, node as int, 2, 0);
        assert forall|i: int| 0 <= i < n && #[trigger] state@[i] == 2 implies exists|k: int|
            0 <= k < order@.len() && order@[k] == i by {
            if i != node {
                assert(s2[i] == 2);
                let k = choose|k: int| 0 <= k < o2.len() && o2[k] == i;
                assert(order@[k] == i);
            } else {
                assert(order@[o2.len() as int] == i);
            }
        }
        assert forall|k: int| 0 <= k < order@.len() implies (#[trigger] order@[k]) < n && state@[order@[k] as int] == 2 by {
            if k < o2.len() {
                assert(order@[k] == o2[k]);
            }
        }
        assert forall|k1: int, k2: int| 0 <= k1 < k2 < order@.len() implies (#[trigger] order@[k1]) != (#[trigger] order@[k2]) by {
            if k2 < o2.len() {
                assert(order@[k1] == o2[k1] && order@[k2] == o2[k2]);
            } else {
                assert(order@[k1] == o2[k1]);
            }
        }
    }
}

/// The functions in post-order over the calls their bodies name: every
/// function exactly once, each after those it calls where no cycle runs
/// through them. `calls[i]` lists the functions the `i`th one names.
pub fn post_order(calls: &Vec<Vec<usize>>) -> (r: Vec<usize>)
    requires
        forall|i: int, j: int| 0 <= i < calls@.len() && 0 <= j < calls@[i]@.len() ==> #[trigger] calls@[i]@[j] < calls@.len(),
    ensures
        r@.len() == calls@.len(),
        forall|k: int| 0 <= k < r@.len() ==> #[trigger] r@[k] < calls@.len(),
        forall|k1: int, k2: int| 0 <= k1 < k2 < r@.len() ==> (#[trigger] r@[k1]) != (#[trigger] r@[k2]),
        callees_first(calls@, r@),
{
    let n = calls.len();
    let mut state: Vec<u8> = Vec::new();
    while state.len() < n
        invariant
            state@.len() <= n,
            forall|i: int| 0 <= i < state@.len() ==> #[trigger] state@[i] == 0,
        decreases n - state@.len(),
    {
        state.push(0);
    }
    let mut order: Vec<usize> = Vec::new();
    proof {
        assert(count_of(state@, 2) == 0) by {
            lemma_count_all(state@, 0);
            lemma_zero_count(state@);
        }
    }
    let mut root: usize = 0;
    while root < n
        invariant
            n == calls@.len(),
            forall|i: int, j: int| 0 <= i < calls@.len() && 0 <= j < calls@[i]@.len() ==> #[trigger] calls@[i]@[j] < calls@.len(),
            walk_state(state@, order@, n as nat),
            root <= n,
            forall|i: int| 0 <= i < n ==> #[trigger] state@[i] != 1,
            forall|i: int| 0 <= i < root ==> #[trigger] state@[i] == 2,
            callees_first(calls@, order@),
        decreases n - root,
    {
        if state[root] == 0 {
            visit(root, calls, &mut state, &mut order);
        }
        root += 1;
    }
    proof {
        lemma_count_all(state@, 2);
    }
    order
}

proof fn lemma_zero_count(s: Seq<u8>)
    requires
        forall|i: int| 0 <= i < s.len() ==> s[i] == 0,
    ensures
        count_of(s, 2) == 0,
    decreases s.len(),
{
    if s.len() > 0 {
        lemma_zero_count(s.drop_last());
    }
}

/// The texts of `v`, in order.
pub open spec fn texts(v: Seq<String>) -> Seq<Seq<char>> {
    v.map_values(|x: String| x@)
}

/// Every name `e` mentions, as an identifier or a held name, in pre-order.
pub open spec fn names_in(e: Expr) -> Seq<Seq<char>>
    decreases size(e), 1nat, 0nat,
{
    own_names(e) + names_among(e, children(e).len())
}

/// The name `e` is itself, as an identifier or a held name.
pub open spec fn own_names(e: Expr) -> Seq<Seq<char>> {
    match e {
        Expr::Ident(n, _) => seq![n@],
        Expr::Partial(n, _) => seq![n@],
        _ => Seq::empty(),
    }
}

/// The names the first `n` direct sub-expressions of `e` mention.
pub open spec fn names_among(e: Expr, n: nat) -> Seq<Seq<char>>
    decreases size(e), 0nat, n,
    via names_among_decreases
{
    if n == 0 || n > children(e).len() {
        Seq::empty()
    } else {
        names_among(e, (n - 1) as nat) + names_in(children(e)[n - 1])
    }
}

#[via_fn]
proof fn names_among_decreases(e: Expr, n: nat) {
    lemma_children_smaller(e);
}

/// Whether one of the first `n` texts of `v` is `x`.
pub open spec fn has_text(v: Seq<String>, x: Seq<char>, n: int) -> bool {
    exists|k: int| 0 <= k < n && k < v.len() && (#[trigger] v[k])@ == x
}

/// Every name `e` mentions, as an identifier or a held name, pushed onto
/// `names`.
fn gather(e: &Expr, names: &mut Vec<String>)
    ensures
        texts(final(names)@) == texts(old(names)@) + names_in(*e),
    decreases size(*e),
{
    match e {
        Expr::Ident(n, _) => names.push(n.clone()),
        Expr::Partial(n, _) => names.push(n.clone()),
        _ => {},
    }
    let ghost own: Seq<Seq<char>> = own_names(*e);
    assert(texts(names@) =~= texts(old(names)@) + own);
    let kids = for_each_child(e);
    proof {
        lemma_children_smaller(*e);
    }
    let mut i: usize = 0;
    while i < kids.len()
        invariant
            i <= kids@.len(),
            refs(kids@) == children(*e),
            forall|j: int| 0 <= j < children(*e).len() ==> size(#[trigger] children(*e)[j]) < size(*e),
            texts(names@) == texts(old(names)@) + own + names_among(*e, i as nat),
        decreases kids@.len() - i,
    {
        let c = kids[i];
        assert(refs(kids@)[i as int] == *c);
        gather(c, names);
        assert(names_among(*e, (i + 1) as nat) == names_among(*e, i as nat) + names_in(children(*e)[i as int]));
        i += 1;
    }
    assert(kids@.len() == children(*e).len());
    assert(texts(old(names)@) + own + names_among(*e, i as nat) =~= texts(old(names)@) + names_in(*e));
}

/// The names, sorted and each once.
fn sorted_once(names: &Vec<String>) -> (r: Vec<String>)
    ensures
        forall|a: int, b: int| 0 <= a < b < r@.len() ==> seq_lt((#[trigger] r@[a])@, (#[trigger] r@[b])@),
        forall|k: int| 0 <= k < r@.len() ==> has_text(names@, (#[trigger] r@[k])@, names@.len() as int),
        forall|j: int| 0 <= j < names@.len() ==> has_text(r@, (#[trigger] names@[j])@, r@.len() as int),
{
    let mut out: Vec<String> = Vec::new();
    let mut i: usize = 0;
    while i < names.len()
        invariant
            i <= names@.len(),
            forall|a: int, b: int| 0 <= a < b < out@.len() ==> seq_lt((#[trigger] out@[a])@, (#[trigger] out@[b])@),
            forall|k: int| 0 <= k < out@.len() ==> has_text(names@, (#[trigger] out@[k])@, i as int),
            forall|j: int| 0 <= j < i ==> has_text(out@, (#[trigger] names@[j])@, out@.len() as int),
        decreases names@.len() - i,
    {
        let n = names[i].as_str();
        let mut p: usize = 0;
        while p < out.len() && text_less(out[p].as_str(), n)
            invariant
                p <= out@.len(),
                forall|k: int| 0 <= k < p ==> seq_lt((#[trigger] out@[k])@, n@),
            decreases out@.len() - p,
        {
            p += 1;
        }
        let ghost o = out@;
        if p == out.len() || !same_text(out[p].as_str(), n) {
            proof {
                if p < o.len() {
                    lemma_seq_lt_total(o[p as int]@, n@);
                }
            }
            out.insert(p, names[i].clone());
            proof {
                o.insert_ensures(p as int, names@[i as int]);
                assert forall|a: int, b: int| 0 <= a < b < out@.len() implies seq_lt((#[trigger] out@[a])@, (#[trigger] out@[b])@) by {
                    if b < p {
                    } else if b == p {
                        assert(seq_lt(o[a]@, n@));
                    } else if a < p {
                        assert(out@[b] == o[b - 1]);
                        if b - 1 > p {
                            assert(seq_lt(o[p as int]@, o[b - 1]@));
                            lemma_seq_lt_transitive(n@, o[p as int]@, o[b - 1]@);
                        }
                        lemma_seq_lt_transitive(o[a]@, n@, o[b - 1]@);
                    } else if a == p {
                        assert(out@[b] == o[b - 1]);
                        if b - 1 > p {
                            assert(seq_lt(o[p as int]@, o[b - 1]@));
                            lemma_seq_lt_transitive(n@, o[p as int]@, o[b - 1]@);
                        }
                    } else {
                        assert(out@[a] == o[a - 1] && out@[b] == o[b - 1]);
                    }
                }
                assert forall|k: int| 0 <= k < out@.len() implies has_text(names@, (#[trigger] out@[k])@, i + 1) by {
                    if k < p {
                        assert(has_text(names@, o[k]@, i as int));
                    } else if k == p {
                        assert(names@[i as int]@ == out@[k]@);
                    } else {
                        assert(out@[k] == o[k - 1]);
                        assert(has_text(names@, o[k - 1]@, i as int));
                    }
                }
                assert forall|j: int| 0 <= j < i + 1 implies has_text(out@, (#[trigger] names@[j])@, out@.len() as int) by {
                    if j == i {
                        assert(out@[p as int]@ == names@[j]@);
                    } else {
                        assert(has_text(o, names@[j]@, o.len() as int));
                        let w = choose|w: int| 0 <= w < o.len() && w < o.len() && (#[trigger] o[w])@ == names@[j]@;
                        if w < p {
                            assert(out@[w] == o[w]);
                        } else {
                            assert(out@[w + 1] == o[w]);
                        }
                    }
                }
            }
        } else {
            proof {
                assert forall|k: int| 0 <= k < out@.len() implies has_text(names@, (#[trigger] out@[k])@, i + 1) by {
                    assert(has_text(names@, out@[k]@, i as int));
                }
                assert forall|j: int| 0 <= j < i + 1 implies has_text(out@, (#[trigger] names@[j])@, out@.len() as int) by {
                    if j == i {
                        assert(out@[p as int]@ == names@[j]@);
                    }
                }
            }
        }
        i += 1;
    }
    out
}

/// The names the first `k` statements of `d` mention, in order.
pub open spec fn body_names(d: crate::ast::FnDecl, k: nat) -> Seq<Seq<char>>
    decreases k,
{
    if k == 0 || k > d.body@.len() {
        Seq::empty()
    } else {
        body_names(d, (k - 1) as nat) + names_in(crate::ast::stmt_expr(d.body@[k - 1]))
    }
}

/// Whether the body of the `i`th function names the `j`th.
pub open spec fn names_fn(p: Program, i: int, j: int) -> bool {
    body_names(p.fns@[i], p.fns@[i].body@.len()).contains(p.fns@[j].name@)
}

/// The positions below `j` of the functions named `x`, in order.
pub open spec fn matching(fns: Seq<crate::ast::FnDecl>, x: Seq<char>, j: nat) -> Seq<usize>
    decreases j,
{
    if j == 0 {
        Seq::empty()
    } else if fns[j - 1].name@ == x {
        matching(fns, x, (j - 1) as nat).push((j - 1) as usize)
    } else {
        matching(fns, x, (j - 1) as nat)
    }
}

proof fn lemma_matching(fns: Seq<crate::ast::FnDecl>, x: Seq<char>, j: nat)
    requires
        j <= fns.len() <= usize::MAX,
    ensures
        forall|b: int| 0 <= b < matching(fns, x, j).len() ==> (#[trigger] matching(fns, x, j)[b]) < j && fns[matching(fns, x, j)[b] as int].name@ == x,
        forall|b: int| 0 <= b < j && fns[b].name@ == x ==> matching(fns, x, j).contains(b as usize),
    decreases j,
{
    if j > 0 {
        lemma_matching(fns, x, (j - 1) as nat);
        let m0 = matching(fns, x, (j - 1) as nat);
        let m1 = matching(fns, x, j);
        assert forall|b: int| 0 <= b < j && fns[b].name@ == x implies m1.contains(b as usize) by {
            if b < j - 1 {
                let w = choose|w: int| 0 <= w < m0.len() && m0[w] == b as usize;
                assert(m1[w] == m0[w]);
            } else {
                assert(m1[m0.len() as int] == b as usize);
            }
        }
    }
}

/// Whether `calls` lists, for each function, exactly the functions its
/// body names.
pub open spec fn calls_named(p: Program, calls: Seq<Vec<usize>>) -> bool {
    &&& calls.len() == p.fns@.len()
    &&& forall|a: int, b: int| 0 <= a < calls.len() && 0 <= b < calls[a]@.len() ==> #[trigger] calls[a]@[b] < p.fns@.len()
    &&& forall|a: int, b: int| 0 <= a < calls.len() && 0 <= b < p.fns@.len() ==> (#[trigger] calls[a]@.contains(b as usize) <==> names_fn(p, a, b))
}

/// The functions in the order inference first walks them: callees before
/// their callers, every function once. A function's calls are the
/// functions named anywhere in its body, name by name in sorted order.
pub fn callee_first(program: &Program) -> (r: Vec<usize>)
    ensures
        r@.len() == program.fns@.len(),
        forall|k: int| 0 <= k < r@.len() ==> #[trigger] r@[k] < program.fns@.len(),
        forall|k1: int, k2: int| 0 <= k1 < k2 < r@.len() ==> (#[trigger] r@[k1]) != (#[trigger] r@[k2]),
        exists|calls: Seq<Vec<usize>>| #[trigger] calls_named(*program, calls) && callees_first(calls, r@),
{
    let n = program.fns.len();
    let mut calls: Vec<Vec<usize>> = Vec::new();
    let mut i: usize = 0;
    while i < n
        invariant
            n == program.fns@.len(),
            i <= n,
            calls@.len() == i,
            forall|a: int, b: int| 0 <= a < calls@.len() && 0 <= b < calls@[a]@.len() ==> #[trigger] calls@[a]@[b] < n,
            forall|a: int, b: int| 0 <= a < calls@.len() && 0 <= b < n ==> (#[trigger] calls@[a]@.contains(b as usize) <==> names_fn(*program, a, b)),
        decreases n - i,
    {
        let d = &program.fns[i];
        let mut names: Vec<String> = Vec::new();
        let mut k: usize = 0;
        while k < d.body.len()
            invariant
                k <= d.body@.len(),
                texts(names@) == body_names(*d, k as nat),
            decreases d.body@.len() - k,
        {
            gather(stmt_expr_of(&d.body[k]), &mut names);
            k += 1;
        }
        let ghost all = texts(names@);
        assert(all == body_names(program.fns@[i as int], program.fns@[i as int].body@.len()));
        let sorted = sorted_once(&names);
        let mut targets: Vec<usize> = Vec::new();
        let mut m: usize = 0;
        while m < sorted.len()
            invariant
                n == program.fns@.len(),
                m <= sorted@.len(),
                forall|b: int| 0 <= b < targets@.len() ==> #[trigger] targets@[b] < n,
                forall|b: int| 0 <= b < n ==> (targets@.contains(b as usize) <==> has_text(sorted@, #[trigger] program.fns@[b].name@, m as int)),
            decreases sorted@.len() - m,
        {
            let mut j: usize = 0;
            let ghost t0 = targets@;
            let ghost x = sorted@[m as int]@;
            while j < n
                invariant
                    n == program.fns@.len(),
                    j <= n,
                    m < sorted@.len(),
                    x == sorted@[m as int]@,
                    forall|b: int| 0 <= b < targets@.len() ==> #[trigger] targets@[b] < n,
                    targets@ == t0 + matching(program.fns@, x, j as nat),
                decreases n - j,
            {
                if same_text(program.fns[j].name.as_str(), sorted[m].as_str()) {
                    targets.push(j);
                }
                assert(targets@ =~= t0 + matching(program.fns@, x, (j + 1) as nat));
                j += 1;
            }
            proof {
                lemma_matching(program.fns@, x, n as nat);
                assert forall|b: int| 0 <= b < n implies (targets@.contains(b as usize) <==> (t0.contains(b as usize)
                    || program.fns@[b].name@ == x)) by {
                    if targets@.contains(b as usize) {
                        let w = choose|w: int| 0 <= w < targets@.len() && targets@[w] == b as usize;
                        if w >= t0.len() {
                            assert(matching(program.fns@, x, n as nat)[w - t0.len()] == b as usize);
                        }
                    }
                    if t0.contains(b as usize) {
                        let w = choose|w: int| 0 <= w < t0.len() && t0[w] == b as usize;
                        assert(targets@[w] == t0[w]);
                    }
                    if program.fns@[b].name@ == x {
                        let w = choose|w: int| 0 <= w < matching(program.fns@, x, n as nat).len() && matching(program.fns@, x, n as nat)[w] == b as usize;
                        assert(targets@[t0.len() + w] == b as usize);
                    }
                }
            }
            proof {
                assert forall|b: int| 0 <= b < n implies (targets@.contains(b as usize) <==> has_text(sorted@, #[trigger] program.fns@[b].name@, m + 1)) by {
                    if has_text(sorted@, program.fns@[b].name@, m + 1) {
                        let w = choose|w: int| 0 <= w < m + 1 && w < sorted@.len() && (#[trigger] sorted@[w])@ == program.fns@[b].name@;
                        if w < m {
                            assert(has_text(sorted@, program.fns@[b].name@, m as int));
                        }
                    }
                }
            }
            m += 1;
        }
        proof {
            assert forall|b: int| 0 <= b < n implies (targets@.contains(b as usize) <==> names_fn(*program, i as int, b)) by {
                let x = program.fns@[b].name@;
                if has_text(sorted@, x, sorted@.len() as int) {
                    let w = choose|w: int| 0 <= w < sorted@.len() && w < sorted@.len() && (#[trigger] sorted@[w])@ == x;
                    assert(has_text(names@, sorted@[w]@, names@.len() as int));
                    let q = choose|q: int| 0 <= q < names@.len() && q < names@.len() && (#[trigger] names@[q])@ == sorted@[w]@;
                    assert(all[q] == x);
                }
                if all.contains(x) {
                    let q = choose|q: int| 0 <= q < all.len() && all[q] == x;
                    assert(names@[q]@ == x);
                    assert(has_text(sorted@, names@[q]@, sorted@.len() as int));
                }
            }
        }
        let ghost before = calls@;
        calls.push(targets);
        proof {
            assert forall|a: int, b: int| 0 <= a < calls@.len() && 0 <= b < calls@[a]@.len() implies #[trigger] calls@[a]@[b] < n by {
                if a < before.len() {
                    assert(calls@[a] == before[a]);
                }
            }
            assert forall|a: int, b: int| 0 <= a < calls@.len() && 0 <= b < n implies (#[trigger] calls@[a]@.contains(b as usize) <==> names_fn(*program, a, b)) by {
                if a < before.len() {
                    assert(calls@[a] == before[a]);
                }
            }
        }
        i += 1;
    }
    let r = post_order(&calls);
    assert(calls_named(*program, calls@));
    r
}

} // verus!
