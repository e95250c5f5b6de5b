//! The whole-program inference: one monotone fixpoint over type sets. Every
//! function is walked with the sets its parameters have been seen with,
//! and what it returns, what it passes on and what it stores into a record
//! widen the sets the next walk reads, until a round widens nothing.

use vstd::prelude::*;
use crate::ast::{lemma_parts_smaller, size, stmt_expr, stmt_exprs, stmts_size, Expr, Pattern, Program, Stmt, TemplatePart};
use crate::infer::work::Work;
use crate::infer::{
    annotated_set, builtin_set, callee_first, desc_yield, fails_of, yield_of, numeric_result, pattern_catches, reads_first, bare_name,
    lemma_yield_tagged, lemma_numeric_tagged, lemma_fails_tagged, lemma_builtin_tagged, lemma_tagged_and, lemma_tagged_or, lemma_tagged_rules, lemma_tags, tagged, Inference, BOOL, BYTES, DESC, ERR, FAIL, FALSE, FLOAT, FN, INT, LIST, MAP, NONE, REC, STR, THUNK, TOP, TRUE,
};
use crate::lexer::Op;
use crate::text::same_text;

verus! {

/// What the walk keeps between visits: the sets found so far, who read
/// whose return, which functions a change reaches, and what each
/// description-valued local yields.
pub struct Ctx {
    /// Whether some constant mentions itself, so that a container may hold
    /// a thunk.
    pub defers: bool,
    /// The function being walked.
    pub current: usize,
    /// Per function, the functions that have read its return set.
    pub readers: Vec<Vec<usize>>,
    pub dirty_next: Vec<bool>,
    pub dirty: Vec<bool>,
    /// Per type, the functions whose patterns destructure it.
    pub field_readers: Vec<Vec<usize>>,
    pub yields: Vec<(String, u16)>,
    pub params: Vec<Vec<u16>>,
    pub returns: Vec<u16>,
    pub type_fields: Vec<Vec<u16>>,
    pub changed: bool,
    /// The (name, arity, statement) positions whose binding holds a thunk.
    pub lazy: Vec<(String, usize, usize)>,
}

/// The walk's records fit the program: one entry per function and per type,
/// one set per parameter and per field, every index in range.
pub open spec fn fits(c: Ctx, p: Program) -> bool {
    let n = p.fns@.len();
    &&& c.current < n
    &&& c.readers@.len() == n
    &&& forall|i: int, j: int| 0 <= i < n && 0 <= j < c.readers@[i]@.len() ==> #[trigger] c.readers@[i]@[j] < n
    &&& c.dirty@.len() == n && c.dirty_next@.len() == n
    &&& c.field_readers@.len() == p.types@.len()
    &&& forall|i: int, j: int|
        0 <= i < p.types@.len() && 0 <= j < c.field_readers@[i]@.len() ==> #[trigger] c.field_readers@[i]@[j] < n
    &&& c.params@.len() == n
    &&& forall|i: int| 0 <= i < n ==> (#[trigger] c.params@[i])@.len() == p.fns@[i].params@.len()
    &&& c.returns@.len() == n
    &&& c.type_fields@.len() == p.types@.len()
    &&& forall|i: int| 0 <= i < p.types@.len() ==> (#[trigger] c.type_fields@[i])@.len() == p.types@[i].fields@.len()
}

/// Whether every tag of `a` is in `b`.
pub open spec fn within(a: u16, b: u16) -> bool {
    a | b == b
}

/// Whether `c1` has kept everything `c0` found: every parameter, return
/// and field set of `c0` within the same set of `c1`.
pub open spec fn grows(c0: Ctx, c1: Ctx) -> bool {
    &&& c1.returns@.len() == c0.returns@.len()
    &&& forall|i: int| 0 <= i < c0.returns@.len() ==> within(c0.returns@[i], #[trigger] c1.returns@[i])
    &&& c1.params@.len() == c0.params@.len()
    &&& forall|i: int| 0 <= i < c0.params@.len() ==> (#[trigger] c1.params@[i])@.len() == c0.params@[i]@.len()
    &&& forall|i: int, j: int|
        0 <= i < c0.params@.len() && 0 <= j < c0.params@[i]@.len() ==> within(c0.params@[i]@[j], #[trigger] c1.params@[i]@[j])
    &&& c1.type_fields@.len() == c0.type_fields@.len()
    &&& forall|i: int| 0 <= i < c0.type_fields@.len() ==> (#[trigger] c1.type_fields@[i])@.len() == c0.type_fields@[i]@.len()
    &&& forall|i: int, j: int|
        0 <= i < c0.type_fields@.len() && 0 <= j < c0.type_fields@[i]@.len() ==> within(
            c0.type_fields@[i]@[j],
            #[trigger] c1.type_fields@[i]@[j],
        )
}

proof fn lemma_within(a: u16, s: u16)
    ensures
        within(a, a | s),
        within(a, a),
{
    assert(a | (a | s) == a | s) by (bit_vector);
    assert(a | a == a) by (bit_vector);
}

proof fn lemma_within_trans(a: u16, b: u16, d: u16)
    requires
        within(a, b),
        within(b, d),
    ensures
        within(a, d),
{
    assert(a | b == b && b | d == d ==> a | d == d) by (bit_vector);
}

proof fn lemma_grows_refl(c: Ctx)
    ensures
        grows(c, c),
{
    assert forall|a: u16| within(a, a) by {
        lemma_within(a, a);
    }
}

proof fn lemma_grows_trans(c0: Ctx, c1: Ctx, c2: Ctx)
    requires
        grows(c0, c1),
        grows(c1, c2),
    ensures
        grows(c0, c2),
{
    assert forall|i: int| 0 <= i < c0.returns@.len() implies within(c0.returns@[i], #[trigger] c2.returns@[i]) by {
        lemma_within_trans(c0.returns@[i], c1.returns@[i], c2.returns@[i]);
    }
    assert forall|i: int, j: int|
        0 <= i < c0.params@.len() && 0 <= j < c0.params@[i]@.len() implies within(c0.params@[i]@[j], #[trigger] c2.params@[i]@[j]) by {
        lemma_within_trans(c0.params@[i]@[j], c1.params@[i]@[j], c2.params@[i]@[j]);
    }
    assert forall|i: int, j: int|
        0 <= i < c0.type_fields@.len() && 0 <= j < c0.type_fields@[i]@.len() implies within(
            c0.type_fields@[i]@[j],
            #[trigger] c2.type_fields@[i]@[j],
        ) by {
        lemma_within_trans(c0.type_fields@[i]@[j], c1.type_fields@[i]@[j], c2.type_fields@[i]@[j]);
    }
}

/// Whether `c1` has the return sets, the function being walked, the thunk
/// positions and the container flag of `c0`: a walk of one function only
/// widens parameter and field sets and records readers.
pub open spec fn keeps(c0: Ctx, c1: Ctx) -> bool {
    c1.returns == c0.returns && c1.current == c0.current && c1.lazy == c0.lazy && c1.defers == c0.defers
}

/// Every binding of `env` holds only tags.
pub open spec fn env_tagged(env: Seq<(String, u16)>) -> bool {
    forall|i: int| 0 <= i < env.len() ==> tagged(#[trigger] env[i].1)
}

/// Every set the walk keeps holds only tags.
pub open spec fn ctx_tagged(c: Ctx) -> bool {
    &&& forall|i: int| 0 <= i < c.returns@.len() ==> tagged(#[trigger] c.returns@[i])
    &&& forall|i: int, j: int| 0 <= i < c.params@.len() && 0 <= j < c.params@[i]@.len() ==> tagged(#[trigger] c.params@[i]@[j])
    &&& forall|i: int, j: int|
        0 <= i < c.type_fields@.len() && 0 <= j < c.type_fields@[i]@.len() ==> tagged(#[trigger] c.type_fields@[i]@[j])
    &&& env_tagged(c.yields@)
}

/// Whether `c1` holds the same sets as `c0`.
pub open spec fn same_sets(c0: Ctx, c1: Ctx) -> bool {
    c1.params == c0.params && c1.returns == c0.returns && c1.type_fields == c0.type_fields
}

/// The set the last of the first `n` bindings of `env` named `name` holds.
pub open spec fn env_get(env: Seq<(String, u16)>, name: Seq<char>, n: nat) -> Option<u16>
    decreases n,
{
    if n == 0 || n > env.len() {
        None
    } else if env[n - 1].0@ == name {
        Some(env[n - 1].1)
    } else {
        env_get(env, name, (n - 1) as nat)
    }
}

/// The index of the last of the first `n` types named `name`.
pub open spec fn type_slot(types: Seq<crate::ast::TypeDecl>, name: Seq<char>, n: nat) -> Option<nat>
    decreases n,
{
    if n == 0 || n > types.len() {
        None
    } else if types[n - 1].name@ == name {
        Some((n - 1) as nat)
    } else {
        type_slot(types, name, (n - 1) as nat)
    }
}

proof fn lemma_type_slot(types: Seq<crate::ast::TypeDecl>, name: Seq<char>, n: nat)
    ensures
        type_slot(types, name, n) matches Some(i) ==> i < n && i < types.len() && types[i as int].name@ == name,
    decreases n,
{
    if n > 0 && n <= types.len() && types[n - 1].name@ != name {
        lemma_type_slot(types, name, (n - 1) as nat);
    }
}

proof fn lemma_env_get_tagged(env: Seq<(String, u16)>, name: Seq<char>, n: nat)
    requires
        env_tagged(env),
    ensures
        env_get(env, name, n) matches Some(s) ==> tagged(s),
    decreases n,
{
    if n > 0 && n <= env.len() && env[n - 1].0@ != name {
        lemma_env_get_tagged(env, name, (n - 1) as nat);
    }
}

proof fn lemma_env_push(env: Seq<(String, u16)>, b: (String, u16))
    requires
        env_tagged(env),
        tagged(b.1),
    ensures
        env_tagged(env.push(b)),
{
    assert forall|i: int| 0 <= i < env.push(b).len() implies tagged(#[trigger] env.push(b)[i].1) by {
        if i < env.len() {
            assert(env.push(b)[i] == env[i]);
        }
    }
}

/// A copy of the bindings.
fn copy_env(env: &Vec<(String, u16)>) -> (r: Vec<(String, u16)>)
    ensures
        env_view(r@) == env_view(env@),
        env_tagged(env@) ==> env_tagged(r@),
{
    let mut out: Vec<(String, u16)> = Vec::new();
    let mut k: usize = 0;
    while k < env.len()
        invariant
            k <= env@.len(),
            out@.len() == k,
            forall|i: int| 0 <= i < k ==> (#[trigger] out@[i]).0@ == env@[i].0@ && out@[i].1 == env@[i].1,
        decreases env@.len() - k,
    {
        out.push((env[k].0.clone(), env[k].1));
        k += 1;
    }
    assert(env_view(out@) =~= env_view(env@));
    out
}

fn lookup(env: &Vec<(String, u16)>, name: &str) -> (r: Option<u16>)
    ensures
        r == env_get(env@, name@, env@.len()),
{
    let mut k = env.len();
    while k > 0
        invariant
            k <= env@.len(),
            env_get(env@, name@, env@.len()) == env_get(env@, name@, k as nat),
        decreases k,
    {
        if same_text(env[k - 1].0.as_str(), name) {
            return Some(env[k - 1].1);
        }
        k -= 1;
    }
    None
}

fn type_index(p: &Program, name: &str) -> (r: Option<usize>)
    ensures
        r matches Some(i) ==> i < p.types@.len() && p.types@[i as int].name@ == name@,
        r == (match type_slot(p.types@, name@, p.types@.len()) {
            Some(i) => Some(i as usize),
            None => None::<usize>,
        }),
{
    proof {
        lemma_type_slot(p.types@, name@, p.types@.len());
    }
    let mut k = p.types.len();
    while k > 0
        invariant
            k <= p.types@.len(),
            type_slot(p.types@, name@, p.types@.len()) == type_slot(p.types@, name@, k as nat),
        decreases k,
    {
        if same_text(p.types[k - 1].name.as_str(), name) {
            return Some(k - 1);
        }
        k -= 1;
    }
    None
}

fn add_reader(c: &mut Ctx, i: usize, r: usize, Ghost(p): Ghost<Program>)
    requires
        fits(*old(c), p),
        i < p.fns@.len(),
        r < p.fns@.len(),
    ensures
        fits(*final(c), p),
        same_sets(*old(c), *final(c)),
        *final(c) == (Ctx { readers: final(c).readers, ..*old(c) }),
        final(c).readers@.len() == old(c).readers@.len(),
        forall|a: int| 0 <= a < old(c).readers@.len() && a != i ==> #[trigger] final(c).readers@[a] == old(c).readers@[a],
        final(c).readers@[i as int]@ == (if old(c).readers@[i as int]@.contains(r) {
            old(c).readers@[i as int]@
        } else {
            old(c).readers@[i as int]@.push(r)
        }),
{
    let mut k: usize = 0;
    while k < c.readers[i].len()
        invariant
            *c == *old(c),
            forall|j: int| 0 <= j < k ==> c.readers@[i as int]@[j] != r,
            fits(*c, p),
            i < p.fns@.len(),
            k <= c.readers@[i as int]@.len(),
        decreases c.readers@[i as int]@.len() - k,
    {
        if c.readers[i][k] == r {
            return;
        }
        k += 1;
    }
    let ghost before = c.readers@;
    assert(!old(c).readers@[i as int]@.contains(r));
    c.readers[i].push(r);
    assert forall|a: int, b: int| 0 <= a < p.fns@.len() && 0 <= b < c.readers@[a]@.len() implies #[trigger] c.readers@[a]@[b] < p.fns@.len() by {
        if a != i {
            assert(c.readers@[a] == before[a]);
        } else if b < before[a]@.len() {
            assert(c.readers@[a]@[b] == before[a]@[b]);
        }
    }
}

fn widen_param(c: &mut Ctx, decl: usize, param: usize, set: u16, Ghost(p): Ghost<Program>, Ghost(start): Ghost<Ctx>)
    requires
        fits(*old(c), p),
        decl < p.fns@.len(),
        grows(start, *old(c)),
    ensures
        fits(*final(c), p),
        grows(start, *final(c)),
        keeps(*old(c), *final(c)),
        ctx_tagged(*old(c)) && tagged(set) ==> ctx_tagged(*final(c)),
        ({
            let o = *old(c);
            if param < o.params@[decl as int]@.len() && o.params@[decl as int]@[param as int] | set != o.params@[decl as int]@[param as int] {
                &&& *final(c) == (Ctx { params: final(c).params, changed: true, dirty_next: final(c).dirty_next, ..o })
                &&& final(c).dirty_next@ == o.dirty_next@.update(decl as int, true)
                &&& final(c).params@ == o.params@.update(decl as int, final(c).params@[decl as int])
                &&& final(c).params@[decl as int]@ == o.params@[decl as int]@.update(
                    param as int,
                    o.params@[decl as int]@[param as int] | set,
                )
            } else {
                *final(c) == o
            }
        }),
{
    if param >= c.params[decl].len() {
        return;
    }
    let now = c.params[decl][param];
    if now | set != now {
        let ghost before = c.params@;
        let ghost c1 = *c;
        c.params[decl][param] = now | set;
        proof {
            if ctx_tagged(c1) && tagged(set) {
                lemma_tagged_or(now, set);
                assert forall|i: int, j: int| 0 <= i < c.params@.len() && 0 <= j < c.params@[i]@.len() implies tagged(#[trigger] c.params@[i]@[j]) by {
                    if i != decl || j != param {
                        if i != decl {
                            assert(c.params@[i] == before[i]);
                        }
                        assert(c.params@[i]@[j] == c1.params@[i]@[j]);
                    }
                }
            }
        }
        c.changed = true;
        c.dirty_next[decl] = true;
        proof {
            lemma_within(now, set);
            assert forall|i: int, j: int| 0 <= i < c1.params@.len() && 0 <= j < c1.params@[i]@.len() implies within(
                c1.params@[i]@[j],
                #[trigger] c.params@[i]@[j],
            ) by {
                if i != decl || j != param {
                    assert(c.params@[i]@[j] == c1.params@[i]@[j]);
                    lemma_within(c1.params@[i]@[j], 0);
                }
            }
            assert forall|i: int| 0 <= i < c1.params@.len() implies (#[trigger] c.params@[i])@.len() == c1.params@[i]@.len() by {
                if i != decl {
                    assert(c.params@[i] == before[i]);
                }
            }
            lemma_grows_refl(c1);
            assert(grows(c1, *c));
            lemma_grows_trans(start, c1, *c);
        }
        assert forall|i: int| 0 <= i < p.fns@.len() implies (#[trigger] c.params@[i])@.len() == p.fns@[i].params@.len() by {
            if i != decl {
                assert(c.params@[i] == before[i]);
            }
        }
    }
}

/// Whether `x` is one of the indices in `s`.
pub open spec fn lists(s: Seq<usize>, x: int) -> bool {
    exists|j: int| 0 <= j < s.len() && s[j] as int == x
}

proof fn lemma_lists_push(s: Seq<usize>, v: usize, x: int)
    ensures
        lists(s.push(v), x) == (lists(s, x) || v as int == x),
{
    if lists(s, x) {
        let j = choose|j: int| 0 <= j < s.len() && s[j] as int == x;
        assert(s.push(v)[j] == s[j]);
    }
    if v as int == x {
        assert(s.push(v)[s.len() as int] == v);
    }
    if lists(s.push(v), x) {
        let j = choose|j: int| 0 <= j < s.push(v).len() && s.push(v)[j] as int == x;
        if j < s.len() {
            assert(s.push(v)[j] == s[j]);
        }
    }
}

fn widen_field(c: &mut Ctx, idx: usize, fi: usize, set: u16, Ghost(p): Ghost<Program>, Ghost(start): Ghost<Ctx>)
    requires
        fits(*old(c), p),
        idx < p.types@.len(),
        grows(start, *old(c)),
    ensures
        fits(*final(c), p),
        grows(start, *final(c)),
        keeps(*old(c), *final(c)),
        ctx_tagged(*old(c)) && tagged(set) ==> ctx_tagged(*final(c)),
        ({
            let o = *old(c);
            let fr = o.field_readers@[idx as int]@;
            if fi < o.type_fields@[idx as int]@.len() && o.type_fields@[idx as int]@[fi as int] | set != o.type_fields@[idx as int]@[fi as int] {
                &&& *final(c) == (Ctx {
                    type_fields: final(c).type_fields,
                    changed: true,
                    dirty: final(c).dirty,
                    dirty_next: final(c).dirty_next,
                    ..o
                })
                &&& final(c).type_fields@ == o.type_fields@.update(idx as int, final(c).type_fields@[idx as int])
                &&& final(c).type_fields@[idx as int]@ == o.type_fields@[idx as int]@.update(
                    fi as int,
                    o.type_fields@[idx as int]@[fi as int] | set,
                )
                &&& final(c).dirty@.len() == o.dirty@.len()
                &&& final(c).dirty_next@.len() == o.dirty_next@.len()
                &&& forall|x: int| 0 <= x < o.dirty@.len() ==> #[trigger] final(c).dirty@[x] == (o.dirty@[x] || lists(fr, x))
                &&& forall|x: int| 0 <= x < o.dirty_next@.len() ==> #[trigger] final(c).dirty_next@[x] == (o.dirty_next@[x] || lists(fr, x))
            } else {
                *final(c) == o
            }
        }),
{
    if fi >= c.type_fields[idx].len() {
        return;
    }
    let slot = c.type_fields[idx][fi];
    let refined = slot | set;
    if refined != slot {
        let ghost before = c.type_fields@;
        let ghost c1 = *c;
        c.type_fields[idx][fi] = refined;
        proof {
            if ctx_tagged(c1) && tagged(set) {
                lemma_tagged_or(slot, set);
                assert forall|i: int, j: int| 0 <= i < c.type_fields@.len() && 0 <= j < c.type_fields@[i]@.len() implies tagged(#[trigger] c.type_fields@[i]@[j]) by {
                    if i != idx || j != fi {
                        if i != idx {
                            assert(c.type_fields@[i] == before[i]);
                        }
                        assert(c.type_fields@[i]@[j] == c1.type_fields@[i]@[j]);
                    }
                }
            }
        }
        c.changed = true;
        proof {
            lemma_within(slot, set);
            assert forall|i: int, j: int| 0 <= i < c1.type_fields@.len() && 0 <= j < c1.type_fields@[i]@.len() implies within(
                c1.type_fields@[i]@[j],
                #[trigger] c.type_fields@[i]@[j],
            ) by {
                if i != idx || j != fi {
                    assert(c.type_fields@[i]@[j] == c1.type_fields@[i]@[j]);
                    lemma_within(c1.type_fields@[i]@[j], 0);
                }
            }
            assert forall|i: int| 0 <= i < p.types@.len() implies (#[trigger] c.type_fields@[i])@.len() == p.types@[i].fields@.len() by {
                if i != idx {
                    assert(c.type_fields@[i] == before[i]);
                }
            }
            lemma_grows_refl(c1);
            assert(grows(c1, *c));
            lemma_grows_trans(start, c1, *c);
        }
        let ghost c2 = *c;
        let mut r: usize = 0;
        while r < c.field_readers[idx].len()
            invariant
                fits(*c, p),
                grows(start, *c),
            keeps(*old(c), *c),
                idx < p.types@.len(),
                r <= c.field_readers@[idx as int]@.len(),
                *c == (Ctx { dirty: c.dirty, dirty_next: c.dirty_next, ..c2 }),
                c.dirty@.len() == c2.dirty@.len(),
                c.dirty_next@.len() == c2.dirty_next@.len(),
                forall|x: int| 0 <= x < c2.dirty@.len() ==> #[trigger] c.dirty@[x] == (c2.dirty@[x] || lists(c2.field_readers@[idx as int]@.subrange(0, r as int), x)),
                forall|x: int| 0 <= x < c2.dirty_next@.len() ==> #[trigger] c.dirty_next@[x] == (c2.dirty_next@[x] || lists(c2.field_readers@[idx as int]@.subrange(0, r as int), x)),
            decreases c.field_readers@[idx as int]@.len() - r,
        {
            let reader = c.field_readers[idx][r];
            let ghost fr = c2.field_readers@[idx as int]@;
            c.dirty.set(reader, true);
            c.dirty_next.set(reader, true);
            proof {
                assert(fr.subrange(0, r + 1) == fr.subrange(0, r as int).push(reader));
                assert forall|x: int| 0 <= x < c2.dirty@.len() implies #[trigger] c.dirty@[x] == (c2.dirty@[x] || lists(fr.subrange(0, r + 1), x)) by {
                    if x != reader as int {
                        assert(lists(fr.subrange(0, r + 1), x) == lists(fr.subrange(0, r as int), x));
                    } else {
                        assert(fr.subrange(0, r + 1)[r as int] == reader);
                    }
                    lemma_lists_push(fr.subrange(0, r as int), reader, x);
                }
                assert forall|x: int| 0 <= x < c2.dirty_next@.len() implies #[trigger] c.dirty_next@[x] == (c2.dirty_next@[x] || lists(fr.subrange(0, r + 1), x)) by {
                    if x != reader as int {
                        assert(lists(fr.subrange(0, r + 1), x) == lists(fr.subrange(0, r as int), x));
                    } else {
                        assert(fr.subrange(0, r + 1)[r as int] == reader);
                    }
                    lemma_lists_push(fr.subrange(0, r as int), reader, x);
                }
            }
            r += 1;
        }
        assert(c2.field_readers@[idx as int]@.subrange(0, r as int) == c2.field_readers@[idx as int]@);
    }
}

/// The bindings as names and sets.
pub open spec fn env_view(env: Seq<(String, u16)>) -> Seq<(Seq<char>, u16)> {
    env.map_values(|b: (String, u16)| (b.0@, b.1))
}

/// The set the field `fi` of the type found at `idx` is read with.
pub open spec fn field_set(c: Ctx, idx: Option<nat>, fi: int) -> u16 {
    match idx {
        Some(i) => if 0 <= fi < c.type_fields@[i as int]@.len() {
            c.type_fields@[i as int]@[fi]
        } else {
            TOP & !FAIL
        },
        None => TOP & !FAIL,
    }
}

/// What `p` binds, in order, when the whole value's set is `joined`: a
/// variable the set without failures, an annotated name its annotation's
/// set, a constructor's fields the sets seen in the type's fields, a keyed
/// pattern's entries any value.
pub open spec fn pattern_binds(p: Pattern, joined: u16, c: Ctx, prog: Program) -> Seq<(Seq<char>, u16)>
    decreases p, 1nat, 0nat,
{
    match p {
        Pattern::Var(name, _) => seq![(name@, joined & !FAIL)],
        Pattern::Annotated { name, ty, .. } => seq![(name@, crate::infer::admitted(ty@))],
        Pattern::Ctor { fields, .. } => field_binds(p, c, prog, fields@.len()),
        Pattern::Keyed { entries, .. } => entry_binds(p, c, prog, entries@.len()),
        _ => Seq::empty(),
    }
}

/// What the first `n` fields of the constructor pattern `p` bind.
pub open spec fn field_binds(p: Pattern, c: Ctx, prog: Program, n: nat) -> Seq<(Seq<char>, u16)>
    decreases p, 0nat, n,
{
    if n == 0 || !(p is Ctor) || n > p->Ctor_fields@.len() {
        Seq::empty()
    } else {
        field_binds(p, c, prog, (n - 1) as nat) + pattern_binds(
            p->Ctor_fields@[n - 1],
            field_set(c, type_slot(prog.types@, p->Ctor_ty@, prog.types@.len()), n - 1),
            c,
            prog,
        )
    }
}

/// What the first `n` entries of the keyed pattern `p` bind.
pub open spec fn entry_binds(p: Pattern, c: Ctx, prog: Program, n: nat) -> Seq<(Seq<char>, u16)>
    decreases p, 0nat, n,
{
    if n == 0 || !(p is Keyed) || n > p->Keyed_entries@.len() {
        Seq::empty()
    } else {
        entry_binds(p, c, prog, (n - 1) as nat) + pattern_binds(p->Keyed_entries@[n - 1].1, TOP & !FAIL, c, prog)
    }
}

/// Binds what `pattern` names in `env`, the whole value's set being `joined`.
fn bind_pattern(pattern: &Pattern, joined: u16, c: &Ctx, p: &Program, env: &mut Vec<(String, u16)>)
    requires
        fits(*c, *p),
        ctx_tagged(*c),
        tagged(joined),
        env_tagged(old(env)@),
    ensures
        env_view(final(env)@) == env_view(old(env)@) + pattern_binds(*pattern, joined, *c, *p),
        env_tagged(final(env)@),
    decreases *pattern,
{
    let ghost e0 = env@;
    match pattern {
        Pattern::Var(name, _) => {
            let b = (name.clone(), joined & !FAIL);
            proof {
                lemma_tagged_and(joined, !FAIL);
                lemma_env_push(env@, b);
            }
            env.push(b);
            assert(env_view(env@) =~= env_view(e0) + pattern_binds(*pattern, joined, *c, *p));
        },
        Pattern::Annotated { name, ty, .. } => {
            let b = (name.clone(), annotated_set(ty.as_str()));
            proof {
                crate::infer::lemma_admitted_tagged(ty@);
                lemma_env_push(env@, b);
            }
            env.push(b);
            assert(env_view(env@) =~= env_view(e0) + pattern_binds(*pattern, joined, *c, *p));
        },
        Pattern::Ctor { ty, fields, .. } => {
            let idx = type_index(p, ty.as_str());
            let tl = p.types.len();
            proof {
                lemma_type_slot(p.types@, ty@, p.types@.len());
            }
            let mut fi: usize = 0;
            while fi < fields.len()
                invariant
                    fits(*c, *p),
                    fi <= fields@.len(),
                    type_slot(p.types@, ty@, p.types@.len()) matches Some(i) ==> i < p.types@.len(),
                    tl == p.types@.len(),
                    idx == (match type_slot(p.types@, ty@, p.types@.len()) {
                        Some(i) => Some(i as usize),
                        None => None::<usize>,
                    }),
                    env_view(env@) == env_view(e0) + field_binds(*pattern, *c, *p, fi as nat),
                    ctx_tagged(*c),
                    env_tagged(env@),
                    *pattern == (Pattern::Ctor { ty: *ty, fields: *fields, whole: pattern->Ctor_whole }),
                    idx matches Some(i) ==> i < p.types@.len(),
                decreases fields@.len() - fi,
            {
                let s: u16 = match idx {
                    Some(i) => if fi < c.type_fields[i].len() { c.type_fields[i][fi] } else { TOP & !FAIL },
                    None => TOP & !FAIL,
                };
                assert(decreases_to!(*pattern => fields@[fi as int])) by {
                    assert(decreases_to!(*pattern => pattern->Ctor_fields));
                    assert(decreases_to!(pattern->Ctor_fields => pattern->Ctor_fields@));
                    assert(decreases_to!(pattern->Ctor_fields@ => pattern->Ctor_fields@[fi as int]));
                }
                proof {
                    lemma_tags();
                    match type_slot(p.types@, ty@, p.types@.len()) {
                        Some(i) => {
                            assert(idx == Some(i as usize));
                            assert((i as usize) as int == i as int);
                            assert(s == field_set(*c, Some(i), fi as int));
                        },
                        None => {},
                    }
                }
                bind_pattern(&fields[fi], s, c, p, env);
                fi += 1;
            }
        },
        Pattern::Keyed { entries, .. } => {
            let mut k: usize = 0;
            while k < entries.len()
                invariant
                    fits(*c, *p),
                    k <= entries@.len(),
                    *pattern == (Pattern::Keyed { entries: *entries, span: pattern->Keyed_span }),
                    env_view(env@) == env_view(e0) + entry_binds(*pattern, *c, *p, k as nat),
                    ctx_tagged(*c),
                    env_tagged(env@),
                decreases entries@.len() - k,
            {
                proof {
                    lemma_tags();
                }
                assert(decreases_to!(*pattern => entries@[k as int].1)) by {
                    assert(decreases_to!(*pattern => pattern->Keyed_entries));
                    assert(decreases_to!(pattern->Keyed_entries => pattern->Keyed_entries@));
                    assert(decreases_to!(pattern->Keyed_entries@ => pattern->Keyed_entries@[k as int]));
                    assert(decreases_to!(pattern->Keyed_entries@[k as int] => pattern->Keyed_entries@[k as int].1));
                }
                bind_pattern(&entries[k].1, TOP & !FAIL, c, p, env);
                k += 1;
            }
        },
        _ => {},
    }
}

fn is_lazy(c: &Ctx, p: &Program, index: usize) -> (r: bool)
    requires
        fits(*c, *p),
    ensures
        r == exists|k: int| 0 <= k < c.lazy@.len() && #[trigger] c.lazy@[k].1 == p.fns@[c.current as int].params@.len()
            && c.lazy@[k].2 == index && c.lazy@[k].0@ == p.fns@[c.current as int].name@,
{
    let d = &p.fns[c.current];
    let mut k: usize = 0;
    while k < c.lazy.len()
        invariant
            k <= c.lazy@.len(),
            *d == p.fns@[c.current as int],
            forall|q: int| 0 <= q < k ==> !(#[trigger] c.lazy@[q].1 == d.params@.len() && c.lazy@[q].2 == index && c.lazy@[q].0@ == d.name@),
        decreases c.lazy@.len() - k,
    {
        if c.lazy[k].1 == d.params.len() && c.lazy[k].2 == index && same_text(c.lazy[k].0.as_str(), d.name.as_str()) {
            return true;
        }
        k += 1;
    }
    false
}

fn yield_of_local(c: &Ctx, e: &Expr) -> (r: u16)
    ensures
        ctx_tagged(*c) ==> tagged(r),
        r == (match *e {
            Expr::Ident(name, _) => match env_get(c.yields@, name@, c.yields@.len()) {
                Some(y) => y,
                None => yield_of(*e),
            },
            _ => yield_of(*e),
        }),
{
    proof {
        lemma_yield_tagged(*e);
        if ctx_tagged(*c) && *e is Ident {
            lemma_env_get_tagged(c.yields@, e->Ident_0@, c.yields@.len());
        }
    }
    match e {
        Expr::Ident(name, _) => {
            match lookup(&c.yields, name.as_str()) {
                Some(y) => {
                    return y;
                },
                None => {},
            }
        },
        _ => {},
    }
    desc_yield(e)
}

fn strip_builtin(name: &str) -> (r: Vec<char>)
    ensures
        r@ == bare_name(name@),
{
    let full = crate::text::chars_of(name);
    let prefix = crate::text::chars_of("builtin_");
    proof {
        reveal_strlit("builtin_");
    }
    assert(full@.subrange(0, full@.len() as int) =~= full@);
    if crate::text::prefix_at(full.as_slice(), 0, prefix.as_slice()) {
        crate::text::slice_vec(full.as_slice(), 8, full.len())
    } else {
        full
    }
}

fn spelled(w: &Vec<char>, lit: &str) -> (r: bool)
    ensures
        r == (w@ == lit@),
{
    let l = crate::text::chars_of(lit);
    crate::text::same_chars(w.as_slice(), l.as_slice())
}

/// The index of the first function from `j` on that takes no parameters
/// and is named `name`: a constant.
pub open spec fn constant_from(fns: Seq<crate::ast::FnDecl>, name: Seq<char>, j: int) -> Option<nat>
    decreases fns.len() - j,
{
    if j < 0 || j >= fns.len() {
        None
    } else if fns[j].params@.len() == 0 && fns[j].name@ == name {
        Some(j as nat)
    } else {
        constant_from(fns, name, j + 1)
    }
}

/// The set a bare name answers: a local's set; the literals `true`,
/// `false` and `none`; a description for `args`, `stdin` and `now`; a
/// record for a type without fields; a constant's return set, with a thunk
/// where the constant is the function being walked; else a function value.
pub open spec fn ident_answer(c: Ctx, p: Program, name: Seq<char>, env: Seq<(String, u16)>) -> u16 {
    match env_get(env, name, env.len()) {
        Some(s) => s,
        None => {
            let b = bare_name(name);
            if b == "true"@ {
                TRUE
            } else if b == "false"@ {
                FALSE
            } else if b == "none"@ {
                NONE
            } else if b == "args"@ || b == "stdin"@ || b == "now"@ {
                DESC
            } else if (match type_slot(p.types@, name, p.types@.len()) {
                Some(i) => p.types@[i as int].fields@.len() == 0,
                None => false,
            }) {
                REC
            } else {
                match constant_from(p.fns@, name, 0) {
                    Some(j) => c.returns@[j as int] | (if c.current == j { THUNK } else { 0 }),
                    None => FN,
                }
            }
        },
    }
}

fn ident_set(c: &mut Ctx, p: &Program, name: &str, env: &Vec<(String, u16)>, Ghost(start): Ghost<Ctx>) -> (r: u16)
    requires
        ctx_tagged(*old(c)),
        env_tagged(env@),
        fits(*old(c), *p),
        grows(start, *old(c)),
    ensures
        fits(*final(c), *p),
        grows(start, *final(c)),
        keeps(*old(c), *final(c)),
        ctx_tagged(*final(c)),
        tagged(r),
        r == ident_answer(*old(c), *p, name@, env@),
{
    proof {
        lemma_tags();
        lemma_env_get_tagged(env@, name@, env@.len());
    }
    match lookup(env, name) {
        Some(s) => {
            return s;
        },
        None => {},
    }
    let base = strip_builtin(name);
    if spelled(&base, "true") {
        return TRUE;
    }
    if spelled(&base, "false") {
        return FALSE;
    }
    if spelled(&base, "none") {
        return NONE;
    }
    if spelled(&base, "args") || spelled(&base, "stdin") || spelled(&base, "now") {
        return DESC;
    }
    let tl = p.types.len();
    proof {
        lemma_type_slot(p.types@, name@, p.types@.len());
    }
    match type_index(p, name) {
        Some(i) => {
            if p.types[i].fields.len() == 0 {
                return REC;
            }
        },
        None => {},
    }
    assert(env_get(env@, name@, env@.len()) is None);
    assert(bare_name(name@) != "true"@ && bare_name(name@) != "false"@ && bare_name(name@) != "none"@);
    assert(!(bare_name(name@) == "args"@ || bare_name(name@) == "stdin"@ || bare_name(name@) == "now"@));
    assert(!(match type_slot(p.types@, name@, p.types@.len()) {
        Some(i) => p.types@[i as int].fields@.len() == 0,
        None => false,
    }));
    let n = p.fns.len();
    let mut j: usize = 0;
    while j < n
        invariant
            fits(*c, *p),
            grows(start, *c),
            keeps(*old(c), *c),
            ctx_tagged(*c),
            n == p.fns@.len(),
            j <= n,
            *c == *old(c),
            constant_from(p.fns@, name@, 0) == constant_from(p.fns@, name@, j as int),
            ident_answer(*old(c), *p, name@, env@) == (match constant_from(p.fns@, name@, 0) {
                Some(q) => old(c).returns@[q as int] | (if old(c).current == q { THUNK } else { 0 }),
                None => FN,
            }),
        decreases n - j,
    {
        if p.fns[j].params.len() == 0 && same_text(p.fns[j].name.as_str(), name) {
            let cur = c.current;
            assert(constant_from(p.fns@, name@, j as int) == Some(j as nat));
            add_reader(c, j, cur, Ghost(*p));
            let deferred: u16 = if c.current == j { THUNK } else { 0 };
            proof {
                lemma_tags();
                lemma_tagged_or(c.returns@[j as int], deferred);
            }
            return c.returns[j] | deferred;
        }
        j += 1;
    }
    assert(constant_from(p.fns@, name@, 0) is None);
    let mut j: usize = 0;
    while j < n
        invariant
            fits(*c, *p),
            grows(start, *c),
            keeps(*old(c), *c),
            ctx_tagged(*c),
            n == p.fns@.len(),
            j <= n,
        decreases n - j,
    {
        if same_text(p.fns[j].name.as_str(), name) {
            let arity = p.fns[j].params.len();
            let mut q: usize = 0;
            while q < arity
                invariant
                    fits(*c, *p),
                    grows(start, *c),
            keeps(*old(c), *c),
            ctx_tagged(*c),
                    j < n,
                    n == p.fns@.len(),
                    q <= arity,
                decreases arity - q,
            {
                proof {
                    lemma_tags();
                }
                widen_param(c, j, q, TOP, Ghost(*p), Ghost(start));
                q += 1;
            }
        }
        j += 1;
    }
    FN
}

fn fails_in(sets: &Vec<u16>) -> (r: u16)
    ensures
        r == fails_of(sets@),
{
    let mut out: u16 = 0;
    let mut k: usize = 0;
    while k < sets.len()
        invariant
            k <= sets@.len(),
            out == fails_of(sets@.subrange(0, k as int)),
        decreases sets@.len() - k,
    {
        assert(sets@.subrange(0, k + 1).drop_last() == sets@.subrange(0, k as int));
        out = out | (sets[k] & FAIL);
        k += 1;
    }
    assert(sets@.subrange(0, k as int) == sets@);
    out
}

fn at_or_none(sets: &Vec<u16>, k: usize) -> (r: u16)
    ensures
        r == (if k < sets@.len() { sets@[k as int] } else { 0 }),
{
    if k < sets.len() { sets[k] } else { 0 }
}

fn visit_count(work: &mut Work)
    ensures
        *final(work) == (if old(work).visits < u64::MAX {
            Work { visits: (old(work).visits + 1) as u64, ..*old(work) }
        } else {
            *old(work)
        }),
{
    if work.visits < u64::MAX {
        crate::infer::work::visit(work);
    }
}

/// Whether the answer `r` for the call `e` is what its head settles
/// whatever the arguments answer: any value for a call of a local or of a
/// computed head; an error for `err`, with a description where the call is
/// piped; a description for `print`; a record for a constructor or `entry`.
pub open spec fn head_answer(e: Expr, env: Seq<(String, u16)>, p: Program, r: u16) -> bool {
    match e {
        Expr::App { head, piped, .. } => match *head {
            Expr::Lambda { .. } => true,
            Expr::Ident(n, _) => if env_get(env, n@, env.len()) is Some {
                r == TOP
            } else if n@ == "if"@ {
                true
            } else if n@ == "err"@ {
                within(ERR, r) && (!piped ==> r == ERR)
            } else if n@ == "print"@ {
                within(DESC, r)
            } else if type_slot(p.types@, n@, p.types@.len()) is Some || n@ == "entry"@ {
                within(REC, r)
            } else {
                true
            },
            _ => r == TOP,
        },
        _ => true,
    }
}

/// Whether the `j`th function is an arm of the group `name` of `arity`
/// parameters.
pub open spec fn arm_of(p: Program, name: Seq<char>, arity: int, j: int) -> bool {
    0 <= j < p.fns@.len() && p.fns@[j].params@.len() == arity && p.fns@[j].name@ == name
}

/// What the builtin `n` answers on argument sets `s`; with no argument, a
/// builtin that reads its first argument reads the empty set.
pub open spec fn builtin_on(n: Seq<char>, s: Seq<u16>) -> u16 {
    if s.len() == 0 && reads_first(bare_name(n)) {
        crate::infer::builtin_answer(bare_name(n), seq![0u16])
    } else {
        crate::infer::builtin_answer(bare_name(n), s)
    }
}

/// Whether the answer `r` for the call `e` of a name that is neither a
/// local, a special form, a type nor `entry` is what it calls answers: a
/// user group's answer holds every arm's return set as it stood; a
/// builtin's answer, where the call is not piped, is the builtin's answer
/// on the arguments' sets.
pub open spec fn call_answer(e: Expr, env: Seq<(String, u16)>, p: Program, c0: Ctx, r: u16) -> bool {
    match e {
        Expr::App { head, args, piped, .. } => match *head {
            Expr::Ident(n, _) => {
                if env_get(env, n@, env.len()) is None && n@ != "if"@ && n@ != "err"@ && n@ != "print"@
                    && type_slot(p.types@, n@, p.types@.len()) is None && n@ != "entry"@ {
                    if exists|q: int| #[trigger] arm_of(p, n@, args@.len() as int, q) {
                        forall|q: int| #[trigger] arm_of(p, n@, args@.len() as int, q) ==> within(c0.returns@[q], r)
                    } else {
                        !piped ==> exists|s: Seq<u16>|
                            s.len() == args@.len() && r == #[trigger] builtin_on(n@, s)
                    }
                } else {
                    true
                }
            },
            _ => true,
        },
        _ => true,
    }
}

/// The set the call `e` may answer.
fn eval_call(c: &mut Ctx, p: &Program, e: &Expr, env: &Vec<(String, u16)>, work: &mut Work, Ghost(start): Ghost<Ctx>) -> (r: u16)
    requires
        ctx_tagged(*old(c)),
        env_tagged(env@),
        fits(*old(c), *p),
        grows(start, *old(c)),
        e is App,
    ensures
        fits(*final(c), *p),
        grows(start, *final(c)),
        keeps(*old(c), *final(c)),
        ctx_tagged(*final(c)),
        tagged(r),
        final(work).rounds == old(work).rounds && final(work).passes == old(work).passes && final(work).visits >= old(work).visits,
        head_answer(*e, env@, *p, r),
        call_answer(*e, env@, *p, *old(c), r),
    decreases size(*e), 1nat,
{
    proof {
        lemma_tagged_rules();
    }
    let (head, args, piped) = match e {
        Expr::App { head, args, piped, .. } => (head, args, *piped),
        _ => {
            return TOP;
        },
    };
    proof {
        lemma_parts_smaller(*e);
        lemma_tagged_rules();
    }
    let mut sets: Vec<u16> = Vec::new();
    let mut k: usize = 0;
    while k < args.len()
        invariant
            env_tagged(env@),
            forall|i: int| 0 <= i < sets@.len() ==> tagged(#[trigger] sets@[i]),
            fits(*c, *p),
            grows(start, *c),
            keeps(*old(c), *c),
            ctx_tagged(*c),
            work.rounds == old(work).rounds && work.passes == old(work).passes && work.visits >= old(work).visits,
            k <= args@.len(),
            *e is App && e->App_args == *args,
            forall|i: int| 0 <= i < args@.len() ==> size(#[trigger] args@[i]) < size(*e),
            sets@.len() == k,
        decreases args@.len() - k,
    {
        proof {
            lemma_tagged_rules();
        }
        let s = eval_expr(c, p, &args[k], env, work, Ghost(start));
        sets.push(s);
        k += 1;
    }
    let mut piped_bits: u16 = 0;
    assert(0u16 | 288u16 == 288u16) by (bit_vector);
    if piped && sets.len() > 0 && sets[0] & DESC != 0 {
        let s0 = sets[0];
        assert(((s0 & 32u16) | 256u16) | 288u16 == 288u16) by (bit_vector);
        piped_bits = (sets[0] & FAIL) | DESC;
        let y = yield_of_local(c, &args[0]);
        let first = (sets[0] & !DESC & !FAIL) | y;
        sets.set(0, first);
        proof {
            lemma_tagged_rules();
            assert forall|i: int| 0 <= i < sets@.len() implies tagged(#[trigger] sets@[i]) by {
            }
        }
    }
    assert(piped_bits | 288u16 == 288u16 ==> (16383u16 | piped_bits) == 16383u16) by (bit_vector);
    assert((32u16 | (32u16 | piped_bits)) == (32u16 | piped_bits)) by (bit_vector);
    assert(!piped ==> piped_bits == 0);
    assert(piped_bits | 288u16 == 288u16 ==> piped_bits | 16383u16 == 16383u16) by (bit_vector);
    assert((32u16 | 0u16) == 32u16) by (bit_vector);
    match &**head {
        Expr::Lambda { params, body, .. } => {
            let mut inner = copy_env(env);
            let mut q: usize = 0;
            while q < params.len() && q < sets.len()
                invariant
                    env_tagged(inner@),
                    env_tagged(env@),
                    forall|i: int| 0 <= i < sets@.len() ==> tagged(#[trigger] sets@[i]),
                    q <= params@.len(),
                decreases params@.len() - q,
            {
                proof {
                    lemma_tagged_rules();
                }
                proof {
                    lemma_tagged_rules();
                    lemma_env_push(inner@, (params@[q as int].0, sets@[q as int] & !FAIL));
                }
                inner.push((params[q].0.clone(), sets[q] & !FAIL));
                q += 1;
            }
            let fails = fails_in(&sets);
            proof {
                lemma_fails_tagged(sets@);
            }
            assert(size(**body) < size(**head));
            return eval_expr(c, p, body, &inner, work, Ghost(start)) | fails | piped_bits;
        },
        Expr::Ident(..) => {},
        _ => {
            let _ = eval_expr(c, p, head, env, work, Ghost(start));
            return TOP | piped_bits;
        },
    }
    let name = match &**head {
        Expr::Ident(n, _) => n.as_str(),
        _ => {
            return TOP | piped_bits;
        },
    };
    if lookup(env, name).is_some() {
        return TOP | piped_bits;
    }
    if same_text(name, "if") {
        let cond_fail = at_or_none(&sets, 0) & FAIL;
        return at_or_none(&sets, 1) | at_or_none(&sets, 2) | cond_fail | piped_bits;
    }
    if same_text(name, "err") {
        return ERR | piped_bits;
    }
    if same_text(name, "print") {
        let f0 = at_or_none(&sets, 0) & FAIL;
        assert((256u16 | (256u16 | f0 | piped_bits)) == (256u16 | f0 | piped_bits)) by (bit_vector);
        return DESC | f0 | piped_bits;
    }
    match type_index(p, name) {
        Some(idx) => {
            let mut fi: usize = 0;
            while fi < sets.len()
                invariant
                    env_tagged(env@),
                    forall|i: int| 0 <= i < sets@.len() ==> tagged(#[trigger] sets@[i]),
                    fits(*c, *p),
                    grows(start, *c),
            keeps(*old(c), *c),
            ctx_tagged(*c),
            work.rounds == old(work).rounds && work.passes == old(work).passes && work.visits >= old(work).visits,
                    idx < p.types@.len(),
                    fi <= sets@.len(),
                decreases sets@.len() - fi,
            {
                proof {
                    lemma_tagged_rules();
                }
                widen_field(c, idx, fi, sets[fi] & !FAIL, Ghost(*p), Ghost(start));
                fi += 1;
            }
            let fs = fails_in(&sets);
        proof {
            lemma_fails_tagged(sets@);
        }
            proof {
                lemma_fails_tagged(sets@);
            }
            assert((128u16 | (128u16 | fs | piped_bits)) == (128u16 | fs | piped_bits)) by (bit_vector);
            return REC | fs | piped_bits;
        },
        None => {},
    }
    if same_text(name, "entry") {
        let fs = fails_in(&sets);
        proof {
            lemma_fails_tagged(sets@);
        }
        assert((128u16 | (128u16 | fs | piped_bits)) == (128u16 | fs | piped_bits)) by (bit_vector);
        return REC | fs | piped_bits;
    }
    assert(type_slot(p.types@, name@, p.types@.len()) is None);
    let n = p.fns.len();
    let arity = args.len();
    let mut any = false;
    let mut caught_out: u16 = 0;
    let mut pos: usize = 0;
    while pos < sets.len()
        invariant
            any ==> exists|q: int| #[trigger] arm_of(*p, name@, arity as int, q),
            arity == args@.len(),
            sets@.len() == arity,
            tagged(caught_out),
            env_tagged(env@),
            forall|i: int| 0 <= i < sets@.len() ==> tagged(#[trigger] sets@[i]),
            fits(*c, *p),
            grows(start, *c),
            keeps(*old(c), *c),
            ctx_tagged(*c),
            work.rounds == old(work).rounds && work.passes == old(work).passes && work.visits >= old(work).visits,
            n == p.fns@.len(),
            pos <= sets@.len(),
        decreases sets@.len() - pos,
    {
        proof {
            lemma_tagged_rules();
        }
        let mut caught: u16 = 0;
        let mut j: usize = 0;
        while j < n
            invariant
                any ==> exists|q: int| #[trigger] arm_of(*p, name@, arity as int, q),
                tagged(caught),
                env_tagged(env@),
                forall|i: int| 0 <= i < sets@.len() ==> tagged(#[trigger] sets@[i]),
                n == p.fns@.len(),
                j <= n,
            decreases n - j,
        {
            proof {
                lemma_tagged_rules();
            }
            let d = &p.fns[j];
            if d.params.len() == arity && same_text(d.name.as_str(), name) {
                assert(arm_of(*p, name@, arity as int, j as int));
                any = true;
                if pos < d.params.len() {
                    caught = caught | pattern_catches(&d.params[pos]);
                }
            }
            j += 1;
        }
        caught_out = caught_out | ((sets[pos] & FAIL) & !caught);
        pos += 1;
    }
    let mut j: usize = 0;
    let mut out: u16 = caught_out;
    let mut member = any;
    while j < n
        invariant
            any ==> exists|q: int| #[trigger] arm_of(*p, name@, arity as int, q),
            member == (any || exists|q: int| 0 <= q < j && #[trigger] arm_of(*p, name@, arity as int, q)),
            forall|q: int| 0 <= q < j && #[trigger] arm_of(*p, name@, arity as int, q) ==> within(old(c).returns@[q], out),
            arity == args@.len(),
            sets@.len() == arity,
            tagged(out),
            env_tagged(env@),
            forall|i: int| 0 <= i < sets@.len() ==> tagged(#[trigger] sets@[i]),
            fits(*c, *p),
            grows(start, *c),
            keeps(*old(c), *c),
            ctx_tagged(*c),
            work.rounds == old(work).rounds && work.passes == old(work).passes && work.visits >= old(work).visits,
            n == p.fns@.len(),
            j <= n,
        decreases n - j,
    {
        proof {
            lemma_tagged_rules();
        }
        if p.fns[j].params.len() == arity && same_text(p.fns[j].name.as_str(), name) {
            member = true;
            let mut q: usize = 0;
            while q < sets.len()
                invariant
                    env_tagged(env@),
                    forall|i: int| 0 <= i < sets@.len() ==> tagged(#[trigger] sets@[i]),
                    fits(*c, *p),
                    grows(start, *c),
            keeps(*old(c), *c),
            ctx_tagged(*c),
            work.rounds == old(work).rounds && work.passes == old(work).passes && work.visits >= old(work).visits,
                    j < n,
                    n == p.fns@.len(),
                    q <= sets@.len(),
                decreases sets@.len() - q,
            {
                proof {
                    lemma_tagged_rules();
                }
                widen_param(c, j, q, sets[q], Ghost(*p), Ghost(start));
                q += 1;
            }
            let cur = c.current;
            add_reader(c, j, cur, Ghost(*p));
            let out0 = out;
            let rj = c.returns[j];
            out = out | rj;
            proof {
                assert(arm_of(*p, name@, arity as int, j as int));
                lemma_within(rj, out0);
                assert(rj | out0 == out0 | rj) by (bit_vector);
                assert forall|q: int| 0 <= q < j && #[trigger] arm_of(*p, name@, arity as int, q) implies within(old(c).returns@[q], out) by {
                    lemma_within(out0, c.returns@[j as int]);
                    lemma_within_trans(old(c).returns@[q], out0, out);
                }
            }
        }
        j += 1;
    }
    proof {
        assert(member == exists|q: int| #[trigger] arm_of(*p, name@, arity as int, q));
        lemma_within(out, piped_bits);
        assert forall|q: int| #[trigger] arm_of(*p, name@, arity as int, q) implies within(old(c).returns@[q], out | piped_bits) by {
            lemma_within_trans(old(c).returns@[q], out, out | piped_bits);
        }
    }
    if member {
        return out | piped_bits;
    }
    if sets.len() == 0 && reads_first_exec(name) {
        let none: Vec<u16> = vec![0];
        proof {
            lemma_builtin_tagged(bare_name(name@), none@);
        }
        let b = builtin_set(name, none.as_slice());
        proof {
            assert(none@ =~= seq![0u16]);
            assert(b | 0u16 == b) by (bit_vector);
            assert(!piped ==> b | piped_bits == builtin_on(name@, sets@));
        }
        return b | piped_bits;
    }
    proof {
        lemma_builtin_tagged(bare_name(name@), sets@);
    }
    let b = builtin_set(name, sets.as_slice());
    proof {
        assert(b | 0u16 == b) by (bit_vector);
        assert(!piped ==> b | piped_bits == builtin_on(name@, sets@));
    }
    b | piped_bits
}

fn reads_first_exec(name: &str) -> (r: bool)
    ensures
        r == reads_first(bare_name(name@)),
{
    let b = strip_builtin(name);
    let at = crate::text::chars_of("at");
    let slice = crate::text::chars_of("slice");
    crate::text::same_chars(b.as_slice(), at.as_slice()) || crate::text::same_chars(b.as_slice(), slice.as_slice())
}

/// Whether the walk's answer `r` for `e` is what the form of `e` settles
/// whatever its parts answer: a literal's tag; any value for a partial
/// application or a field; a list, a map or a function for their forms; a
/// description that may fail for a join; a string or a description with
/// only its parts' failures; a miss for an index; an integer or a boolean
/// with only the operands' failures for bit and comparison operators; a
/// division that may fail; none for a block with no expression statement.
pub open spec fn form_answer(e: Expr, r: u16) -> bool {
    match e {
        Expr::Int(..) => r == INT,
        Expr::Float(..) => r == FLOAT,
        Expr::Partial(..) => r == TOP,
        Expr::Field { .. } => r == TOP,
        Expr::List(..) => r == LIST,
        Expr::MapLit(..) => r == MAP,
        Expr::Lambda { .. } => r == FN,
        Expr::Join { .. } => r == DESC | ERR,
        Expr::Str(..) => r == STR | (r & FAIL),
        Expr::Sequence(..) => r == DESC | (r & FAIL),
        Expr::Index { strict, .. } => within(if strict { ERR } else { NONE }, r),
        Expr::BinOp { op, .. } => match op {
            Op::Plus => true,
            Op::Minus => true,
            Op::Star => true,
            Op::Slash => within(ERR, r),
            Op::Percent => within(ERR, r),
            Op::Amp => r == INT | (r & FAIL),
            Op::Bar => r == INT | (r & FAIL),
            Op::Caret => r == INT | (r & FAIL),
            _ => r == BOOL | (r & FAIL),
        },
        Expr::Block(ss, _) => (forall|i: int| 0 <= i < ss@.len() ==> !(#[trigger] ss@[i] is Expr)) ==> r == NONE,
        Expr::Build(ss, _) => (forall|i: int| 0 <= i < ss@.len() ==> !(#[trigger] ss@[i] is Expr)) ==> r == NONE,
        _ => true,
    }
}

/// The set `e` may evaluate to, under the local sets `env`.
fn eval_expr(c: &mut Ctx, p: &Program, e: &Expr, env: &Vec<(String, u16)>, work: &mut Work, Ghost(start): Ghost<Ctx>) -> (r: u16)
    requires
        ctx_tagged(*old(c)),
        env_tagged(env@),
        fits(*old(c), *p),
        grows(start, *old(c)),
    ensures
        fits(*final(c), *p),
        grows(start, *final(c)),
        keeps(*old(c), *final(c)),
        ctx_tagged(*final(c)),
        tagged(r),
        final(work).rounds == old(work).rounds && final(work).passes == old(work).passes && final(work).visits >= old(work).visits,
        form_answer(*e, r),
        e is Ident ==> r == ident_answer(*old(c), *p, e->Ident_0@, env@),
    decreases size(*e), 2nat,
{
    proof {
        lemma_tagged_rules();
    }
    visit_count(work);
    proof {
        lemma_tagged_rules();
        lemma_parts_smaller(*e);
        crate::ast::lemma_children_smaller(*e);
    }
    match e {
        Expr::Int(..) => INT,
        Expr::Float(..) => FLOAT,
        Expr::Partial(..) => TOP,
        Expr::Upcast { expr, .. } => {
            assert(crate::ast::children(*e)[0] == **expr);
            eval_expr(c, p, expr, env, work, Ghost(start))
        },
        Expr::Block(stmts, _) | Expr::Build(stmts, _) => {
            assert forall|i: int| 0 <= i < stmts@.len() implies size(#[trigger] stmt_expr(stmts@[i])) < size(*e) by {
                assert(crate::ast::children(*e)[i] == stmt_exprs(stmts@)[i]);
            }
            let mut inner = copy_env(env);
            let mut result: u16 = NONE;
            let mut k: usize = 0;
            while k < stmts.len()
                invariant
                    tagged(result),
                    env_tagged(inner@),
                    env_tagged(env@),
                    fits(*c, *p),
                    grows(start, *c),
            keeps(*old(c), *c),
            ctx_tagged(*c),
            work.rounds == old(work).rounds && work.passes == old(work).passes && work.visits >= old(work).visits,
                    k <= stmts@.len(),
                    forall|i: int| 0 <= i < stmts@.len() ==> size(#[trigger] stmt_expr(stmts@[i])) < size(*e),
                    (forall|i: int| 0 <= i < k ==> !(#[trigger] stmts@[i] is Expr)) ==> result == NONE,
                decreases stmts@.len() - k,
            {
                proof {
                    lemma_tagged_rules();
                }
                match &stmts[k] {
                    Stmt::Bind { pattern, expr } => {
                        assert(stmt_expr(stmts@[k as int]) == *expr);
                        let value = eval_expr(c, p, expr, &inner, work, Ghost(start));
                        match pattern {
                            Pattern::Var(name, _) => {
                                proof {
                                    lemma_env_push(inner@, (*name, value));
                                }
                                inner.push((name.clone(), value));
                            },
                            _ => bind_pattern(pattern, value, c, p, &mut inner),
                        }
                    },
                    Stmt::Expr(x) => {
                        assert(stmt_expr(stmts@[k as int]) == *x);
                        result = eval_expr(c, p, x, &inner, work, Ghost(start));
                    },
                    Stmt::Assign { value, .. } => {
                        assert(stmt_expr(stmts@[k as int]) == *value);
                        let _ = eval_expr(c, p, value, &inner, work, Ghost(start));
                    },
                }
                k += 1;
            }
            result
        },
        Expr::Field { base, .. } => {
            let _ = eval_expr(c, p, base, env, work, Ghost(start));
            TOP
        },
        Expr::Str(parts, _) => {
            let mut fails: u16 = 0;
            assert(0u16 & 32u16 == 0u16) by (bit_vector);
            let mut k: usize = 0;
            while k < parts.len()
                invariant
                    env_tagged(env@),
                    fits(*c, *p),
                    grows(start, *c),
            keeps(*old(c), *c),
            ctx_tagged(*c),
            work.rounds == old(work).rounds && work.passes == old(work).passes && work.visits >= old(work).visits,
                    k <= parts@.len(),
                    tagged(fails),
                    fails & FAIL == fails,
                    *e is Str && e->Str_0 == *parts,
                decreases parts@.len() - k,
            {
                proof {
                    lemma_tagged_rules();
                }
                match &parts[k] {
                    TemplatePart::Interp(inner) => {
                        proof {
                            crate::ast::lemma_interps_has(parts@, k as int);
                            crate::ast::lemma_children_smaller(*e);
                            let j = choose|j: int| 0 <= j < crate::ast::interps(parts@).len() && crate::ast::interps(parts@)[j] == **inner;
                            assert(crate::ast::children(*e)[j] == **inner);
                        }
                        let x = eval_expr(c, p, inner, env, work, Ghost(start));
                        assert((fails & 32u16) == fails ==> ((fails | (x & 32u16)) & 32u16) == (fails | (x & 32u16))) by (bit_vector);
                        fails = fails | (x & FAIL);
                    },
                    _ => {},
                }
                k += 1;
            }
            assert((fails & 32u16) == fails ==> (64u16 | fails) == (64u16 | ((64u16 | fails) & 32u16))) by (bit_vector);
            STR | fails
        },
        Expr::Ident(name, _) => ident_set(c, p, name.as_str(), env, Ghost(start)),
        Expr::List(items, _) => {
            let mut k: usize = 0;
            while k < items.len()
                invariant
                    env_tagged(env@),
                    fits(*c, *p),
                    grows(start, *c),
            keeps(*old(c), *c),
            ctx_tagged(*c),
            work.rounds == old(work).rounds && work.passes == old(work).passes && work.visits >= old(work).visits,
                    k <= items@.len(),
                    *e is List && e->List_0 == *items,
                    forall|i: int| 0 <= i < crate::ast::children(*e).len() ==> size(#[trigger] crate::ast::children(*e)[i]) < size(*e),
                decreases items@.len() - k,
            {
                proof {
                    lemma_tagged_rules();
                }
                assert(crate::ast::children(*e)[k as int] == items@[k as int]);
                let _ = eval_expr(c, p, &items[k], env, work, Ghost(start));
                k += 1;
            }
            LIST
        },
        Expr::MapLit(pairs, _) => {
            proof {
                crate::ast::lemma_pair_exprs(pairs@);
            }
            let mut k: usize = 0;
            while k < pairs.len()
                invariant
                    env_tagged(env@),
                    fits(*c, *p),
                    grows(start, *c),
            keeps(*old(c), *c),
            ctx_tagged(*c),
            work.rounds == old(work).rounds && work.passes == old(work).passes && work.visits >= old(work).visits,
                    k <= pairs@.len(),
                    *e is MapLit && e->MapLit_0 == *pairs,
                    crate::ast::children(*e) == crate::ast::pair_exprs(pairs@),
                    crate::ast::pair_exprs(pairs@).len() == 2 * pairs@.len(),
                    forall|q: int| 0 <= q < pairs@.len() ==> crate::ast::pair_exprs(pairs@)[2 * q] == (#[trigger] pairs@[q]).0 && crate::ast::pair_exprs(pairs@)[2 * q + 1] == pairs@[q].1,
                    forall|i: int| 0 <= i < crate::ast::children(*e).len() ==> size(#[trigger] crate::ast::children(*e)[i]) < size(*e),
                decreases pairs@.len() - k,
            {
                proof {
                    lemma_tagged_rules();
                }
                assert(crate::ast::children(*e)[2 * k] == pairs@[k as int].0);
                assert(crate::ast::children(*e)[2 * k + 1] == pairs@[k as int].1);
                let _ = eval_expr(c, p, &pairs[k].0, env, work, Ghost(start));
                let _ = eval_expr(c, p, &pairs[k].1, env, work, Ghost(start));
                k += 1;
            }
            MAP
        },
        Expr::Index { base, index, strict, .. } => {
            assert(crate::ast::children(*e)[0] == **base && crate::ast::children(*e)[1] == **index);
            let b = eval_expr(c, p, base, env, work, Ghost(start));
            let k = eval_expr(c, p, index, env, work, Ghost(start));
            let miss: u16 = if *strict { ERR } else { NONE };
            let mut out: u16 = (b & FAIL) | (k & FAIL) | miss;
            assert((miss | ((b & 32u16) | (k & 32u16) | miss)) == ((b & 32u16) | (k & 32u16) | miss)) by (bit_vector);
            if b & BYTES != 0 {
                assert((miss | out) == out ==> (miss | (out | 1u16)) == (out | 1u16)) by (bit_vector);
                out = out | INT;
            }
            if b & (LIST | MAP | STR) != 0 {
                let deferred: u16 = if c.defers { THUNK } else { 0 };
                let more: u16 = (TOP & !FAIL & !THUNK) | deferred;
                assert((miss | out) == out ==> (miss | (out | more)) == (out | more)) by (bit_vector);
                out = out | more;
            }
            out
        },
        Expr::Sequence(l, r, _) => {
            assert(crate::ast::children(*e)[0] == **l && crate::ast::children(*e)[1] == **r);
            let a = eval_expr(c, p, l, env, work, Ghost(start));
            let b = eval_expr(c, p, r, env, work, Ghost(start));
            assert((256u16 | (a & 32u16) | (b & 32u16)) == (256u16 | ((256u16 | (a & 32u16) | (b & 32u16)) & 32u16))) by (bit_vector);
            DESC | (a & FAIL) | (b & FAIL)
        },
        Expr::Lambda { body, params, .. } => {
            let mut inner = copy_env(env);
            let mut q: usize = 0;
            while q < params.len()
                invariant
                    env_tagged(inner@),
                    env_tagged(env@),
                    q <= params@.len(),
                decreases params@.len() - q,
            {
                proof {
                    lemma_tagged_rules();
                }
                proof {
                    lemma_env_push(inner@, (params@[q as int].0, TOP & !FAIL));
                }
                inner.push((params[q].0.clone(), TOP & !FAIL));
                q += 1;
            }
            let _ = eval_expr(c, p, body, &inner, work, Ghost(start));
            FN
        },
        Expr::BinOp { op, lhs, rhs, .. } => {
            assert(crate::ast::children(*e)[0] == **lhs && crate::ast::children(*e)[1] == **rhs);
            let a = eval_expr(c, p, lhs, env, work, Ghost(start));
            let b = eval_expr(c, p, rhs, env, work, Ghost(start));
            let fails = (a & FAIL) | (b & FAIL);
            proof {
                lemma_numeric_tagged(a, b);
            }
            assert(((a & 32u16) | (b & 32u16) | 1u16) == (1u16 | (((a & 32u16) | (b & 32u16) | 1u16) & 32u16))) by (bit_vector);
            assert((12u16 | ((a & 32u16) | (b & 32u16))) == (12u16 | ((12u16 | ((a & 32u16) | (b & 32u16))) & 32u16))) by (bit_vector);
            match op {
                Op::Plus | Op::Minus | Op::Star => fails | numeric_result(a, b),
                Op::Slash | Op::Percent => {
                    let nr = numeric_result(a, b);
                    assert((32u16 | (fails | 32u16 | nr)) == (fails | 32u16 | nr)) by (bit_vector);
                    fails | ERR | nr
                },
                Op::Amp | Op::Bar | Op::Caret => fails | INT,
                _ => BOOL | fails,
            }
        },
        Expr::Guard { cond, early, rest, .. } => {
            let cs = eval_expr(c, p, cond, env, work, Ghost(start));
            let mut benv = copy_env(env);
            let taken = eval_expr(c, p, early, env, work, Ghost(start));
            let not_taken = eval_body(c, p, rest, &mut benv, work, Ghost(size(*e)), Ghost(start));
            (cs & FAIL) | taken | not_taken
        },
        Expr::Join { lhs, rhs, .. } => {
            assert(crate::ast::children(*e)[0] == **lhs && crate::ast::children(*e)[1] == **rhs);
            let a = eval_expr(c, p, lhs, env, work, Ghost(start));
            let b = eval_expr(c, p, rhs, env, work, Ghost(start));
            assert((256u16 | ((a | b) & 32u16) | 32u16) == (256u16 | 32u16)) by (bit_vector);
            DESC | ((a | b) & FAIL) | ERR
        },
        Expr::App { .. } => eval_call(c, p, e, env, work, Ghost(start)),
    }
}

/// The set a function body may answer: its last expression statement's,
/// or none; each binding extends `env` for the statements after it.
fn eval_body(
    c: &mut Ctx,
    p: &Program,
    body: &Vec<Stmt>,
    env: &mut Vec<(String, u16)>,
    work: &mut Work,
    Ghost(bound): Ghost<nat>,
    Ghost(start): Ghost<Ctx>,
) -> (r: u16)
    requires
        ctx_tagged(*old(c)),
        env_tagged(old(env)@),
        fits(*old(c), *p),
        grows(start, *old(c)),
        forall|i: int| 0 <= i < body@.len() ==> size(#[trigger] stmt_expr(body@[i])) < bound,
    ensures
        fits(*final(c), *p),
        grows(start, *final(c)),
        keeps(*old(c), *final(c)),
        ctx_tagged(*final(c)),
        env_tagged(final(env)@),
        tagged(r),
        final(work).rounds == old(work).rounds && final(work).passes == old(work).passes && final(work).visits >= old(work).visits,
        (forall|i: int| 0 <= i < body@.len() ==> !(#[trigger] body@[i] is Expr)) ==> r == NONE,
        old(env)@.len() <= final(env)@.len(),
        env_view(final(env)@).subrange(0, old(env)@.len() as int) == env_view(old(env)@),
    decreases bound, 0nat,
{
    proof {
        lemma_tagged_rules();
    }
    let mut result: u16 = NONE;
    let mut index: usize = 0;
    while index < body.len()
        invariant
            tagged(result),
            env_tagged(env@),
            fits(*c, *p),
            grows(start, *c),
            keeps(*old(c), *c),
            ctx_tagged(*c),
            work.rounds == old(work).rounds && work.passes == old(work).passes && work.visits >= old(work).visits,
            index <= body@.len(),
            (forall|i: int| 0 <= i < index ==> !(#[trigger] body@[i] is Expr)) ==> result == NONE,
            old(env)@.len() <= env@.len(),
            env_view(env@).subrange(0, old(env)@.len() as int) == env_view(old(env)@),
            forall|i: int| 0 <= i < body@.len() ==> size(#[trigger] stmt_expr(body@[i])) < bound,
        decreases body@.len() - index,
    {
        proof {
            lemma_tagged_rules();
        }
        match &body[index] {
            Stmt::Bind { pattern, expr } => {
                assert(stmt_expr(body@[index as int]) == *expr);
                let mut value = eval_expr(c, p, expr, env, work, Ghost(start));
                if is_lazy(c, p, index) {
                    value = value | THUNK;
                }
                match pattern {
                    Pattern::Var(name, _) => {
                        if value & DESC != 0 {
                            let y = yield_of_local(c, expr);
                            c.yields.push((name.clone(), y));
                        }
                        let ghost e1 = env@;
                        proof {
                            lemma_env_push(env@, (*name, value));
                        }
                        env.push((name.clone(), value));
                        assert(env_view(env@) =~= env_view(e1).push((name@, value)));
                        assert(env_view(env@).subrange(0, old(env)@.len() as int) =~= env_view(e1).subrange(0, old(env)@.len() as int));
                    },
                    _ => {
                        let ghost e1 = env@;
                        bind_pattern(pattern, value, c, p, env);
                        assert(env_view(env@).subrange(0, old(env)@.len() as int) =~= env_view(e1).subrange(0, old(env)@.len() as int));
                        assert(env@.len() == env_view(env@).len());
                    },
                }
            },
            Stmt::Expr(x) => {
                assert(stmt_expr(body@[index as int]) == *x);
                result = eval_expr(c, p, x, env, work, Ghost(start));
            },
            Stmt::Assign { value, .. } => {
                assert(stmt_expr(body@[index as int]) == *value);
                let _ = eval_expr(c, p, value, env, work, Ghost(start));
            },
        }
        index += 1;
    }
    result
}

/// The type `ty` names, by index, where the program declares it.
pub open spec fn own_type(ty: Seq<char>, types: Seq<crate::ast::TypeDecl>) -> Seq<usize> {
    match type_slot(types, ty, types.len()) {
        Some(i) => seq![i as usize],
        None => Seq::empty(),
    }
}

/// The types the constructor patterns in `p` open, outermost first, each
/// field's after the pattern's own.
pub open spec fn pattern_types(p: Pattern, types: Seq<crate::ast::TypeDecl>) -> Seq<usize>
    decreases p, 1nat, 0nat,
{
    proof {
        lemma_tagged_rules();
    }
    match p {
        Pattern::Ctor { ty, fields, .. } => own_type(ty@, types) + fields_types(p, types, fields@.len()),
        _ => Seq::empty(),
    }
}

/// What the first `n` fields of the constructor pattern `p` open, in order.
pub open spec fn fields_types(p: Pattern, types: Seq<crate::ast::TypeDecl>, n: nat) -> Seq<usize>
    decreases p, 0nat, n,
{
    proof {
        lemma_tagged_rules();
    }
    if n == 0 || !(p is Ctor) || n > p->Ctor_fields@.len() {
        Seq::empty()
    } else {
        fields_types(p, types, (n - 1) as nat) + pattern_types(p->Ctor_fields@[n - 1], types)
    }
}

/// What a statement's pattern and expression open.
pub open spec fn stmt_types(s: Stmt, types: Seq<crate::ast::TypeDecl>) -> Seq<usize> {
    match s {
        Stmt::Bind { pattern, expr } => pattern_types(pattern, types) + expr_types(expr, types),
        Stmt::Expr(x) => expr_types(x, types),
        Stmt::Assign { value, .. } => expr_types(value, types),
    }
}

/// What the statements of blocks and builds inside `e` open: a block's
/// own statements first, then each sub-expression's in order.
pub open spec fn expr_types(e: Expr, types: Seq<crate::ast::TypeDecl>) -> Seq<usize>
    decreases size(e), 2nat, 0nat,
{
    proof {
        lemma_tagged_rules();
    }
    block_types(e, types, block_len(e)) + kids_types(e, types, crate::ast::children(e).len())
}

/// How many statements `e` holds as a block or a build.
pub open spec fn block_len(e: Expr) -> nat {
    match e {
        Expr::Block(ss, _) => ss@.len(),
        Expr::Build(ss, _) => ss@.len(),
        _ => 0,
    }
}

/// The statements `e` holds as a block or a build.
pub open spec fn block_stmts(e: Expr) -> Seq<Stmt> {
    match e {
        Expr::Block(ss, _) => ss@,
        Expr::Build(ss, _) => ss@,
        _ => Seq::empty(),
    }
}

/// What the first `n` statements of the block or build `e` open.
pub open spec fn block_types(e: Expr, types: Seq<crate::ast::TypeDecl>, n: nat) -> Seq<usize>
    decreases size(e), 1nat, n,
    via block_types_decreases
{
    if n == 0 || n > block_len(e) {
        Seq::empty()
    } else {
        block_types(e, types, (n - 1) as nat) + match block_stmts(e)[n - 1] {
            Stmt::Bind { pattern, expr } => pattern_types(pattern, types) + expr_types(expr, types),
            Stmt::Expr(x) => expr_types(x, types),
            Stmt::Assign { value, .. } => expr_types(value, types),
        }
    }
}

#[via_fn]
proof fn block_types_decreases(e: Expr, types: Seq<crate::ast::TypeDecl>, n: nat) {
    crate::ast::lemma_children_smaller(e);
    if n > 0 && n <= block_len(e) {
        assert(crate::ast::children(e)[n - 1] == stmt_exprs(block_stmts(e))[n - 1]);
    }
}

/// What the first `n` direct sub-expressions of `e` open.
pub open spec fn kids_types(e: Expr, types: Seq<crate::ast::TypeDecl>, n: nat) -> Seq<usize>
    decreases size(e), 0nat, n,
    via kids_types_decreases
{
    if n == 0 || n > crate::ast::children(e).len() {
        Seq::empty()
    } else {
        kids_types(e, types, (n - 1) as nat) + expr_types(crate::ast::children(e)[n - 1], types)
    }
}

#[via_fn]
proof fn kids_types_decreases(e: Expr, types: Seq<crate::ast::TypeDecl>, n: nat) {
    crate::ast::lemma_children_smaller(e);
}

/// The types whose constructor patterns `p` opens, itself or nested in its
/// fields, pushed onto `out` by index.
fn ctor_types(pat: &Pattern, prog: &Program, out: &mut Vec<usize>)
    requires
        forall|k: int| 0 <= k < old(out)@.len() ==> #[trigger] old(out)@[k] < prog.types@.len(),
    ensures
        forall|k: int| 0 <= k < final(out)@.len() ==> #[trigger] final(out)@[k] < prog.types@.len(),
        final(out)@ == old(out)@ + pattern_types(*pat, prog.types@),
    decreases *pat,
{
    match pat {
        Pattern::Ctor { ty, fields, .. } => {
            let ghost o0 = out@;
            match type_index(prog, ty.as_str()) {
                Some(i) => out.push(i),
                None => {},
            }
            assert(out@ == o0 + own_type(ty@, prog.types@));
            let ghost o1 = out@;
            let mut f: usize = 0;
            while f < fields.len()
                invariant
                    f <= fields@.len(),
                    out@ == o1 + fields_types(*pat, prog.types@, f as nat),
                    *pat == (Pattern::Ctor { ty: *ty, fields: *fields, whole: pat->Ctor_whole }),
                    forall|k: int| 0 <= k < out@.len() ==> #[trigger] out@[k] < prog.types@.len(),
                decreases fields@.len() - f,
            {
                assert(decreases_to!(*pat => fields@[f as int])) by {
                    assert(decreases_to!(*pat => pat->Ctor_fields));
                    assert(decreases_to!(pat->Ctor_fields => pat->Ctor_fields@));
                    assert(decreases_to!(pat->Ctor_fields@ => pat->Ctor_fields@[f as int]));
                }
                ctor_types(&fields[f], prog, out);
                assert(fields_types(*pat, prog.types@, (f + 1) as nat) == fields_types(*pat, prog.types@, f as nat) + pattern_types(fields@[f as int], prog.types@));
                f += 1;
            }
            assert(out@ == o0 + pattern_types(*pat, prog.types@));
        },
        _ => {
            assert(out@ == old(out)@ + pattern_types(*pat, prog.types@));
        },
    }
}

/// The types whose constructor patterns the statements of a block or a
/// build inside `e` open, and those bound by the statements themselves.
fn expr_ctor_types(e: &Expr, prog: &Program, out: &mut Vec<usize>)
    requires
        forall|k: int| 0 <= k < old(out)@.len() ==> #[trigger] old(out)@[k] < prog.types@.len(),
    ensures
        forall|k: int| 0 <= k < final(out)@.len() ==> #[trigger] final(out)@[k] < prog.types@.len(),
        final(out)@ == old(out)@ + expr_types(*e, prog.types@),
    decreases size(*e), 1nat,
{
    proof {
        crate::ast::lemma_children_smaller(*e);
    }
    match e {
        Expr::Block(stmts, _) | Expr::Build(stmts, _) => {
            assert forall|i: int| 0 <= i < stmts@.len() implies size(#[trigger] stmt_expr(stmts@[i])) < size(*e) by {
                assert(crate::ast::children(*e)[i] == stmt_exprs(stmts@)[i]);
            }
            let mut k: usize = 0;
            while k < stmts.len()
                invariant
                    k <= stmts@.len(),
                    block_stmts(*e) == stmts@,
                    forall|i: int| 0 <= i < stmts@.len() ==> size(#[trigger] stmt_expr(stmts@[i])) < size(*e),
                    forall|q: int| 0 <= q < out@.len() ==> #[trigger] out@[q] < prog.types@.len(),
                    out@ == old(out)@ + block_types(*e, prog.types@, k as nat),
                decreases stmts@.len() - k,
            {
                stmt_ctor_types(&stmts[k], prog, out, Ghost(size(*e)));
                assert(block_types(*e, prog.types@, (k + 1) as nat) == block_types(*e, prog.types@, k as nat) + stmt_types(stmts@[k as int], prog.types@));
                k += 1;
            }
        },
        _ => {},
    }
    assert(out@ == old(out)@ + block_types(*e, prog.types@, block_len(*e)));
    let ghost o1 = out@;
    let kids = crate::ast::for_each_child(e);
    let mut i: usize = 0;
    while i < kids.len()
        invariant
            i <= kids@.len(),
            out@ == o1 + kids_types(*e, prog.types@, i as nat),
            crate::ast::refs(kids@) == crate::ast::children(*e),
            forall|j: int| 0 <= j < crate::ast::children(*e).len() ==> size(#[trigger] crate::ast::children(*e)[j]) < size(*e),
            forall|q: int| 0 <= q < out@.len() ==> #[trigger] out@[q] < prog.types@.len(),
        decreases kids@.len() - i,
    {
        let child = kids[i];
        assert(crate::ast::refs(kids@)[i as int] == *child);
        expr_ctor_types(child, prog, out);
        assert(kids_types(*e, prog.types@, (i + 1) as nat) == kids_types(*e, prog.types@, i as nat) + expr_types(crate::ast::children(*e)[i as int], prog.types@));
        i += 1;
    }
    assert(kids@.len() == crate::ast::children(*e).len());
}

fn stmt_ctor_types(s: &Stmt, prog: &Program, out: &mut Vec<usize>, Ghost(bound): Ghost<nat>)
    requires
        size(stmt_expr(*s)) < bound,
        forall|k: int| 0 <= k < old(out)@.len() ==> #[trigger] old(out)@[k] < prog.types@.len(),
    ensures
        forall|k: int| 0 <= k < final(out)@.len() ==> #[trigger] final(out)@[k] < prog.types@.len(),
        final(out)@ == old(out)@ + stmt_types(*s, prog.types@),
    decreases bound, 0nat,
{
    match s {
        Stmt::Bind { pattern, expr } => {
            ctor_types(pattern, prog, out);
            expr_ctor_types(expr, prog, out);
        },
        Stmt::Expr(x) => expr_ctor_types(x, prog, out),
        Stmt::Assign { value, .. } => expr_ctor_types(value, prog, out),
    }
}

/// Per type, the functions whose patterns destructure it, in order: a
/// field's set growing wakes these and no other.
fn field_readers(prog: &Program) -> (r: Vec<Vec<usize>>)
    ensures
        r@.len() == prog.types@.len(),
        forall|i: int, j: int| 0 <= i < r@.len() && 0 <= j < r@[i]@.len() ==> #[trigger] r@[i]@[j] < prog.fns@.len(),
{
    let t = prog.types.len();
    let n = prog.fns.len();
    let mut readers: Vec<Vec<usize>> = Vec::new();
    while readers.len() < t
        invariant
            readers@.len() <= t,
            forall|i: int, j: int| 0 <= i < readers@.len() && 0 <= j < readers@[i]@.len() ==> #[trigger] readers@[i]@[j] < n,
        decreases t - readers@.len(),
    {
        let ghost before = readers@;
        readers.push(Vec::new());
        assert forall|i: int, j: int| 0 <= i < readers@.len() && 0 <= j < readers@[i]@.len() implies #[trigger] readers@[i]@[j] < n by {
            if i < before.len() {
                assert(readers@[i] == before[i]);
            }
        }
    }
    let mut d: usize = 0;
    while d < n
        invariant
            n == prog.fns@.len(),
            t == prog.types@.len(),
            d <= n,
            readers@.len() == t,
            forall|i: int, j: int| 0 <= i < readers@.len() && 0 <= j < readers@[i]@.len() ==> #[trigger] readers@[i]@[j] < n,
        decreases n - d,
    {
        let decl = &prog.fns[d];
        let mut seen: Vec<usize> = Vec::new();
        let mut k: usize = 0;
        while k < decl.params.len()
            invariant
                k <= decl.params@.len(),
                forall|q: int| 0 <= q < seen@.len() ==> #[trigger] seen@[q] < prog.types@.len(),
            decreases decl.params@.len() - k,
        {
            ctor_types(&decl.params[k], prog, &mut seen);
            k += 1;
        }
        let mut k: usize = 0;
        while k < decl.body.len()
            invariant
                k <= decl.body@.len(),
                forall|q: int| 0 <= q < seen@.len() ==> #[trigger] seen@[q] < prog.types@.len(),
            decreases decl.body@.len() - k,
        {
            stmt_ctor_types(&decl.body[k], prog, &mut seen, Ghost(size(stmt_expr(decl.body@[k as int])) + 1));
            k += 1;
        }
        let mut ty: usize = 0;
        while ty < t
            invariant
                n == prog.fns@.len(),
                t == prog.types@.len(),
                d < n,
                ty <= t,
                readers@.len() == t,
                forall|i: int, j: int| 0 <= i < readers@.len() && 0 <= j < readers@[i]@.len() ==> #[trigger] readers@[i]@[j] < n,
            decreases t - ty,
        {
            let mut hit = false;
            let mut q: usize = 0;
            while q < seen.len()
                invariant
                    q <= seen@.len(),
                decreases seen@.len() - q,
            {
                if seen[q] == ty {
                    hit = true;
                }
                q += 1;
            }
            if hit {
                let ghost before = readers@;
                readers[ty].push(d);
                assert forall|i: int, j: int| 0 <= i < readers@.len() && 0 <= j < readers@[i]@.len() implies #[trigger] readers@[i]@[j] < n by {
                    if i != ty {
                        assert(readers@[i] == before[i]);
                    } else if j < before[i]@.len() {
                        assert(readers@[i]@[j] == before[i]@[j]);
                    }
                }
            }
            ty += 1;
        }
        d += 1;
    }
    readers
}

/// Whether `e` is the name `name`, bare or partially applied.
pub open spec fn is_mention(e: Expr, name: Seq<char>) -> bool {
    match e {
        Expr::Ident(n, _) => n@ == name,
        Expr::Partial(n, _) => n@ == name,
        _ => false,
    }
}

/// Whether `e` mentions `name` anywhere.
pub open spec fn mentions(e: Expr, name: Seq<char>) -> bool
    decreases size(e), 1nat, 0nat,
{
    is_mention(e, name) || mentions_among(e, name, crate::ast::children(e).len())
}

/// Whether one of the first `n` direct sub-expressions of `e` mentions `name`.
pub open spec fn mentions_among(e: Expr, name: Seq<char>, n: nat) -> bool
    decreases size(e), 0nat, n,
    via mentions_among_decreases
{
    if n == 0 || n > crate::ast::children(e).len() {
        false
    } else {
        mentions_among(e, name, (n - 1) as nat) || mentions(crate::ast::children(e)[n - 1], name)
    }
}

#[via_fn]
proof fn mentions_among_decreases(e: Expr, name: Seq<char>, n: nat) {
    crate::ast::lemma_children_smaller(e);
}

/// Whether a function of no parameters mentions its own name in its body.
pub open spec fn mentions_itself(d: crate::ast::FnDecl) -> bool {
    d.params@.len() == 0 && exists|k: int| 0 <= k < d.body@.len() && mentions(#[trigger] stmt_expr(d.body@[k]), d.name@)
}

/// Whether `e` mentions the name `name` anywhere.
fn mentions_name(e: &Expr, name: &str) -> (r: bool)
    ensures
        r == mentions(*e, name@),
    decreases size(*e),
{
    match e {
        Expr::Ident(n, _) => {
            if same_text(n.as_str(), name) {
                return true;
            }
        },
        Expr::Partial(n, _) => {
            if same_text(n.as_str(), name) {
                return true;
            }
        },
        _ => {},
    }
    proof {
        crate::ast::lemma_children_smaller(*e);
    }
    assert(!is_mention(*e, name@));
    let kids = crate::ast::for_each_child(e);
    let mut i: usize = 0;
    while i < kids.len()
        invariant
            i <= kids@.len(),
            crate::ast::refs(kids@) == crate::ast::children(*e),
            forall|j: int| 0 <= j < crate::ast::children(*e).len() ==> size(#[trigger] crate::ast::children(*e)[j]) < size(*e),
            !mentions_among(*e, name@, i as nat),
        decreases kids@.len() - i,
    {
        let child = kids[i];
        assert(crate::ast::refs(kids@)[i as int] == *child);
        if mentions_name(child, name) {
            assert(mentions_among(*e, name@, (i + 1) as nat));
            proof {
                lemma_mentions_among(*e, name@, (i + 1) as nat, kids@.len());
            }
            return true;
        }
        i += 1;
    }
    false
}

proof fn lemma_mentions_among(e: Expr, name: Seq<char>, k: nat, m: nat)
    requires
        k <= m <= crate::ast::children(e).len(),
        mentions_among(e, name, k),
    ensures
        mentions_among(e, name, m),
    decreases m - k,
{
    if k < m {
        lemma_mentions_among(e, name, k, (m - 1) as nat);
    }
}

/// Whether some constant mentions itself in its own body: such a mention is
/// a thunk in a storing position, so every container read may meet one.
fn defers_into_containers(prog: &Program) -> (r: bool)
    ensures
        r == exists|d: int| 0 <= d < prog.fns@.len() && mentions_itself(#[trigger] prog.fns@[d]),
{
    let mut d: usize = 0;
    while d < prog.fns.len()
        invariant
            d <= prog.fns@.len(),
            forall|q: int| 0 <= q < d ==> !mentions_itself(#[trigger] prog.fns@[q]),
        decreases prog.fns@.len() - d,
    {
        let decl = &prog.fns[d];
        if decl.params.len() == 0 {
            let mut k: usize = 0;
            while k < decl.body.len()
                invariant
                    k <= decl.body@.len(),
                    d < prog.fns@.len(),
                    *decl == prog.fns@[d as int],
                    decl.params@.len() == 0,
                    forall|q: int| 0 <= q < k ==> !mentions(#[trigger] stmt_expr(decl.body@[q]), decl.name@),
                decreases decl.body@.len() - k,
            {
                if mentions_name(crate::ast::stmt_expr_of(&decl.body[k]), decl.name.as_str()) {
                    assert(mentions(stmt_expr(decl.body@[k as int]), decl.name@));
                    assert(mentions_itself(prog.fns@[d as int]));
                    return true;
                }
                k += 1;
            }
        }
        d += 1;
    }
    false
}

/// Whether `inf` has one set per parameter of every function, one return
/// set per function and one set per field of every type.
pub open spec fn shaped(inf: Inference, p: Program) -> bool {
    &&& inf.params@.len() == p.fns@.len()
    &&& forall|i: int| 0 <= i < p.fns@.len() ==> (#[trigger] inf.params@[i])@.len() == p.fns@[i].params@.len()
    &&& inf.returns@.len() == p.fns@.len()
    &&& inf.type_fields@.len() == p.types@.len()
    &&& forall|i: int| 0 <= i < p.types@.len() ==> (#[trigger] inf.type_fields@[i])@.len() == p.types@[i].fields@.len()
}

/// Every set an inference answers holds only tags.
pub open spec fn inference_tagged(r: Inference) -> bool {
    &&& forall|i: int| 0 <= i < r.returns@.len() ==> tagged(#[trigger] r.returns@[i])
    &&& forall|i: int, j: int| 0 <= i < r.params@.len() && 0 <= j < r.params@[i]@.len() ==> tagged(#[trigger] r.params@[i]@[j])
    &&& forall|i: int, j: int|
        0 <= i < r.type_fields@.len() && 0 <= j < r.type_fields@[i]@.len() ==> tagged(#[trigger] r.type_fields@[i]@[j])
}

fn zeros(n: usize) -> (r: Vec<u16>)
    ensures
        r@.len() == n,
        forall|i: int| 0 <= i < n ==> #[trigger] r@[i] == 0,
{
    let mut v: Vec<u16> = Vec::new();
    while v.len() < n
        invariant
            v@.len() <= n,
            forall|i: int| 0 <= i < v@.len() ==> #[trigger] v@[i] == 0,
        decreases n - v@.len(),
    {
        v.push(0);
    }
    v
}

fn flags(n: usize, b: bool) -> (r: Vec<bool>)
    ensures
        r@.len() == n,
{
    let mut v: Vec<bool> = Vec::new();
    while v.len() < n
        invariant
            v@.len() <= n,
        decreases n - v@.len(),
    {
        v.push(b);
    }
    v
}

/// One walk of the function `i`: its parameters bound to the sets seen at
/// its calls, its body walked, and its return set widened by what the walk
/// found, waking every function that read it.
pub fn walk_one(c: &mut Ctx, p: &Program, i: usize, work: &mut Work)
    requires
        fits(*old(c), *p),
        ctx_tagged(*old(c)),
        i < p.fns@.len(),
    ensures
        fits(*final(c), *p),
        grows(*old(c), *final(c)),
        ctx_tagged(*final(c)),
        final(c).current == i,
        final(c).lazy == old(c).lazy && final(c).defers == old(c).defers,
        forall|k: int| 0 <= k < old(c).returns@.len() && k != i ==> #[trigger] final(c).returns@[k] == old(c).returns@[k],
        final(c).returns@[i as int] != old(c).returns@[i as int] ==> final(c).changed && forall|k: int|
            0 <= k < final(c).readers@[i as int]@.len() ==> final(c).dirty@[#[trigger] final(c).readers@[i as int]@[k] as int]
                && final(c).dirty_next@[final(c).readers@[i as int]@[k] as int],
        final(work).rounds == old(work).rounds && final(work).passes == old(work).passes && final(work).visits >= old(work).visits,
{
    let ghost start = *c;
    proof {
        lemma_grows_refl(start);
    }
    let decl = &p.fns[i];
    c.current = i;
    c.yields = Vec::new();
    let ghost c0 = *c;
    let mut env: Vec<(String, u16)> = Vec::new();
    let param_sets = c.params[i].clone();
    assert(param_sets@ =~= c.params@[i as int]@);
    assert(ctx_tagged(*c));
    let mut q: usize = 0;
    while q < decl.params.len() && q < param_sets.len()
        invariant
            ctx_tagged(*c),
            env_tagged(env@),
            i < p.fns@.len(),
            param_sets@ == c.params@[i as int]@,
            fits(*c, *p),
            grows(start, *c),
            *c == c0,
            q <= decl.params@.len(),
        decreases decl.params@.len() - q,
    {
        bind_pattern(&decl.params[q], param_sets[q], c, p, &mut env);
        q += 1;
    }
    proof {
        crate::ast::lemma_stmts_size(decl.body@, decl.body@.len());
        assert forall|k: int| 0 <= k < decl.body@.len() implies size(#[trigger] stmt_expr(decl.body@[k])) < stmts_size(decl.body@, decl.body@.len()) + 1 by {
            assert(stmt_exprs(decl.body@)[k] == stmt_expr(decl.body@[k]));
        }
    }
    let ret = eval_body(c, p, &decl.body, &mut env, work, Ghost(stmts_size(decl.body@, decl.body@.len()) + 1), Ghost(start));
    let now = c.returns[i];
    if ret | now != now {
        let ghost c1 = *c;
        proof {
            lemma_tagged_rules();
        }
        c.returns.set(i, ret | now);
        c.changed = true;
        assert(ctx_tagged(*c)) by {
            assert forall|k: int| 0 <= k < c.returns@.len() implies tagged(#[trigger] c.returns@[k]) by {
                if k != i {
                    assert(c.returns@[k] == c1.returns@[k]);
                }
            }
        }
        proof {
            lemma_within(now, ret);
            assert(now | ret == ret | now) by (bit_vector);
            assert forall|k: int| 0 <= k < c1.returns@.len() implies within(c1.returns@[k], #[trigger] c.returns@[k]) by {
                if k != i {
                    lemma_within(c1.returns@[k], 0);
                }
            }
            lemma_grows_refl(c1);
            assert(grows(c1, *c));
            lemma_grows_trans(start, c1, *c);
        }
        let readers = c.readers[i].clone();
        let ghost c2 = *c;
        let mut k: usize = 0;
        while k < readers.len()
            invariant
                fits(*c, *p),
                grows(start, *c),
                i < p.fns@.len(),
                readers@ == c.readers@[i as int]@,
                k <= readers@.len(),
                ctx_tagged(*c),
                *c == (Ctx { dirty: c.dirty, dirty_next: c.dirty_next, ..c2 }),
                c.changed,
                forall|q: int| 0 <= q < k ==> c.dirty@[#[trigger] readers@[q] as int] && c.dirty_next@[readers@[q] as int],
            decreases readers@.len() - k,
        {
            let r = readers[k];
            c.dirty.set(r, true);
            c.dirty_next.set(r, true);
            k += 1;
        }
    }
}

/// The whole-program inference: every function starts with empty sets and
/// is walked, callees first and then alternating direction, until a round
/// widens nothing or two hundred rounds have run. `lazy` lists the (name,
/// arity, statement) positions whose binding holds a thunk.
pub fn infer(p: &Program, lazy: &Vec<(String, usize, usize)>, work: &mut Work) -> (r: Inference)
    ensures
        shaped(r, *p),
        final(work).passes == (if old(work).passes < u64::MAX { (old(work).passes + 1) as u64 } else { old(work).passes }),
        p.fns@.len() == 0 ==> final(work).rounds == old(work).rounds,
        p.fns@.len() > 0 && old(work).rounds + 200 <= u64::MAX ==> old(work).rounds + 1 <= final(work).rounds <= old(work).rounds
            + 200,
        final(work).visits >= old(work).visits,
        inference_tagged(r),
{
    proof {
        lemma_tags();
    }
    if work.passes < u64::MAX {
        crate::infer::work::pass(work);
    }
    let n = p.fns.len();
    let t = p.types.len();
    let mut params: Vec<Vec<u16>> = Vec::new();
    while params.len() < n
        invariant
            n == p.fns@.len(),
            params@.len() <= n,
            forall|i: int| 0 <= i < params@.len() ==> (#[trigger] params@[i])@.len() == p.fns@[i].params@.len(),
            forall|i: int, j: int| 0 <= i < params@.len() && 0 <= j < params@[i]@.len() ==> #[trigger] params@[i]@[j] == 0,
        decreases n - params@.len(),
    {
        let k = params.len();
        let ghost before = params@;
        params.push(zeros(p.fns[k].params.len()));
        assert forall|i: int, j: int| 0 <= i < params@.len() && 0 <= j < params@[i]@.len() implies #[trigger] params@[i]@[j] == 0 by {
            if i < before.len() {
                assert(params@[i] == before[i]);
            }
        }
    }
    let mut type_fields: Vec<Vec<u16>> = Vec::new();
    while type_fields.len() < t
        invariant
            t == p.types@.len(),
            type_fields@.len() <= t,
            forall|i: int| 0 <= i < type_fields@.len() ==> (#[trigger] type_fields@[i])@.len() == p.types@[i].fields@.len(),
            forall|i: int, j: int| 0 <= i < type_fields@.len() && 0 <= j < type_fields@[i]@.len() ==> #[trigger] type_fields@[i]@[j] == 0,
        decreases t - type_fields@.len(),
    {
        let k = type_fields.len();
        let ghost before = type_fields@;
        type_fields.push(zeros(p.types[k].fields.len()));
        assert forall|i: int, j: int| 0 <= i < type_fields@.len() && 0 <= j < type_fields@[i]@.len() implies #[trigger] type_fields@[i]@[j] == 0 by {
            if i < before.len() {
                assert(type_fields@[i] == before[i]);
            }
        }
    }
    if n == 0 {
        return Inference { params, returns: Vec::new(), type_fields };
    }
    let mut readers: Vec<Vec<usize>> = Vec::new();
    while readers.len() < n
        invariant
            readers@.len() <= n,
            forall|i: int, j: int| 0 <= i < readers@.len() && 0 <= j < readers@[i]@.len() ==> #[trigger] readers@[i]@[j] < n,
        decreases n - readers@.len(),
    {
        let ghost before = readers@;
        readers.push(Vec::new());
        assert forall|i: int, j: int| 0 <= i < readers@.len() && 0 <= j < readers@[i]@.len() implies #[trigger] readers@[i]@[j] < n by {
            if i < before.len() {
                assert(readers@[i] == before[i]);
            }
        }
    }
    let mut c = Ctx {
        defers: defers_into_containers(p),
        current: 0,
        readers,
        dirty_next: flags(n, false),
        dirty: flags(n, true),
        field_readers: field_readers(p),
        yields: Vec::new(),
        params,
        returns: zeros(n),
        type_fields,
        changed: true,
        lazy: lazy.clone(),
    };
    assert(ctx_tagged(c));
    let order = callee_first(p);
    let mut rounds: usize = 0;
    let ghost w0 = *work;
    while c.changed && rounds < 200
        invariant
            ctx_tagged(c),
            rounds <= 200,
            rounds == 0 ==> c.changed,
            work.passes == w0.passes,
            work.visits >= w0.visits,
            w0.rounds + 200 <= u64::MAX ==> work.rounds == w0.rounds + rounds,
            work.rounds >= w0.rounds,
            fits(c, *p),
            n == p.fns@.len(),
            order@.len() == n,
            forall|k: int| 0 <= k < order@.len() ==> #[trigger] order@[k] < n,
        decreases 200 - rounds,
    {
        c.changed = false;
        rounds += 1;
        if work.rounds < u64::MAX {
            crate::infer::work::round(work);
        }
        c.dirty_next = flags(n, false);
        let forward = rounds % 2 == 1;
        let mut k: usize = 0;
        while k < n
            invariant
                ctx_tagged(c),
                fits(c, *p),
                n == p.fns@.len(),
                order@.len() == n,
                forall|q: int| 0 <= q < order@.len() ==> #[trigger] order@[q] < n,
                k <= n,
                work.passes == w0.passes,
                work.visits >= w0.visits,
                w0.rounds + 200 <= u64::MAX ==> work.rounds == w0.rounds + rounds,
                work.rounds >= w0.rounds,
            decreases n - k,
        {
            let i = if forward { order[k] } else { order[n - 1 - k] };
            if c.dirty[i] {
                walk_one(&mut c, p, i, work);
            }
            k += 1;
        }
        let mut next = flags(n, false);
        std::mem::swap(&mut next, &mut c.dirty_next);
        c.dirty = next;
    }
    Inference { params: c.params, returns: c.returns, type_fields: c.type_fields }
}

} // verus!
