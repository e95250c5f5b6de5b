//! Type names settle on one spelling: a clone that an import enrolled under
//! another name is written, wherever a type is expected, as the type it was
//! cloned from.

use vstd::prelude::*;
use crate::ast::{FnDecl, Pattern, Program, Stmt, TypeDecl};

verus! {

/// The name the last of the first `k` types called `n` was cloned from, if
/// that one is a clone. A later declaration of a name decides over an earlier
/// one.
pub open spec fn alias_in(types: Seq<TypeDecl>, n: Seq<char>, k: nat) -> Option<Seq<char>>
    decreases k,
{
    if k == 0 || k > types.len() {
        None
    } else {
        let t = types[k - 1];
        if t.name@ == n && t.origin is Some {
            Some(t.origin->0@)
        } else {
            alias_in(types, n, (k - 1) as nat)
        }
    }
}

/// The spelling a type reference `n` settles on.
pub open spec fn canon_name(types: Seq<TypeDecl>, n: Seq<char>) -> Seq<char> {
    match alias_in(types, n, types.len()) {
        Some(c) => c,
        None => n,
    }
}

/// Whether some type is a clone, so that there is anything to settle.
pub open spec fn has_clones(types: Seq<TypeDecl>) -> bool {
    exists|i: int| 0 <= i < types.len() && (#[trigger] types[i]).origin is Some
}

/// `b` is the pattern `a` with every type it names settled: the type of a
/// constructor pattern and of an annotation. Nothing else changes.
pub open spec fn pattern_canon(types: Seq<TypeDecl>, a: Pattern, b: Pattern) -> bool
    decreases a, 1nat, 0nat,
{
    match a {
        Pattern::Ctor { ty, fields, whole } => {
            &&& b matches Pattern::Ctor { ty: t2, fields: f2, whole: w2 }
            &&& t2@ == canon_name(types, ty@) && w2 == whole && f2@.len() == fields@.len()
            &&& fields_canon(types, a, b, fields@.len())
        },
        Pattern::Annotated { name, ty, span } => {
            &&& b matches Pattern::Annotated { name: n2, ty: t2, span: s2 }
            &&& n2 == name && s2 == span && t2@ == canon_name(types, ty@)
        },
        _ => b == a,
    }
}

/// The first `n` sub-patterns of the constructor pattern `b` are those of
/// `a`, settled.
pub open spec fn fields_canon(types: Seq<TypeDecl>, a: Pattern, b: Pattern, n: nat) -> bool
    decreases a, 0nat, n,
{
    if n == 0 {
        true
    } else if !(a is Ctor) || !(b is Ctor) || n > a->Ctor_fields@.len() || n > b->Ctor_fields@.len() {
        false
    } else {
        fields_canon(types, a, b, (n - 1) as nat)
            && pattern_canon(types, a->Ctor_fields@[n - 1], b->Ctor_fields@[n - 1])
    }
}

proof fn lemma_fields_canon(types: Seq<TypeDecl>, a: Pattern, b: Pattern, n: nat)
    requires
        a is Ctor && b is Ctor,
        n <= a->Ctor_fields@.len() && n <= b->Ctor_fields@.len(),
        forall|i: int| 0 <= i < n ==> #[trigger] pattern_canon(types, a->Ctor_fields@[i], b->Ctor_fields@[i]),
    ensures
        fields_canon(types, a, b, n),
    decreases n,
{
    if n > 0 {
        lemma_fields_canon(types, a, b, (n - 1) as nat);
        assert(pattern_canon(types, a->Ctor_fields@[n - 1], b->Ctor_fields@[n - 1]));
    }
}

/// `b` is the statement `a` with a binding's pattern settled.
pub open spec fn stmt_canon(types: Seq<TypeDecl>, a: Stmt, b: Stmt) -> bool {
    match a {
        Stmt::Bind { pattern, expr } => b matches Stmt::Bind { pattern: p2, expr: e2 } && e2 == expr
            && pattern_canon(types, pattern, p2),
        _ => b == a,
    }
}

/// `b` is the declaration `a` with its parameters and bindings settled.
pub open spec fn decl_canon(types: Seq<TypeDecl>, a: FnDecl, b: FnDecl) -> bool {
    &&& b.name == a.name && b.is_pub == a.is_pub && b.span == a.span
    &&& b.file == a.file && b.synthetic == a.synthetic
    &&& b.params@.len() == a.params@.len() && b.body@.len() == a.body@.len()
    &&& forall|i: int| 0 <= i < a.params@.len() ==> #[trigger] pattern_canon(types, a.params@[i], b.params@[i])
    &&& forall|i: int| 0 <= i < a.body@.len() ==> #[trigger] stmt_canon(types, a.body@[i], b.body@[i])
}

/// `b` is the field `a` with each type it admits settled.
pub open spec fn field_canon(types: Seq<TypeDecl>, a: (String, Vec<String>, crate::diag::Span), b: (String, Vec<String>, crate::diag::Span)) -> bool {
    &&& b.0 == a.0 && b.2 == a.2 && b.1@.len() == a.1@.len()
    &&& forall|j: int| 0 <= j < a.1@.len() ==> (#[trigger] b.1@[j])@ == canon_name(types, a.1@[j]@)
}

/// `b` is the type declaration `a` with its fields' types settled.
pub open spec fn type_canon(types: Seq<TypeDecl>, a: TypeDecl, b: TypeDecl) -> bool {
    &&& b.name == a.name && b.is_pub == a.is_pub && b.span == a.span && b.synthetic == a.synthetic
    &&& b.origin == a.origin && b.parent == a.parent && b.members == a.members
    &&& b.fields@.len() == a.fields@.len()
    &&& forall|i: int| 0 <= i < a.fields@.len() ==> #[trigger] field_canon(types, a.fields@[i], b.fields@[i])
}

/// The elements of `v`, last first.
pub(crate) fn reversed<T>(v: Vec<T>) -> (r: Vec<T>)
    ensures
        r@.len() == v@.len(),
        forall|i: int| 0 <= i < v@.len() ==> r@[i] == v@[v@.len() - 1 - i],
{
    let ghost orig = v@;
    let mut v = v;
    let mut r: Vec<T> = Vec::new();
    while v.len() > 0
        invariant
            v@.len() + r@.len() == orig.len(),
            v@ == orig.subrange(0, v@.len() as int),
            forall|i: int| 0 <= i < r@.len() ==> r@[i] == orig[orig.len() - 1 - i],
        decreases v@.len(),
    {
        let x = v.pop().unwrap();
        r.push(x);
    }
    r
}

/// The last alias in `table` for `n`.
pub open spec fn table_last(table: Seq<(String, String)>, n: Seq<char>) -> Option<Seq<char>>
    decreases table.len(),
{
    if table.len() == 0 {
        None
    } else if table.last().0@ == n {
        Some(table.last().1@)
    } else {
        table_last(table.drop_last(), n)
    }
}

/// Each clone's name beside the name it was cloned from, in order.
fn alias_table(types: &Vec<TypeDecl>) -> (r: Vec<(String, String)>)
    ensures
        forall|n: Seq<char>| #[trigger] table_last(r@, n) == alias_in(types@, n, types@.len()),
        r@.len() == 0 <==> !has_clones(types@),
{
    let mut r: Vec<(String, String)> = Vec::new();
    let mut i: usize = 0;
    while i < types.len()
        invariant
            i <= types@.len(),
            forall|n: Seq<char>| #[trigger] table_last(r@, n) == alias_in(types@, n, i as nat),
            r@.len() == 0 <==> !(exists|k: int| 0 <= k < i && (#[trigger] types@[k]).origin is Some),
        decreases types@.len() - i,
    {
        let t = &types[i];
        let ghost before = r@;
        match &t.origin {
            Some(o) => {
                r.push((t.name.clone(), o.clone()));
                assert(types@[i as int] == *t);
                assert(r@.last().0@ == t.name@ && r@.last().1@ == t.origin->0@);
                assert forall|n: Seq<char>| #[trigger] table_last(r@, n) == alias_in(types@, n, (i + 1) as nat) by {
                    assert(r@.drop_last() == before);
                    assert(table_last(before, n) == alias_in(types@, n, i as nat));
                }
            },
            None => {
                assert(types@[i as int] == *t);
                assert forall|n: Seq<char>| #[trigger] table_last(r@, n) == alias_in(types@, n, (i + 1) as nat) by {
                    assert(table_last(before, n) == alias_in(types@, n, i as nat));
                }
            },
        }
        i += 1;
    }
    r
}

/// The spelling `n` settles on, by the table.
pub(crate) fn settle(table: &Vec<(String, String)>, n: String) -> (r: String)
    ensures
        r@ == match table_last(table@, n@) {
            Some(c) => c,
            None => n@,
        },
{
    let mut k = table.len();
    assert(table@.subrange(0, k as int) == table@);
    while k > 0
        invariant
            k <= table@.len(),
            table_last(table@, n@) == table_last(table@.subrange(0, k as int), n@),
        decreases k,
    {
        let ghost pre = table@.subrange(0, k as int);
        assert(pre.drop_last() == table@.subrange(0, k - 1));
        if crate::text::same_text(table[k - 1].0.as_str(), n.as_str()) {
            return table[k - 1].1.clone();
        }
        k -= 1;
    }
    n
}

/// The pattern `p` with its type references settled.
fn canon_pattern(ghost_types: Ghost<Seq<TypeDecl>>, table: &Vec<(String, String)>, p: Pattern) -> (r: Pattern)
    requires
        forall|n: Seq<char>| #[trigger] table_last(table@, n) == alias_in(ghost_types@, n, ghost_types@.len()),
    ensures
        pattern_canon(ghost_types@, p, r),
    decreases p,
{
    let ghost gp = p;
    match p {
        Pattern::Ctor { ty, fields, whole } => {
            let ghost orig = fields@;
            let ghost fv = fields;
            assert(table_last(table@, ty@) == alias_in(ghost_types@, ty@, ghost_types@.len()));
            let t2 = settle(table, ty);
            let mut rest = reversed(fields);
            let mut out: Vec<Pattern> = Vec::new();
            while rest.len() > 0
                invariant
                    forall|n: Seq<char>| #[trigger] table_last(table@, n) == alias_in(ghost_types@, n, ghost_types@.len()),
                    rest@.len() + out@.len() == orig.len(),
                    gp is Ctor && gp->Ctor_fields@ == orig && gp == p,
                    forall|i: int| 0 <= i < rest@.len() ==> rest@[i] == orig[orig.len() - 1 - i],
                    forall|i: int| 0 <= i < out@.len() ==> #[trigger] pattern_canon(ghost_types@, orig[i], out@[i]),
                decreases rest@.len(),
            {
                let f = rest.pop().unwrap();
                assert(f == orig[out@.len() as int]);
                let ghost k = out@.len() as int;
                assert(0 <= k < gp->Ctor_fields@.len());
                assert(decreases_to!(gp => f)) by {
                    assert(decreases_to!(gp => gp->Ctor_fields));
                    assert(decreases_to!(gp->Ctor_fields => gp->Ctor_fields@));
                    assert(decreases_to!(gp->Ctor_fields@ => gp->Ctor_fields@[k]));
                }
                let g = canon_pattern(ghost_types, table, f);
                out.push(g);
            }
            let r = Pattern::Ctor { ty: t2, fields: out, whole };
            assert(r->Ctor_fields@.len() == orig.len());
            assert(r->Ctor_ty@ == canon_name(ghost_types@, gp->Ctor_ty@));
            assert(forall|i: int| 0 <= i < orig.len() ==> #[trigger] pattern_canon(ghost_types@, orig[i], r->Ctor_fields@[i]));
            assert(r->Ctor_whole == gp->Ctor_whole);
            proof {
                lemma_fields_canon(ghost_types@, gp, r, orig.len());
            }
            r
        },
        Pattern::Annotated { name, ty, span } => {
            assert(table_last(table@, ty@) == alias_in(ghost_types@, ty@, ghost_types@.len()));
            Pattern::Annotated { name, ty: settle(table, ty), span }
        },
        other => other,
    }
}

/// `d` with its parameters and bindings settled.
fn canon_decl(ghost_types: Ghost<Seq<TypeDecl>>, table: &Vec<(String, String)>, d: FnDecl) -> (r: FnDecl)
    requires
        forall|n: Seq<char>| #[trigger] table_last(table@, n) == alias_in(ghost_types@, n, ghost_types@.len()),
    ensures
        decl_canon(ghost_types@, d, r),
{
    let FnDecl { name, is_pub, span, params, body, file, synthetic } = d;
    let ghost ps = params@;
    let ghost bs = body@;
    let mut rest = reversed(params);
    let mut new_params: Vec<Pattern> = Vec::new();
    while rest.len() > 0
        invariant
            forall|n: Seq<char>| #[trigger] table_last(table@, n) == alias_in(ghost_types@, n, ghost_types@.len()),
            rest@.len() + new_params@.len() == ps.len(),
            forall|i: int| 0 <= i < rest@.len() ==> rest@[i] == ps[ps.len() - 1 - i],
            forall|i: int| 0 <= i < new_params@.len() ==> #[trigger] pattern_canon(ghost_types@, ps[i], new_params@[i]),
        decreases rest@.len(),
    {
        let p = rest.pop().unwrap();
        new_params.push(canon_pattern(ghost_types, table, p));
    }
    let mut rest = reversed(body);
    let mut new_body: Vec<Stmt> = Vec::new();
    while rest.len() > 0
        invariant
            forall|n: Seq<char>| #[trigger] table_last(table@, n) == alias_in(ghost_types@, n, ghost_types@.len()),
            rest@.len() + new_body@.len() == bs.len(),
            forall|i: int| 0 <= i < rest@.len() ==> rest@[i] == bs[bs.len() - 1 - i],
            forall|i: int| 0 <= i < new_body@.len() ==> #[trigger] stmt_canon(ghost_types@, bs[i], new_body@[i]),
        decreases rest@.len(),
    {
        let st = rest.pop().unwrap();
        let settled = match st {
            Stmt::Bind { pattern, expr } => Stmt::Bind { pattern: canon_pattern(ghost_types, table, pattern), expr },
            other => other,
        };
        new_body.push(settled);
    }
    FnDecl { name, is_pub, span, params: new_params, body: new_body, file, synthetic }
}

/// The types a field admits, settled.
fn canon_members(ghost_types: Ghost<Seq<TypeDecl>>, table: &Vec<(String, String)>, members: Vec<String>) -> (r: Vec<String>)
    requires
        forall|n: Seq<char>| #[trigger] table_last(table@, n) == alias_in(ghost_types@, n, ghost_types@.len()),
    ensures
        r@.len() == members@.len(),
        forall|j: int| 0 <= j < members@.len() ==> (#[trigger] r@[j])@ == canon_name(ghost_types@, members@[j]@),
{
    let ghost ms = members@;
    let mut rest = reversed(members);
    let mut out: Vec<String> = Vec::new();
    while rest.len() > 0
        invariant
            forall|n: Seq<char>| #[trigger] table_last(table@, n) == alias_in(ghost_types@, n, ghost_types@.len()),
            rest@.len() + out@.len() == ms.len(),
            forall|i: int| 0 <= i < rest@.len() ==> rest@[i] == ms[ms.len() - 1 - i],
            forall|j: int| 0 <= j < out@.len() ==> (#[trigger] out@[j])@ == canon_name(ghost_types@, ms[j]@),
        decreases rest@.len(),
    {
        let m = rest.pop().unwrap();
        assert(table_last(table@, m@) == alias_in(ghost_types@, m@, ghost_types@.len()));
        out.push(settle(table, m));
    }
    out
}

/// `t` with its fields' types settled.
fn canon_type(ghost_types: Ghost<Seq<TypeDecl>>, table: &Vec<(String, String)>, t: TypeDecl) -> (r: TypeDecl)
    requires
        forall|n: Seq<char>| #[trigger] table_last(table@, n) == alias_in(ghost_types@, n, ghost_types@.len()),
    ensures
        type_canon(ghost_types@, t, r),
{
    let TypeDecl { name, is_pub, span, synthetic, origin, parent, members, fields } = t;
    let ghost fs = fields@;
    let mut rest = reversed(fields);
    let mut out: Vec<(String, Vec<String>, crate::diag::Span)> = Vec::new();
    while rest.len() > 0
        invariant
            forall|n: Seq<char>| #[trigger] table_last(table@, n) == alias_in(ghost_types@, n, ghost_types@.len()),
            rest@.len() + out@.len() == fs.len(),
            forall|i: int| 0 <= i < rest@.len() ==> rest@[i] == fs[fs.len() - 1 - i],
            forall|i: int| 0 <= i < out@.len() ==> #[trigger] field_canon(ghost_types@, fs[i], out@[i]),
        decreases rest@.len(),
    {
        let (field, admits, at) = rest.pop().unwrap();
        let settled = canon_members(ghost_types, table, admits);
        out.push((field, settled, at));
    }
    TypeDecl { name, is_pub, span, synthetic, origin, parent, members, fields: out }
}

/// Rewrite every type reference that names a clone an import enrolled to the
/// name it was cloned from: the types of constructor and annotated patterns,
/// in parameters and bindings, and the types each record field admits. Those
/// are type positions, so no local binding can shadow them, and a record then
/// matches by one identity whichever spelling built it. A program with no
/// clone is left as it is.
pub fn canonicalize_types(program: &mut Program)
    ensures
        !has_clones(old(program).types@) ==> *final(program) == *old(program),
        has_clones(old(program).types@) ==> {
            &&& final(program).fns@.len() == old(program).fns@.len()
            &&& forall|i: int| 0 <= i < old(program).fns@.len()
                ==> #[trigger] decl_canon(old(program).types@, old(program).fns@[i], final(program).fns@[i])
            &&& final(program).types@.len() == old(program).types@.len()
            &&& forall|i: int| 0 <= i < old(program).types@.len()
                ==> #[trigger] type_canon(old(program).types@, old(program).types@[i], final(program).types@[i])
        },
{
    let table = alias_table(&program.types);
    if table.len() == 0 {
        return;
    }
    let ghost types0 = program.types@;
    let mut fns: Vec<FnDecl> = Vec::new();
    std::mem::swap(&mut fns, &mut program.fns);
    let ghost fs = fns@;
    let mut rest = reversed(fns);
    let mut out: Vec<FnDecl> = Vec::new();
    while rest.len() > 0
        invariant
            forall|n: Seq<char>| #[trigger] table_last(table@, n) == alias_in(types0, n, types0.len()),
            rest@.len() + out@.len() == fs.len(),
            forall|i: int| 0 <= i < rest@.len() ==> rest@[i] == fs[fs.len() - 1 - i],
            forall|i: int| 0 <= i < out@.len() ==> #[trigger] decl_canon(types0, fs[i], out@[i]),
        decreases rest@.len(),
    {
        let d = rest.pop().unwrap();
        out.push(canon_decl(Ghost(types0), &table, d));
    }
    program.fns = out;
    let mut types: Vec<TypeDecl> = Vec::new();
    std::mem::swap(&mut types, &mut program.types);
    let mut rest = reversed(types);
    let mut settled: Vec<TypeDecl> = Vec::new();
    while rest.len() > 0
        invariant
            forall|n: Seq<char>| #[trigger] table_last(table@, n) == alias_in(types0, n, types0.len()),
            rest@.len() + settled@.len() == types0.len(),
            forall|i: int| 0 <= i < rest@.len() ==> rest@[i] == types0[types0.len() - 1 - i],
            forall|i: int| 0 <= i < settled@.len() ==> #[trigger] type_canon(types0, types0[i], settled@[i]),
        decreases rest@.len(),
    {
        let t = rest.pop().unwrap();
        settled.push(canon_type(Ghost(types0), &table, t));
    }
    program.types = settled;
}

} // verus!
