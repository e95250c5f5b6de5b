//! Diamond imports: a module reached by two routes arrives twice, and every
//! declaration it brings is kept once.

use vstd::prelude::*;
use crate::ast::{FnDecl, Program, TypeDecl};
use crate::text::same_text;

verus! {

/// Whether the `i`th and `j`th declarations are one declaration reached
/// twice: the same file by identity (`ids`), name, arity, position and
/// provenance.
pub open spec fn same_decl(fns: Seq<FnDecl>, ids: Seq<u32>, i: int, j: int) -> bool {
    &&& ids[i] == ids[j] && fns[i].name@ == fns[j].name@ && fns[i].params@.len() == fns[j].params@.len()
    &&& fns[i].span == fns[j].span && fns[i].synthetic == fns[j].synthetic
}

/// The declarations of the first `n` that no earlier one repeats, in order.
pub open spec fn first_decls(fns: Seq<FnDecl>, ids: Seq<u32>, n: nat) -> Seq<FnDecl>
    decreases n,
{
    if n == 0 {
        Seq::empty()
    } else {
        first_decls(fns, ids, (n - 1) as nat) + if exists|j: int| 0 <= j < n - 1 && #[trigger] same_decl(fns, ids, n - 1, j) {
            Seq::<FnDecl>::empty()
        } else {
            seq![fns[n - 1]]
        }
    }
}

/// Whether the `i`th and `j`th types are one type reached twice: the same
/// name at the same position.
pub open spec fn same_type(ts: Seq<TypeDecl>, i: int, j: int) -> bool {
    ts[i].name@ == ts[j].name@ && ts[i].span == ts[j].span
}

/// The types of the first `n` that no earlier one repeats, in order.
pub open spec fn first_types(ts: Seq<TypeDecl>, n: nat) -> Seq<TypeDecl>
    decreases n,
{
    if n == 0 {
        Seq::empty()
    } else {
        first_types(ts, (n - 1) as nat) + if exists|j: int| 0 <= j < n - 1 && #[trigger] same_type(ts, n - 1, j) {
            Seq::<TypeDecl>::empty()
        } else {
            seq![ts[n - 1]]
        }
    }
}

fn repeats_decl(fns: &Vec<FnDecl>, ids: &Vec<u32>, i: usize) -> (r: bool)
    requires
        i < fns@.len(),
        ids@.len() == fns@.len(),
    ensures
        r == exists|j: int| 0 <= j < i && #[trigger] same_decl(fns@, ids@, i as int, j),
{
    let mut j: usize = 0;
    while j < i
        invariant
            i < fns@.len(),
            ids@.len() == fns@.len(),
            j <= i,
            forall|q: int| 0 <= q < j ==> !#[trigger] same_decl(fns@, ids@, i as int, q),
        decreases i - j,
    {
        let a = &fns[i];
        let b = &fns[j];
        if ids[i] == ids[j] && same_text(a.name.as_str(), b.name.as_str()) && a.params.len() == b.params.len()
            && a.span == b.span && a.synthetic == b.synthetic {
            assert(same_decl(fns@, ids@, i as int, j as int));
            return true;
        }
        j += 1;
    }
    false
}

fn repeats_type(ts: &Vec<TypeDecl>, i: usize) -> (r: bool)
    requires
        i < ts@.len(),
    ensures
        r == exists|j: int| 0 <= j < i && #[trigger] same_type(ts@, i as int, j),
{
    let mut j: usize = 0;
    while j < i
        invariant
            i < ts@.len(),
            j <= i,
            forall|q: int| 0 <= q < j ==> !#[trigger] same_type(ts@, i as int, q),
        decreases i - j,
    {
        if same_text(ts[i].name.as_str(), ts[j].name.as_str()) && ts[i].span == ts[j].span {
            assert(same_type(ts@, i as int, j as int));
            return true;
        }
        j += 1;
    }
    false
}

/// Keeps the first of every declaration and every type a diamond import
/// brought twice; `ids` gives each declaration's file its identity, which
/// two spellings of one path share.
pub fn collapse_diamonds(program: &mut Program, ids: &Vec<u32>)
    requires
        ids@.len() == old(program).fns@.len(),
    ensures
        final(program).fns@ == first_decls(old(program).fns@, ids@, old(program).fns@.len()),
        final(program).types@ == first_types(old(program).types@, old(program).types@.len()),
{
    let mut fns: Vec<FnDecl> = Vec::new();
    std::mem::swap(&mut fns, &mut program.fns);
    let ghost orig = fns@;
    let mut keep: Vec<bool> = Vec::new();
    let mut i: usize = 0;
    while i < fns.len()
        invariant
            fns@ == orig,
            ids@.len() == orig.len(),
            i <= orig.len(),
            keep@.len() == i,
            forall|k: int| 0 <= k < i ==> #[trigger] keep@[k] == !exists|j: int| 0 <= j < k && #[trigger] same_decl(orig, ids@, k, j),
        decreases orig.len() - i,
    {
        keep.push(!repeats_decl(&fns, ids, i));
        i += 1;
    }
    let mut out: Vec<FnDecl> = Vec::new();
    let mut rest = fns;
    let mut k: usize = 0;
    let total = rest.len();
    while rest.len() > 0
        invariant
            orig.len() == total,
            keep@.len() == orig.len(),
            k + rest@.len() == orig.len(),
            rest@ == orig.subrange(k as int, orig.len() as int),
            out@ == first_decls(orig, ids@, k as nat),
            forall|q: int| 0 <= q < orig.len() ==> #[trigger] keep@[q] == !exists|j: int| 0 <= j < q && #[trigger] same_decl(orig, ids@, q, j),
        decreases rest@.len(),
    {
        let d = rest.remove(0);
        assert(d == orig[k as int]);
        if keep[k] {
            out.push(d);
        }
        k += 1;
    }
    program.fns = out;
    let mut ts: Vec<TypeDecl> = Vec::new();
    std::mem::swap(&mut ts, &mut program.types);
    let ghost origt = ts@;
    let mut keep: Vec<bool> = Vec::new();
    let mut i: usize = 0;
    while i < ts.len()
        invariant
            ts@ == origt,
            i <= origt.len(),
            keep@.len() == i,
            forall|k: int| 0 <= k < i ==> #[trigger] keep@[k] == !exists|j: int| 0 <= j < k && #[trigger] same_type(origt, k, j),
        decreases origt.len() - i,
    {
        keep.push(!repeats_type(&ts, i));
        i += 1;
    }
    let mut out: Vec<TypeDecl> = Vec::new();
    let mut rest = ts;
    let mut k: usize = 0;
    let total = rest.len();
    while rest.len() > 0
        invariant
            origt.len() == total,
            keep@.len() == origt.len(),
            k + rest@.len() == origt.len(),
            rest@ == origt.subrange(k as int, origt.len() as int),
            out@ == first_types(origt, k as nat),
            forall|q: int| 0 <= q < origt.len() ==> #[trigger] keep@[q] == !exists|j: int| 0 <= j < q && #[trigger] same_type(origt, q, j),
        decreases rest@.len(),
    {
        let t = rest.remove(0);
        assert(t == origt[k as int]);
        if keep[k] {
            out.push(t);
        }
        k += 1;
    }
    program.types = out;
}

} // verus!
