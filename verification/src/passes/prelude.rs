//! What the compiler adds to a parsed program before anything reads it: the
//! two failure types division answers with, where the program asks which
//! failure it has, and a getter arm for every field of every record.

use vstd::prelude::*;
use crate::ast::{
    children, for_each_child, getter_of, getter_name, getter_field, is_getter_name, lemma_children_smaller, refs,
    size, stmt_expr, stmt_expr_of, Expr, FnDecl, Pattern, Program, Stmt, TypeDecl,
};
use crate::diag::Span;
use crate::text::{same_text, string_of};

verus! {

/// Whether `n` names one of the two failure types division answers with:
/// `math_failure`, or `divide_by_zero` beneath it.
pub open spec fn failure_type(n: Seq<char>) -> bool {
    n == "math_failure"@ || n == "divide_by_zero"@
}

/// Whether the pattern `p` names a failure type: as an annotation, or as the
/// type of a constructor pattern or of one nested in its fields.
pub open spec fn pattern_asks(p: Pattern) -> bool
    decreases p, 1nat, 0nat,
{
    match p {
        Pattern::Annotated { ty, .. } => failure_type(ty@),
        Pattern::Ctor { ty, fields, .. } => failure_type(ty@) || fields_ask(p, fields@.len()),
        _ => false,
    }
}

/// Whether one of the first `n` fields of the constructor pattern `p` names
/// a failure type.
pub open spec fn fields_ask(p: Pattern, n: nat) -> bool
    decreases p, 0nat, n,
{
    if n == 0 || !(p is Ctor) || n > p->Ctor_fields@.len() {
        false
    } else {
        fields_ask(p, (n - 1) as nat) || pattern_asks(p->Ctor_fields@[n - 1])
    }
}

/// Whether the expression `e` mentions a failure type by name, anywhere.
pub open spec fn expr_asks(e: Expr) -> bool
    decreases size(e), 1nat, 0nat,
{
    match e {
        Expr::Ident(n, _) => failure_type(n@),
        Expr::Partial(n, _) => failure_type(n@),
        _ => asks_among(e, children(e).len()),
    }
}

/// Whether one of the first `n` direct sub-expressions of `e` mentions a
/// failure type.
pub open spec fn asks_among(e: Expr, n: nat) -> bool
    decreases size(e), 0nat, n,
    via asks_among_decreases
{
    if n == 0 || n > children(e).len() {
        false
    } else {
        asks_among(e, (n - 1) as nat) || expr_asks(children(e)[n - 1])
    }
}

#[via_fn]
proof fn asks_among_decreases(e: Expr, n: nat) {
    lemma_children_smaller(e);
}

/// Whether the declaration `d` names a failure type: in a parameter's
/// pattern, or in the expression of a statement of its body.
pub open spec fn decl_asks(d: FnDecl) -> bool {
    (exists|k: int| 0 <= k < d.params@.len() && pattern_asks(#[trigger] d.params@[k])) || (exists|k: int|
        0 <= k < d.body@.len() && expr_asks(stmt_expr(#[trigger] d.body@[k])))
}

/// Whether the type `t` is declared beneath `math_failure`.
pub open spec fn refines_math_failure(t: TypeDecl) -> bool {
    t.parent matches Some(p) && p@ == "math_failure"@
}

/// Whether a program of these types and declarations asks which failure it
/// has: a type of its own refines `math_failure`, or a declaration names
/// one of the two.
pub open spec fn program_asks(types: Seq<TypeDecl>, fns: Seq<FnDecl>) -> bool {
    (exists|i: int| 0 <= i < types.len() && refines_math_failure(#[trigger] types[i])) || (exists|j: int|
        0 <= j < fns.len() && decl_asks(#[trigger] fns[j]))
}

fn is_failure_type(n: &str) -> (r: bool)
    ensures
        r == failure_type(n@),
{
    same_text(n, "math_failure") || same_text(n, "divide_by_zero")
}

fn pattern_asks_exec(p: &Pattern) -> (r: bool)
    ensures
        r == pattern_asks(*p),
    decreases *p,
{
    match p {
        Pattern::Annotated { ty, .. } => is_failure_type(ty.as_str()),
        Pattern::Ctor { ty, fields, .. } => {
            if is_failure_type(ty.as_str()) {
                return true;
            }
            let mut i: usize = 0;
            while i < fields.len()
                invariant
                    i <= fields@.len(),
                    p is Ctor && p->Ctor_fields == *fields,
                    !fields_ask(*p, i as nat),
                decreases fields@.len() - i,
            {
                assert(decreases_to!(*p => fields@[i as int])) by {
                    assert(decreases_to!(*p => p->Ctor_fields));
                    assert(decreases_to!(p->Ctor_fields => p->Ctor_fields@));
                    assert(decreases_to!(p->Ctor_fields@ => p->Ctor_fields@[i as int]));
                }
                if pattern_asks_exec(&fields[i]) {
                    assert(fields_ask(*p, (i + 1) as nat));
                    proof {
                        lemma_fields_ask_grows(*p, (i + 1) as nat, fields@.len());
                    }
                    return true;
                }
                i += 1;
            }
            false
        },
        _ => false,
    }
}

proof fn lemma_fields_ask_grows(p: Pattern, k: nat, m: nat)
    requires
        k <= m,
        fields_ask(p, k),
        p is Ctor,
        m <= p->Ctor_fields@.len(),
    ensures
        fields_ask(p, m),
    decreases m - k,
{
    if k < m {
        lemma_fields_ask_grows(p, k, (m - 1) as nat);
    }
}

proof fn lemma_asks_among_grows(e: Expr, k: nat, m: nat)
    requires
        k <= m <= children(e).len(),
        asks_among(e, k),
    ensures
        asks_among(e, m),
    decreases m - k,
{
    if k < m {
        lemma_asks_among_grows(e, k, (m - 1) as nat);
    }
}

fn expr_asks_exec(e: &Expr) -> (r: bool)
    ensures
        r == expr_asks(*e),
    decreases size(*e),
{
    match e {
        Expr::Ident(n, _) => {
            return is_failure_type(n.as_str());
        },
        Expr::Partial(n, _) => {
            return is_failure_type(n.as_str());
        },
        _ => {},
    }
    let kids = for_each_child(e);
    proof {
        lemma_children_smaller(*e);
    }
    let mut i: usize = 0;
    while i < kids.len()
        invariant
            i <= kids@.len(),
            refs(kids@) == children(*e),
            !asks_among(*e, i as nat),
            forall|j: int| 0 <= j < children(*e).len() ==> size(#[trigger] children(*e)[j]) < size(*e),
        decreases kids@.len() - i,
    {
        let c = kids[i];
        assert(refs(kids@)[i as int] == *c);
        if expr_asks_exec(c) {
            proof {
                lemma_asks_among_grows(*e, (i + 1) as nat, children(*e).len());
            }
            return true;
        }
        i += 1;
    }
    false
}

fn decl_asks_exec(d: &FnDecl) -> (r: bool)
    ensures
        r == decl_asks(*d),
{
    let mut k: usize = 0;
    while k < d.params.len()
        invariant
            k <= d.params@.len(),
            forall|q: int| 0 <= q < k ==> !pattern_asks(#[trigger] d.params@[q]),
        decreases d.params@.len() - k,
    {
        if pattern_asks_exec(&d.params[k]) {
            return true;
        }
        k += 1;
    }
    let mut k: usize = 0;
    while k < d.body.len()
        invariant
            k <= d.body@.len(),
            forall|q: int| 0 <= q < d.params@.len() ==> !pattern_asks(#[trigger] d.params@[q]),
            forall|q: int| 0 <= q < k ==> !expr_asks(stmt_expr(#[trigger] d.body@[q])),
        decreases d.body@.len() - k,
    {
        if expr_asks_exec(stmt_expr_of(&d.body[k])) {
            return true;
        }
        k += 1;
    }
    false
}

/// Whether the program ever asks which failure it has: naming either type
/// is the only way to tell a math failure from the text it carries, so a
/// program that names neither is given neither.
pub fn wants_prelude(program: &Program) -> (r: bool)
    ensures
        r == program_asks(program.types@, program.fns@),
{
    let mut i: usize = 0;
    while i < program.types.len()
        invariant
            i <= program.types@.len(),
            forall|q: int| 0 <= q < i ==> !refines_math_failure(#[trigger] program.types@[q]),
        decreases program.types@.len() - i,
    {
        match &program.types[i].parent {
            Some(p) => {
                if same_text(p.as_str(), "math_failure") {
                    return true;
                }
            },
            None => {},
        }
        i += 1;
    }
    let mut j: usize = 0;
    while j < program.fns.len()
        invariant
            j <= program.fns@.len(),
            forall|q: int| 0 <= q < program.types@.len() ==> !refines_math_failure(#[trigger] program.types@[q]),
            forall|q: int| 0 <= q < j ==> !decl_asks(#[trigger] program.fns@[q]),
        decreases program.fns@.len() - j,
    {
        if decl_asks_exec(&program.fns[j]) {
            return true;
        }
        j += 1;
    }
    false
}

/// The types of `ts` that are not one of the two failure types, in order.
pub open spec fn kept_types(ts: Seq<TypeDecl>) -> Seq<TypeDecl>
    decreases ts.len(),
{
    if ts.len() == 0 {
        Seq::empty()
    } else {
        kept_types(ts.drop_last()) + if failure_type(ts.last().name@) {
            Seq::<TypeDecl>::empty()
        } else {
            seq![ts.last()]
        }
    }
}

/// Whether `t` is the public failure type `name` declared beneath `parent`,
/// at the position nothing in a source file has, with no fields and no
/// members.
pub open spec fn prelude_type(t: TypeDecl, name: Seq<char>, parent: Seq<char>) -> bool {
    &&& t.name@ == name && t.is_pub && !t.synthetic
    &&& t.span == Span { line: 0, col: 0 }
    &&& t.origin is None
    &&& t.parent matches Some(p) && p@ == parent
    &&& t.members@.len() == 0 && t.fields@.len() == 0
}

fn prelude_decl(name: &str, parent: &str) -> (r: TypeDecl)
    ensures
        prelude_type(r, name@, parent@),
{
    TypeDecl {
        name: string_of(name),
        is_pub: true,
        span: Span::at(0, 0),
        synthetic: false,
        origin: None,
        parent: Some(string_of(parent)),
        members: Vec::new(),
        fields: Vec::new(),
    }
}

/// Whether `new` is `old` with the failure types installed: any it held
/// dropped, and both declared again after the rest where it asks which
/// failure it has.
pub open spec fn prelude_installed(old: Program, new: Program) -> bool {
    let k = kept_types(old.types@);
    &&& new.fns == old.fns
    &&& program_asks(k, old.fns@) ==> {
        &&& new.types@.len() == k.len() + 2
        &&& new.types@.subrange(0, k.len() as int) == k
        &&& prelude_type(new.types@[k.len() as int], "math_failure"@, "string"@)
        &&& prelude_type(new.types@[k.len() + 1int], "divide_by_zero"@, "math_failure"@)
    }
    &&& !program_asks(k, old.fns@) ==> new.types@ == k
}

/// Drops any failure type the program already holds, so that installing
/// twice declares each once, and then declares `math_failure` beneath
/// `string` and `divide_by_zero` beneath it where the program asks which
/// failure it has.
pub fn install_prelude(program: &mut Program)
    ensures
        prelude_installed(*old(program), *final(program)),
{
    let ghost orig = program.types@;
    let mut rest: Vec<TypeDecl> = Vec::new();
    std::mem::swap(&mut rest, &mut program.types);
    let mut kept: Vec<TypeDecl> = Vec::new();
    let mut taken: usize = 0;
    let total = rest.len();
    assert(orig.len() == total);
    while rest.len() > 0
        invariant
            orig.len() <= usize::MAX,
            taken + rest@.len() == orig.len(),
            rest@ == orig.subrange(taken as int, orig.len() as int),
            kept@ == kept_types(orig.subrange(0, taken as int)),
        decreases rest@.len(),
    {
        let t = rest.remove(0);
        assert(t == orig[taken as int]);
        assert(orig.subrange(0, taken + 1).drop_last() =~= orig.subrange(0, taken as int));
        if !is_failure_type(t.name.as_str()) {
            kept.push(t);
        }
        taken += 1;
        assert(kept@ =~= kept_types(orig.subrange(0, taken as int)));
    }
    assert(orig.subrange(0, orig.len() as int) =~= orig);
    program.types = kept;
    if !wants_prelude(program) {
        return;
    }
    let ghost k = program.types@;
    program.types.push(prelude_decl("math_failure", "string"));
    program.types.push(prelude_decl("divide_by_zero", "math_failure"));
    assert(program.types@.subrange(0, k.len() as int) =~= k);
    proof {
        reveal_strlit("math_failure");
        reveal_strlit("divide_by_zero");
        reveal_strlit("string");
    }
}

/// The name a getter arm binds the field it reads to: a spelling no
/// program can write, so it shadows nothing.
pub open spec fn getter_binder() -> Seq<char> {
    seq!['.']
}

fn binder() -> (r: String)
    ensures
        r@ == getter_binder(),
{
    let cs: Vec<char> = vec!['.'];
    assert(cs@ =~= getter_binder());
    crate::text::string_from_chars(cs.as_slice())
}

/// Whether `d` is a getter arm reading `field` of the type `ty`: a getter
/// named for the field whose first parameter destructures `ty`.
pub open spec fn getter_reads(d: FnDecl, field: Seq<char>, ty: Seq<char>) -> bool {
    &&& is_getter_name(d.name@) && getter_of(field) == d.name@
    &&& d.params@.len() > 0
    &&& d.params@[0] matches Pattern::Ctor { ty: t, .. } && t@ == ty
}

/// Whether `fns` already holds a getter arm reading `field` of `ty`.
pub open spec fn has_getter(fns: Seq<FnDecl>, field: Seq<char>, ty: Seq<char>) -> bool {
    exists|j: int| 0 <= j < fns.len() && getter_reads(#[trigger] fns[j], field, ty)
}

/// The fields among the first `n` of `ty` (the `ti`th type) that still want
/// a getter arm, as (type, field) positions in order.
pub open spec fn wanted_in(ty: TypeDecl, ti: int, fns: Seq<FnDecl>, n: nat) -> Seq<(int, int)>
    decreases n,
{
    if n == 0 || n > ty.fields@.len() {
        Seq::empty()
    } else {
        wanted_in(ty, ti, fns, (n - 1) as nat) + if has_getter(fns, ty.fields@[n - 1].0@, ty.name@) {
            Seq::<(int, int)>::empty()
        } else {
            seq![(ti, n - 1)]
        }
    }
}

/// The fields of the first `n` types that want a getter arm: every field of
/// a type declared in the source, but those a getter already reads.
pub open spec fn wanted(types: Seq<TypeDecl>, fns: Seq<FnDecl>, n: nat) -> Seq<(int, int)>
    decreases n,
{
    if n == 0 || n > types.len() {
        Seq::empty()
    } else {
        wanted(types, fns, (n - 1) as nat) + if types[n - 1].synthetic {
            Seq::<(int, int)>::empty()
        } else {
            wanted_in(types[n - 1], n - 1, fns, types[n - 1].fields@.len())
        }
    }
}

/// Whether `d` is the getter arm for field `i` of `ty`: public, named for
/// the field and written at it, taking one `ty` whose `i`th field it binds
/// and whose others it ignores, and answering what it bound.
pub open spec fn getter_arm(d: FnDecl, ty: TypeDecl, i: int) -> bool {
    let span = ty.fields@[i].2;
    &&& d.name@ == getter_of(ty.fields@[i].0@) && d.is_pub && d.span == span && !d.synthetic && d.file@.len() == 0
    &&& d.params@.len() == 1
    &&& d.params@[0] matches Pattern::Ctor { ty: t, fields, whole } && t@ == ty.name@ && whole is None
    &&& d.params@[0]->Ctor_fields@.len() == ty.fields@.len()
    &&& forall|k: int|
        0 <= k < ty.fields@.len() ==> if k == i {
            #[trigger] d.params@[0]->Ctor_fields@[k] matches Pattern::Var(v, s) && v@ == getter_binder() && s == span
        } else {
            d.params@[0]->Ctor_fields@[k] == Pattern::Wildcard(span)
        }
    &&& d.body@.len() == 1
    &&& d.body@[0] matches Stmt::Expr(Expr::Ident(v, s)) && v@ == getter_binder() && s == span
}

fn has_getter_exec(fns: &Vec<FnDecl>, field: &str, ty: &str) -> (r: bool)
    ensures
        r == has_getter(fns@, field@, ty@),
{
    let mut j: usize = 0;
    while j < fns.len()
        invariant
            j <= fns@.len(),
            forall|q: int| 0 <= q < j ==> !getter_reads(#[trigger] fns@[q], field@, ty@),
        decreases fns@.len() - j,
    {
        let d = &fns[j];
        if d.is_getter() && d.params.len() > 0 {
            match &d.params[0] {
                Pattern::Ctor { ty: t, .. } => {
                    if same_text(t.as_str(), ty) {
                        match getter_field(d.name.as_str()) {
                            Some(f) => {
                                if same_text(f.as_str(), field) {
                                    return true;
                                }
                                proof {
                                    if getter_of(field@) == d.name@ {
                                        lemma_getter_of_injective(f@, field@);
                                    }
                                }
                            },
                            None => {},
                        }
                    }
                },
                _ => {},
            }
        }
        j += 1;
    }
    false
}

proof fn lemma_getter_of_injective(a: Seq<char>, b: Seq<char>)
    requires
        getter_of(a) == getter_of(b),
    ensures
        a == b,
{
    assert(a =~= getter_of(a).subrange(1, getter_of(a).len() as int));
    assert(b =~= getter_of(b).subrange(1, getter_of(b).len() as int));
}

fn getter_arm_for(ty: &TypeDecl, i: usize) -> (r: FnDecl)
    requires
        i < ty.fields@.len(),
    ensures
        getter_arm(r, *ty, i as int),
{
    let span = ty.fields[i].2;
    let mut bound: Vec<Pattern> = Vec::new();
    let mut k: usize = 0;
    while k < ty.fields.len()
        invariant
            k <= ty.fields@.len(),
            bound@.len() == k,
            i < ty.fields@.len(),
            span == ty.fields@[i as int].2,
            forall|q: int|
                0 <= q < k ==> if q == i {
                    #[trigger] bound@[q] matches Pattern::Var(v, s) && v@ == getter_binder() && s == span
                } else {
                    bound@[q] == Pattern::Wildcard(span)
                },
        decreases ty.fields@.len() - k,
    {
        if k == i {
            bound.push(Pattern::Var(binder(), span));
        } else {
            bound.push(Pattern::Wildcard(span));
        }
        k += 1;
    }
    let ghost b = bound@;
    let r = FnDecl {
        name: getter_name(ty.fields[i].0.as_str()),
        is_pub: true,
        span,
        params: vec![Pattern::Ctor { ty: ty.name.clone(), fields: bound, whole: None }],
        body: vec![Stmt::Expr(Expr::Ident(binder(), span))],
        file: String::new(),
        synthetic: false,
    };
    assert(r.params@[0]->Ctor_fields@ == b);
    r
}

/// Whether `new` is `old` with the getter arms its fields want declared
/// after its own declarations, in the order `wanted` lists them.
pub open spec fn getters_synthesized(old: Program, new: Program) -> bool {
    let w = wanted(old.types@, old.fns@, old.types@.len());
    let n = old.fns@.len();
    &&& new.types == old.types
    &&& new.fns@.len() == n + w.len()
    &&& new.fns@.subrange(0, n as int) == old.fns@
    &&& forall|k: int| 0 <= k < w.len() ==> getter_arm(#[trigger] new.fns@[n + k], old.types@[w[k].0], w[k].1)
}

/// Declares a getter arm for every field of every type declared in the
/// source, `pub fn .name (user _ .) = .` for a `user` whose second field is
/// `name`, so that a field read can become a call. A field some getter
/// already reads keeps the one it has; the arms follow the declarations the
/// program held, type by type and field by field.
pub fn synthesize_getters(program: &mut Program)
    ensures
        getters_synthesized(*old(program), *final(program)),
{
    let ghost types = program.types@;
    let ghost fns = program.fns@;
    let mut arms: Vec<FnDecl> = Vec::new();
    let mut i: usize = 0;
    while i < program.types.len()
        invariant
            program.types@ == types,
            program.fns@ == fns,
            i <= types.len(),
            arms@.len() == wanted(types, fns, i as nat).len(),
            forall|k: int|
                0 <= k < arms@.len() ==> getter_arm(
                    #[trigger] arms@[k],
                    types[wanted(types, fns, i as nat)[k].0],
                    wanted(types, fns, i as nat)[k].1,
                ),
        decreases types.len() - i,
    {
        let ty = &program.types[i];
        let ghost w0 = wanted(types, fns, i as nat);
        if !ty.synthetic {
            let mut j: usize = 0;
            while j < ty.fields.len()
                invariant
                    program.types@ == types,
                    program.fns@ == fns,
                    i < types.len(),
                    *ty == types[i as int],
                    j <= ty.fields@.len(),
                    w0 == wanted(types, fns, i as nat),
                    arms@.len() == (w0 + wanted_in(*ty, i as int, fns, j as nat)).len(),
                    forall|k: int|
                        0 <= k < arms@.len() ==> getter_arm(
                            #[trigger] arms@[k],
                            types[(w0 + wanted_in(*ty, i as int, fns, j as nat))[k].0],
                            (w0 + wanted_in(*ty, i as int, fns, j as nat))[k].1,
                        ),
                decreases ty.fields@.len() - j,
            {
                let ghost all0 = w0 + wanted_in(*ty, i as int, fns, j as nat);
                let ghost before = arms@;
                if !has_getter_exec(&program.fns, ty.fields[j].0.as_str(), ty.name.as_str()) {
                    let arm = getter_arm_for(ty, j);
                    arms.push(arm);
                }
                j += 1;
                proof {
                    let all1 = w0 + wanted_in(*ty, i as int, fns, j as nat);
                    assert(all1.subrange(0, all0.len() as int) =~= all0);
                    assert forall|k: int| 0 <= k < arms@.len() implies getter_arm(
                        #[trigger] arms@[k],
                        types[all1[k].0],
                        all1[k].1,
                    ) by {
                        if k < before.len() {
                            assert(all1[k] == all0[k]);
                            assert(arms@[k] == before[k]);
                        } else {
                            assert(all1[k] == (i as int, (j - 1) as int));
                        }
                    }
                }
            }
            proof {
                assert(wanted(types, fns, (i + 1) as nat) =~= w0 + wanted_in(*ty, i as int, fns, j as nat));
            }
        } else {
            proof {
                assert(wanted(types, fns, (i + 1) as nat) =~= w0);
            }
        }
        i += 1;
    }
    let ghost w = wanted(types, fns, types.len());
    let ghost made = arms@;
    let mut arms = arms;
    program.fns.append(&mut arms);
    assert(program.fns@.subrange(0, fns.len() as int) =~= fns);
    assert forall|k: int| 0 <= k < w.len() implies getter_arm(
        #[trigger] program.fns@[fns.len() + k],
        types[w[k].0],
        w[k].1,
    ) by {
        assert(program.fns@[fns.len() + k] == made[k]);
    }
}

/// Everything the compiler adds to a parsed program before anything reads
/// it: the failure types, and then the getters.
pub fn finish_program(program: &mut Program)
    ensures
        exists|mid: Program| prelude_installed(*old(program), mid) && #[trigger] getters_synthesized(mid, *final(program)),
{
    install_prelude(program);
    let ghost mid = *program;
    synthesize_getters(program);
    assert(getters_synthesized(mid, *program));
}

/// Records `file` as the file of every declaration: merged modules keep
/// apart where each arm came from.
pub fn stamp_file(program: &mut Program, file: &str)
    ensures
        final(program).types == old(program).types,
        final(program).fns@.len() == old(program).fns@.len(),
        forall|i: int|
            0 <= i < old(program).fns@.len() ==> {
                let d = old(program).fns@[i];
                let e = #[trigger] final(program).fns@[i];
                &&& e.name == d.name && e.is_pub == d.is_pub && e.span == d.span && e.params == d.params
                &&& e.body == d.body && e.synthetic == d.synthetic && e.file@ == file@
            },
{
    let ghost orig = program.fns@;
    let mut rest: Vec<FnDecl> = Vec::new();
    std::mem::swap(&mut rest, &mut program.fns);
    let mut out: Vec<FnDecl> = Vec::new();
    while rest.len() > 0
        invariant
            out@.len() + rest@.len() == orig.len(),
            rest@ == orig.subrange(out@.len() as int, orig.len() as int),
            forall|i: int|
                0 <= i < out@.len() ==> {
                    let d = orig[i];
                    let e = #[trigger] out@[i];
                    &&& e.name == d.name && e.is_pub == d.is_pub && e.span == d.span && e.params == d.params
                    &&& e.body == d.body && e.synthetic == d.synthetic && e.file@ == file@
                },
        decreases rest@.len(),
    {
        let d = rest.remove(0);
        assert(d == orig[out@.len() as int]);
        let FnDecl { name, is_pub, span, params, body, file: _, synthetic } = d;
        out.push(FnDecl { name, is_pub, span, params, body, file: string_of(file), synthetic });
    }
    program.fns = out;
}

} // verus!
