//! Runtime values and the operations on them that decide the language's
//! failure rules: an err travels as a value, two failures in one operation
//! merge, division by zero answers a value, and indexing is 1-based with a
//! miss answering `none`.
//!
//! A float is held as its IEEE-754 bits. The arithmetic on floats is not
//! here; every operation below is stated for values that hold no float.

use vstd::prelude::*;
use crate::diag::Span;
use super::RuntimeError;
use crate::number::Int;
use crate::text::{chars_of, same_text, seq_lt, string_from_chars, text_less};

verus! {

/// A map key: a number or a string.
pub enum MapKey {
    Int(Int),
    Str(String),
}

/// A failure and its propagation trace: the reason, where it was raised
/// and by which package, the dispatchers it passed through, the err it
/// wraps, and whether its reason is a list of merged reasons.
pub struct ErrInfo {
    pub reason: Value,
    pub origin: Option<String>,
    pub hako: Option<String>,
    pub hops: Vec<String>,
    pub cause: Option<Box<ErrInfo>>,
    pub merged: bool,
}

/// A runtime value. A map's entries are kept in key order, each key once.
pub enum Value {
    Int(Int),
    /// A float, as its IEEE-754 bits.
    Float(u64),
    MapV(Vec<(MapKey, Value)>),
    Str(String),
    True,
    False,
    NoneV,
    ErrV(Box<ErrInfo>),
    List(Vec<Value>),
    Bytes(Vec<u8>),
    Record { ty: String, fields: Vec<Value> },
    /// A nominal subtype wrapping its base value.
    Sub { ty: String, inner: Box<Value> },
    FnRef(String),
    Partial(Box<Value>, Vec<Value>),
}

/// Whether `v` is a failure.
pub open spec fn failing(v: Value) -> bool {
    v is ErrV
}

pub fn is_failure(v: &Value) -> (r: bool)
    ensures
        r == failing(*v),
{
    match v {
        Value::ErrV(_) => true,
        _ => false,
    }
}

/// What an err contributes to a merge: the reasons it already carries when
/// it was merged itself, else its one reason.
pub open spec fn reasons(info: ErrInfo) -> Seq<Value> {
    if info.merged && info.reason is List {
        info.reason->List_0@
    } else {
        seq![info.reason]
    }
}

fn reasons_of(info: ErrInfo) -> (r: Vec<Value>)
    ensures
        r@ == reasons(info),
{
    let merged = info.merged;
    match info.reason {
        Value::List(items) => {
            if merged {
                items
            } else {
                let mut v: Vec<Value> = Vec::new();
                v.push(Value::List(items));
                assert(v@ =~= reasons(info));
                v
            }
        },
        other => {
            let mut v: Vec<Value> = Vec::new();
            v.push(other);
            assert(v@ =~= reasons(info));
            v
        },
    }
}

/// Whether `r` is the err two failures with reasons `rs` merge into: its
/// reason lists them, it has no origin, package, hops or cause, and it is
/// marked merged.
pub open spec fn merged_err(r: Value, rs: Seq<Value>) -> bool {
    &&& r is ErrV
    &&& r->ErrV_0.reason is List
    &&& r->ErrV_0.reason->List_0@ == rs
    &&& r->ErrV_0.origin is None
    &&& r->ErrV_0.hako is None
    &&& r->ErrV_0.hops@.len() == 0
    &&& r->ErrV_0.cause is None
    &&& r->ErrV_0.merged
}

/// Whether `r` merges `left` and `right`: two errs become one whose reason
/// lists both errs' reasons; a lone err stays itself; anything else answers
/// the left value.
pub open spec fn merges(left: Value, right: Value, r: Value) -> bool {
    if left is ErrV && right is ErrV {
        merged_err(r, reasons(*left->ErrV_0) + reasons(*right->ErrV_0))
    } else if left is ErrV {
        r == left
    } else if right is ErrV {
        r == right
    } else {
        r == left
    }
}

pub fn accumulate_failures(left: Value, right: Value) -> (r: Value)
    ensures
        merges(left, right, r),
{
    let ghost l0 = left;
    let ghost r0 = right;
    match (left, right) {
        (Value::ErrV(a), Value::ErrV(b)) => {
            let mut rs = reasons_of(*a);
            let mut more = reasons_of(*b);
            rs.append(&mut more);
            Value::ErrV(
                Box::new(ErrInfo { reason: Value::List(rs), origin: None, hako: None, hops: Vec::new(), cause: None, merged: true }),
            )
        },
        (Value::ErrV(a), _) => Value::ErrV(a),
        (l, Value::ErrV(b)) => Value::ErrV(b),
        (l, _) => l,
    }
}

/// The failures among `args`, in order.
pub open spec fn failures(args: Seq<Value>) -> Seq<Value>
    decreases args.len(),
{
    if args.len() == 0 {
        Seq::empty()
    } else if failing(args.last()) {
        failures(args.drop_last()).push(args.last())
    } else {
        failures(args.drop_last())
    }
}

/// The reasons the failures `errs` carry, in order.
pub open spec fn flat_reasons(errs: Seq<Value>) -> Seq<Value>
    decreases errs.len(),
{
    if errs.len() == 0 {
        Seq::empty()
    } else {
        flat_reasons(errs.drop_last()) + reasons(*errs.last()->ErrV_0)
    }
}

/// Whether `r` is every failure among `args` merged: the one failure
/// itself when there is one, else one err listing all their reasons.
pub open spec fn all_merged(args: Seq<Value>, r: Value) -> bool {
    let errs = failures(args);
    if errs.len() == 1 {
        r == errs[0]
    } else {
        merged_err(r, flat_reasons(errs))
    }
}

/// Every failure among a call's arguments, merged: two failures in one call
/// are two facts, and neither is dropped.
pub fn merged_failures(args: Vec<Value>) -> (r: Value)
    requires
        failures(args@).len() > 0,
    ensures
        all_merged(args@, r),
{
    let ghost a0 = args@;
    let mut acc: Option<Value> = None;
    let mut rest = args;
    let n0 = rest.len();
    let mut k: usize = 0;
    assert(a0.subrange(0, 0) =~= Seq::<Value>::empty());
    assert(rest@ =~= a0.subrange(0, a0.len() as int));
    while rest.len() > 0
        invariant
            k <= a0.len(),
            n0 == a0.len(),
            rest@ == a0.subrange(k as int, a0.len() as int),
            acc is None <==> failures(a0.subrange(0, k as int)).len() == 0,
            acc matches Some(v) ==> all_merged(a0.subrange(0, k as int), v) && v is ErrV,
            acc matches Some(v) ==> failures(a0.subrange(0, k as int)).len() >= 2 ==> v->ErrV_0.merged
                && v->ErrV_0.reason is List,
            forall|i: int| 0 <= i < failures(a0.subrange(0, k as int)).len() ==> (#[trigger] failures(a0.subrange(0, k as int))[i]) is ErrV,
        decreases rest@.len(),
    {
        let ghost pre = a0.subrange(0, k as int);
        let v = rest.remove(0);
        assert(v == a0[k as int]);
        assert(a0.subrange(0, k + 1).drop_last() =~= pre);
        assert(a0.subrange(0, k + 1).last() == v);
        if is_failure(&v) {
            assert(failures(a0.subrange(0, k + 1)) == failures(pre).push(v));
            acc = match acc {
                None => Some(v),
                Some(a) => {
                    let ghost fa = failures(pre);
                    let m = accumulate_failures(a, v);
                    proof {
                        let errs = failures(pre).push(v);
                        assert(errs.drop_last() =~= fa);
                        if fa.len() == 1 {
                            assert(fa.drop_last() =~= Seq::<Value>::empty());
                            assert(flat_reasons(fa.drop_last()) == Seq::<Value>::empty());
                            assert(fa.last() == fa[0]);
                            assert(flat_reasons(fa) =~= reasons(*fa[0]->ErrV_0));
                        }
                    }
                    Some(m)
                },
            };
        } else {
            assert(failures(a0.subrange(0, k + 1)) == failures(pre));
        }
        k += 1;
        assert(rest@ =~= a0.subrange(k as int, a0.len() as int));
    }
    assert(a0.subrange(0, k as int) =~= a0);
    acc.unwrap()
}

/// Whether two map keys are the same key.
pub open spec fn key_same(a: MapKey, b: MapKey) -> bool {
    match (a, b) {
        (MapKey::Int(x), MapKey::Int(y)) => x.same(&y),
        (MapKey::Str(x), MapKey::Str(y)) => x@ == y@,
        _ => false,
    }
}

/// The position of the first entry from `j` on whose key is `k`.
pub open spec fn find_key(entries: Seq<(MapKey, Value)>, k: MapKey, j: int) -> Option<int>
    decreases entries.len() - j,
{
    if j < 0 || j >= entries.len() {
        None
    } else if key_same(entries[j].0, k) {
        Some(j)
    } else {
        find_key(entries, k, j + 1)
    }
}

proof fn lemma_find_key(entries: Seq<(MapKey, Value)>, k: MapKey, j: int)
    requires
        0 <= j,
    ensures
        find_key(entries, k, j) matches Some(i) ==> j <= i < entries.len(),
    decreases entries.len() - j,
{
    if j < entries.len() && !key_same(entries[j].0, k) {
        lemma_find_key(entries, k, j + 1);
    }
}

fn key_eq(a: &MapKey, b: &MapKey) -> (r: bool)
    ensures
        r == key_same(*a, *b),
{
    match (a, b) {
        (MapKey::Int(x), MapKey::Int(y)) => x.equals(y),
        (MapKey::Str(x), MapKey::Str(y)) => same_text(x.as_str(), y.as_str()),
        _ => false,
    }
}

/// Whether `v` is the one-character string `c`.
pub open spec fn char_string(v: Value, c: char) -> bool {
    v is Str && v->Str_0@ == seq![c]
}

/// What indexing answers: a failure among the two passes through, the
/// container's first; a list, bytes or a string answer their 1-based
/// element, and `none` out of range (no collection holds more than
/// `i64::MAX` elements); a map answers the value under the key,
/// or `none`; anything else is an error.
pub open spec fn indexes(container: Value, index: Value, span: Span, r: Result<Value, RuntimeError>) -> bool {
    if failing(container) {
        r == Ok::<Value, RuntimeError>(container)
    } else if failing(index) {
        r == Ok::<Value, RuntimeError>(index)
    } else {
        match (container, index) {
            (Value::List(items), Value::Int(i)) => r == Ok::<Value, RuntimeError>(
                if 1 <= i@ <= items@.len() && i@ <= i64::MAX {
                    items@[i@ - 1]
                } else {
                    Value::NoneV
                },
            ),
            (Value::Bytes(bs), Value::Int(i)) => if 1 <= i@ <= bs@.len() && i@ <= i64::MAX {
                r matches Ok(Value::Int(n)) && n@ == bs@[i@ - 1] as int && n.wf()
            } else {
                r == Ok::<Value, RuntimeError>(Value::NoneV)
            },
            (Value::Str(t), Value::Int(i)) => if 1 <= i@ <= t@.len() && i@ <= i64::MAX {
                r matches Ok(v) && char_string(v, t@[i@ - 1])
            } else {
                r == Ok::<Value, RuntimeError>(Value::NoneV)
            },
            (Value::MapV(es), Value::Int(n)) => r == Ok::<Value, RuntimeError>(
                match find_key(es@, MapKey::Int(n), 0) {
                    Some(j) => es@[j].1,
                    None => Value::NoneV,
                },
            ),
            (Value::MapV(es), Value::Str(t)) => r == Ok::<Value, RuntimeError>(
                match find_key(es@, MapKey::Str(t), 0) {
                    Some(j) => es@[j].1,
                    None => Value::NoneV,
                },
            ),
            _ => r matches Err(e) && e.span == span && e.message@
                == "indexing takes a list or string with a 1-based position, or a map with a key"@,
        }
    }
}

/// The position an int names, when it is a whole number a `usize` holds.
fn position(i: &Int) -> (r: Option<usize>)
    requires
        i.wf(),
    ensures
        r matches Some(p) ==> p as int == i@ && i@ <= i64::MAX,
        r is None ==> i@ < 0 || i@ > i64::MAX || i@ > usize::MAX,
{
    match i.to_u64() {
        Some(n) => {
            if n <= usize::MAX as u64 {
                Some(n as usize)
            } else {
                None
            }
        },
        None => {
            proof {
                if *i is Big {
                    assert(!crate::number::fits_i64(i@));
                }
            }
            None
        },
    }
}

/// Indexing: 1-based, a miss answering `none`, a failure passing through.
pub fn index_value(container: Value, index: Value, span: Span) -> (r: Result<Value, RuntimeError>)
    requires
        index is Int ==> index->Int_0.wf(),
    ensures
        indexes(container, index, span, r),
{
    if is_failure(&container) {
        return Ok(container);
    }
    if is_failure(&index) {
        return Ok(index);
    }
    let ghost c0 = container;
    let ghost i0 = index;
    let r = match (container, index) {
        (Value::List(mut items), Value::Int(i)) => {
            let _ = items.len();
            match position(&i) {
                Some(p) => {
                    if p >= 1 && p <= items.len() {
                        let ghost it0 = items@;
                        let v = items.remove(p - 1);
                        assert(c0 matches Value::List(x) && x@ == it0);
                        assert(v == it0[i0->Int_0@ - 1]);
                        assert(indexes(c0, i0, span, Ok(v)));
                        Ok(v)
                    } else {
                        Ok(Value::NoneV)
                    }
                },
                None => Ok(Value::NoneV),
            }
        },
        (Value::Bytes(bs), Value::Int(i)) => {
            let _ = bs.len();
            match position(&i) {
                Some(p) => {
                    if p >= 1 && p <= bs.len() {
                        Ok(Value::Int(Int::from_i64(bs[p - 1] as i64)))
                    } else {
                        Ok(Value::NoneV)
                    }
                },
                None => Ok(Value::NoneV),
            }
        },
        (Value::Str(t), Value::Int(i)) => {
            let cs = chars_of(t.as_str());
            let _ = cs.len();
            match position(&i) {
                Some(p) => {
                    if p >= 1 && p <= cs.len() {
                        let one = vec![cs[p - 1]];
                        let s = string_from_chars(one.as_slice());
                        assert(s@ =~= seq![t@[p - 1]]);
                        assert(indexes(c0, i0, span, Ok(Value::Str(s))));
                        Ok(Value::Str(s))
                    } else {
                        Ok(Value::NoneV)
                    }
                },
                None => Ok(Value::NoneV),
            }
        },
        (Value::MapV(es), Value::Int(n)) => {
            let r = Ok(map_get(es, MapKey::Int(n)));
            assert(indexes(c0, i0, span, r));
            r
        },
        (Value::MapV(es), Value::Str(t)) => Ok(map_get(es, MapKey::Str(t))),
        (_, _) => Err(
            RuntimeError {
                message: string_from_chars(
                    chars_of("indexing takes a list or string with a 1-based position, or a map with a key").as_slice(),
                ),
                span,
            },
        ),
    };
    assert(indexes(c0, i0, span, r));
    r
}

/// The value a map holds under `key`, or `none`.
fn map_get(entries: Vec<(MapKey, Value)>, key: MapKey) -> (r: Value)
    ensures
        r == (match find_key(entries@, key, 0) {
            Some(j) => entries@[j].1,
            None => Value::NoneV,
        }),
{
    let mut es = entries;
    let ghost e0 = es@;
    let mut j: usize = 0;
    while j < es.len()
        invariant
            es@ == e0,
            e0 == entries@,
            j <= e0.len(),
            find_key(e0, key, 0) == find_key(e0, key, j as int),
        decreases e0.len() - j,
    {
        if key_eq(&es[j].0, &key) {
            assert(find_key(e0, key, j as int) == Some(j as int));
            let pair = es.remove(j);
            assert(pair == e0[j as int]);
            assert(e0 == entries@);
            assert(find_key(entries@, key, 0) == Some(j as int));
            assert(pair.1 == entries@[j as int].1);
            return pair.1;
        }
        j += 1;
    }
    Value::NoneV
}

/// Whether `v` holds no float anywhere, and every int in it is canonical.
pub open spec fn plain(v: Value) -> bool
    decreases v, 1nat, 0nat,
{
    match v {
        Value::Float(_) => false,
        Value::Int(n) => n.wf(),
        Value::MapV(es) => plain_entries(v, es@.len()),
        Value::List(items) => plain_items(v, items@.len()),
        Value::Record { fields, .. } => plain_items(v, fields@.len()),
        Value::Sub { inner, .. } => plain(*inner),
        Value::ErrV(info) => plain(info.reason),
        Value::Partial(f, args) => plain(*f) && plain_items(v, args@.len()),
        _ => true,
    }
}

/// The first `n` elements a list, a record or a partial application holds
/// are plain.
pub open spec fn plain_items(v: Value, n: nat) -> bool
    decreases v, 0nat, n,
{
    if n == 0 {
        true
    } else {
        match v {
            Value::List(items) => n <= items@.len() && plain_items(v, (n - 1) as nat) && plain(items@[n - 1]),
            Value::Record { fields, .. } => n <= fields@.len() && plain_items(v, (n - 1) as nat) && plain(fields@[n - 1]),
            Value::Partial(_, args) => n <= args@.len() && plain_items(v, (n - 1) as nat) && plain(args@[n - 1]),
            _ => true,
        }
    }
}

/// The first `n` entries of a map are plain, keys and values.
pub open spec fn plain_entries(v: Value, n: nat) -> bool
    decreases v, 0nat, n,
{
    if n == 0 {
        true
    } else {
        match v {
            Value::MapV(es) => n <= es@.len() && plain_entries(v, (n - 1) as nat) && (es@[n - 1].0 matches MapKey::Int(k)
                ==> k.wf()) && plain(es@[n - 1].1),
            _ => true,
        }
    }
}

/// Whether two plain values are equal, as `==` answers: a subtype compares
/// as its base; ints, strings, booleans, `none`, bytes, lists, maps and
/// records compare by content; bytes equal a list of the same numbers; and
/// nothing else is equal.
pub open spec fn values_eq(a: Value, b: Value) -> bool
    decreases a, b, 1nat, 0nat,
{
    if a is Sub {
        values_eq(*a->Sub_inner, b)
    } else if b is Sub {
        values_eq(a, *b->Sub_inner)
    } else {
        match (a, b) {
            (Value::Int(x), Value::Int(y)) => x@ == y@,
            (Value::Str(x), Value::Str(y)) => x@ == y@,
            (Value::True, Value::True) => true,
            (Value::False, Value::False) => true,
            (Value::NoneV, Value::NoneV) => true,
            (Value::Bytes(x), Value::Bytes(y)) => x@ == y@,
            (Value::Bytes(x), Value::List(y)) => bytes_list_eq(x@, y@),
            (Value::List(y), Value::Bytes(x)) => bytes_list_eq(x@, y@),
            (Value::List(x), Value::List(y)) => x@.len() == y@.len() && items_eq(a, b, x@.len()),
            (Value::MapV(x), Value::MapV(y)) => x@.len() == y@.len() && items_eq(a, b, x@.len()),
            (Value::Record { ty: tx, fields: fx }, Value::Record { ty: ty_, fields: fy }) => tx@ == ty_@ && fx@.len()
                == fy@.len() && items_eq(a, b, fx@.len()),
            _ => false,
        }
    }
}

/// Whether bytes equal a list: the same length, each element the int of
/// the byte there.
pub open spec fn bytes_list_eq(x: Seq<u8>, y: Seq<Value>) -> bool {
    x.len() == y.len() && forall|i: int| 0 <= i < x.len() ==> (#[trigger] y[i]) is Int && y[i]->Int_0@ == x[i] as int
}

/// Whether the first `n` elements (or entries) of two lists, maps or
/// records of one shape are equal.
pub open spec fn items_eq(a: Value, b: Value, n: nat) -> bool
    decreases a, b, 0nat, n,
{
    if n == 0 {
        true
    } else {
        match (a, b) {
            (Value::List(x), Value::List(y)) => n <= x@.len() && n <= y@.len() && items_eq(a, b, (n - 1) as nat)
                && values_eq(x@[n - 1], y@[n - 1]),
            (Value::Record { fields: x, .. }, Value::Record { fields: y, .. }) => n <= x@.len() && n <= y@.len()
                && items_eq(a, b, (n - 1) as nat) && values_eq(x@[n - 1], y@[n - 1]),
            (Value::MapV(x), Value::MapV(y)) => n <= x@.len() && n <= y@.len() && items_eq(a, b, (n - 1) as nat)
                && key_same(x@[n - 1].0, y@[n - 1].0) && values_eq(x@[n - 1].1, y@[n - 1].1),
            _ => false,
        }
    }
}

proof fn lemma_plain_items(v: Value, n: nat, i: int)
    requires
        plain_items(v, n),
        0 <= i < n,
    ensures
        v matches Value::List(items) ==> plain(items@[i]),
        v matches Value::Record { fields, .. } ==> plain(fields@[i]),
        v matches Value::Partial(_, args) ==> plain(args@[i]),
    decreases n,
{
    if i < n - 1 {
        lemma_plain_items(v, (n - 1) as nat, i);
    }
}

proof fn lemma_plain_entries(v: Value, n: nat, i: int)
    requires
        plain_entries(v, n),
        0 <= i < n,
    ensures
        v matches Value::MapV(es) ==> plain(es@[i].1) && (es@[i].0 matches MapKey::Int(k) ==> k.wf()),
    decreases n,
{
    if i < n - 1 {
        lemma_plain_entries(v, (n - 1) as nat, i);
    }
}

pub(crate) proof fn lemma_plain_list_item(v: Value, i: int)
    requires
        plain(v),
        v is List,
        0 <= i < v->List_0@.len(),
    ensures
        plain(v->List_0@[i]),
{
    lemma_plain_items(v, v->List_0@.len(), i);
}

pub(crate) proof fn lemma_plain_entry_key(v: Value, i: int)
    requires
        plain(v),
        v is MapV,
        0 <= i < v->MapV_0@.len(),
    ensures
        v->MapV_0@[i].0 matches MapKey::Int(k) ==> k.wf(),
        plain(v->MapV_0@[i].1),
{
    lemma_plain_entries(v, v->MapV_0@.len(), i);
}

proof fn lemma_items_eq_prefix(a: Value, b: Value, k: nat, m: nat)
    requires
        k <= m,
        items_eq(a, b, m),
    ensures
        items_eq(a, b, k),
    decreases m - k,
{
    if k < m {
        lemma_items_eq_prefix(a, b, k, (m - 1) as nat);
    }
}

/// `==` on plain values.
pub fn values_equal(a: &Value, b: &Value) -> (r: bool)
    requires
        plain(*a),
        plain(*b),
    ensures
        r == values_eq(*a, *b),
    decreases *a, *b,
{
    if let Value::Sub { inner, .. } = a {
        return values_equal(inner, b);
    }
    if let Value::Sub { inner, .. } = b {
        return values_equal(a, inner);
    }
    match (a, b) {
        (Value::Int(x), Value::Int(y)) => {
            proof {
                crate::number::lemma_same_iff_equal_value(*x, *y);
            }
            x.equals(y)
        },
        (Value::Str(x), Value::Str(y)) => same_text(x.as_str(), y.as_str()),
        (Value::True, Value::True) => true,
        (Value::False, Value::False) => true,
        (Value::NoneV, Value::NoneV) => true,
        (Value::Bytes(x), Value::Bytes(y)) => bytes_equal(x, y),
        (Value::Bytes(x), Value::List(y)) => bytes_equal_list(x, y, b),
        (Value::List(y), Value::Bytes(x)) => bytes_equal_list(x, y, a),
        (Value::List(x), Value::List(y)) => {
            if x.len() != y.len() {
                return false;
            }
            let mut i: usize = 0;
            while i < x.len()
                invariant
                    *a matches Value::List(xa) && xa == *x,
                    *b matches Value::List(yb) && yb == *y,
                    x@.len() == y@.len(),
                    i <= x@.len(),
                    plain(*a) && plain(*b),
                    items_eq(*a, *b, i as nat),
                decreases x@.len() - i,
            {
                proof {
                    lemma_plain_items(*a, x@.len(), i as int);
                    lemma_plain_items(*b, y@.len(), i as int);
                }
                if !values_equal(&x[i], &y[i]) {
                    proof {
                        if items_eq(*a, *b, x@.len()) {
                            lemma_items_eq_prefix(*a, *b, (i + 1) as nat, x@.len());
                        }
                    }
                    return false;
                }
                i += 1;
            }
            true
        },
        (Value::Record { ty: tx, fields: x }, Value::Record { ty: ty_, fields: y }) => {
            if !same_text(tx.as_str(), ty_.as_str()) || x.len() != y.len() {
                return false;
            }
            let mut i: usize = 0;
            while i < x.len()
                invariant
                    *a matches Value::Record { fields: xa, .. } && xa == *x,
                    *b matches Value::Record { fields: yb, .. } && yb == *y,
                    x@.len() == y@.len(),
                    i <= x@.len(),
                    plain(*a) && plain(*b),
                    items_eq(*a, *b, i as nat),
                decreases x@.len() - i,
            {
                proof {
                    lemma_plain_items(*a, x@.len(), i as int);
                    lemma_plain_items(*b, y@.len(), i as int);
                }
                if !values_equal(&x[i], &y[i]) {
                    proof {
                        if items_eq(*a, *b, x@.len()) {
                            lemma_items_eq_prefix(*a, *b, (i + 1) as nat, x@.len());
                        }
                    }
                    return false;
                }
                i += 1;
            }
            true
        },
        (Value::MapV(x), Value::MapV(y)) => {
            if x.len() != y.len() {
                return false;
            }
            let mut i: usize = 0;
            while i < x.len()
                invariant
                    *a matches Value::MapV(xa) && xa == *x,
                    *b matches Value::MapV(yb) && yb == *y,
                    x@.len() == y@.len(),
                    i <= x@.len(),
                    plain(*a) && plain(*b),
                    items_eq(*a, *b, i as nat),
                decreases x@.len() - i,
            {
                proof {
                    lemma_plain_entries(*a, x@.len(), i as int);
                    lemma_plain_entries(*b, y@.len(), i as int);
                }
                if !key_eq(&x[i].0, &y[i].0) || !values_equal(&x[i].1, &y[i].1) {
                    proof {
                        if items_eq(*a, *b, x@.len()) {
                            lemma_items_eq_prefix(*a, *b, (i + 1) as nat, x@.len());
                        }
                    }
                    return false;
                }
                i += 1;
            }
            true
        },
        _ => false,
    }
}

fn bytes_equal(x: &Vec<u8>, y: &Vec<u8>) -> (r: bool)
    ensures
        r == (x@ == y@),
{
    if x.len() != y.len() {
        return false;
    }
    let mut i: usize = 0;
    while i < x.len()
        invariant
            x@.len() == y@.len(),
            i <= x@.len(),
            forall|j: int| 0 <= j < i ==> x@[j] == y@[j],
        decreases x@.len() - i,
    {
        if x[i] != y[i] {
            return false;
        }
        i += 1;
    }
    assert(x@ =~= y@);
    true
}

fn bytes_equal_list(x: &Vec<u8>, y: &Vec<Value>, whole: &Value) -> (r: bool)
    requires
        *whole matches Value::List(items) && items == *y,
        plain(*whole),
    ensures
        r == bytes_list_eq(x@, y@),
{
    if x.len() != y.len() {
        return false;
    }
    let mut i: usize = 0;
    while i < x.len()
        invariant
            x@.len() == y@.len(),
            i <= x@.len(),
            *whole matches Value::List(items) && items == *y,
            plain(*whole),
            forall|j: int| 0 <= j < i ==> (#[trigger] y@[j]) is Int && y@[j]->Int_0@ == x@[j] as int,
        decreases x@.len() - i,
    {
        proof {
            lemma_plain_items(*whole, y@.len(), i as int);
        }
        match &y[i] {
            Value::Int(n) => {
                let b = Int::from_i64(x[i] as i64);
                proof {
                    crate::number::lemma_same_iff_equal_value(*n, b);
                }
                if !n.equals(&b) {
                    return false;
                }
            },
            _ => {
                return false;
            },
        }
        i += 1;
    }
    true
}

/// What equality declines to answer about: a function, or a subtype of one.
pub open spec fn opaque(v: Value) -> bool
    decreases v,
{
    match v {
        Value::FnRef(_) => true,
        Value::Sub { inner, .. } => opaque(*inner),
        _ => false,
    }
}

fn is_opaque(v: &Value) -> (r: bool)
    ensures
        r == opaque(*v),
    decreases *v,
{
    match v {
        Value::FnRef(_) => true,
        Value::Sub { inner, .. } => is_opaque(inner),
        _ => false,
    }
}

/// The base a subtype wraps, however deep; any other value itself.
pub open spec fn base_of(v: Value) -> Value
    decreases v,
{
    match v {
        Value::Sub { inner, .. } => base_of(*inner),
        _ => v,
    }
}

fn base_ref(v: &Value) -> (r: &Value)
    ensures
        *r == base_of(*v),
        plain(*v) ==> plain(*r),
    decreases *v,
{
    match v {
        Value::Sub { inner, .. } => base_ref(inner),
        _ => v,
    }
}

/// How two values order, where they do: two ints by value and two strings
/// by their characters; -1, 0 or 1.
pub open spec fn order_of(a: Value, b: Value) -> Option<int> {
    match (base_of(a), base_of(b)) {
        (Value::Int(x), Value::Int(y)) => Some(if x@ < y@ { -1int } else if x@ == y@ { 0int } else { 1int }),
        (Value::Str(x), Value::Str(y)) => Some(if seq_lt(x@, y@) { -1int } else if x@ == y@ { 0int } else { 1int }),
        _ => None,
    }
}

/// `true` or `false`.
pub open spec fn bool_v(b: bool) -> Value {
    if b {
        Value::True
    } else {
        Value::False
    }
}

fn bool_value(b: bool) -> (r: Value)
    ensures
        r == bool_v(b),
{
    if b {
        Value::True
    } else {
        Value::False
    }
}

/// Whether `v` is the value `10 / 0` answers: the reason under a math
/// failure under a divide-by-zero failure.
pub open spec fn math_failure_v(v: Value, reason: Seq<char>) -> bool {
    &&& v is Sub
    &&& v->Sub_ty@ == "divide_by_zero"@
    &&& *v->Sub_inner is Sub
    &&& v->Sub_inner->Sub_ty@ == "math_failure"@
    &&& *v->Sub_inner->Sub_inner is Str
    &&& v->Sub_inner->Sub_inner->Str_0@ == reason
}

fn text(s: &str) -> (r: String)
    ensures
        r@ == s@,
{
    string_from_chars(chars_of(s).as_slice())
}

fn math_failure(reason: &str) -> (r: Value)
    ensures
        math_failure_v(r, reason@),
{
    let root = Value::Sub { ty: text("math_failure"), inner: Box::new(Value::Str(text(reason))) };
    Value::Sub { ty: text("divide_by_zero"), inner: Box::new(root) }
}

/// Whether `r` is the error `message` at `span`.
pub open spec fn fails_with(r: Result<Value, RuntimeError>, span: Span, message: Seq<char>) -> bool {
    r matches Err(e) && e.span == span && e.message@ == message
}

/// Whether `r` is the int `n`.
pub open spec fn answers_int(r: Result<Value, RuntimeError>, n: int) -> bool {
    r matches Ok(Value::Int(x)) && x@ == n && x.wf()
}

/// What a binary operator answers on two plain values: one failure passes
/// through and two merge; `==` and `!=` compare by content, and refuse a
/// function; ints add, subtract, multiply, divide and take remainders
/// rounding toward zero, dividing by zero answering a math failure; the
/// bitwise operators take ints that fit 64 bits; `<`, `<=`, `>`, `>=`
/// order two ints or two strings; anything else is an error.
pub open spec fn binop_answers(op: Seq<char>, l: Value, r: Value, span: Span, res: Result<Value, RuntimeError>) -> bool {
    if failing(l) || failing(r) {
        res matches Ok(v) && merges(l, r, v)
    } else if op == "=="@ || op == "!="@ {
        if opaque(l) || opaque(r) {
            fails_with(res, span, "equality is not defined on a function or an effect \u{2014} write an arm for the case you mean"@)
        } else {
            res == Ok::<Value, RuntimeError>(bool_v(values_eq(l, r) == (op == "=="@)))
        }
    } else if l is Int && r is Int && (op == "+"@ || op == "-"@ || op == "*"@ || op == "/"@ || op == "%"@) {
        let a = l->Int_0@;
        let b = r->Int_0@;
        if op == "+"@ {
            answers_int(res, a + b)
        } else if op == "-"@ {
            answers_int(res, a - b)
        } else if op == "*"@ {
            answers_int(res, a * b)
        } else if op == "/"@ {
            if b == 0 {
                res matches Ok(v) && math_failure_v(v, "division by zero"@)
            } else {
                answers_int(res, crate::number::trunc_div(a, b))
            }
        } else if b == 0 {
            res matches Ok(v) && math_failure_v(v, "modulo by zero"@)
        } else {
            answers_int(res, crate::number::trunc_rem(a, b))
        }
    } else if op == "&"@ || op == "|"@ || op == "^"@ {
        if l is Int && r is Int {
            if crate::number::fits_i64(l->Int_0@) && crate::number::fits_i64(r->Int_0@) {
                let x = l->Int_0@ as i64;
                let y = r->Int_0@ as i64;
                answers_int(res, (if op == "&"@ { x & y } else if op == "|"@ { x | y } else { x ^ y }) as int)
            } else {
                fails_with(res, span, "`"@ + op + "` takes whole numbers that fit 64 bits"@)
            }
        } else {
            fails_with(res, span, op_word(op) + " takes whole numbers, got "@ + rendered(if l is Int { r } else { l }, false))
        }
    } else if op == "<"@ || op == "<="@ || op == ">"@ || op == ">="@ {
        match order_of(l, r) {
            Some(o) => res == Ok::<Value, RuntimeError>(
                bool_v(
                    if op == "<"@ {
                        o < 0
                    } else if op == "<="@ {
                        o <= 0
                    } else if op == ">"@ {
                        o > 0
                    } else {
                        o >= 0
                    },
                ),
            ),
            None => fails_with(res, span, "comparison requires two values of one comparable type"@),
        }
    } else {
        fails_with(res, span, "`"@ + op + "` is not defined for these values"@)
    }
}

fn quoted_op(op: &str, rest: &str) -> (r: String)
    ensures
        r@ == "`"@ + op@ + rest@,
{
    let mut out: Vec<char> = Vec::new();
    out.push('`');
    crate::text::push_str(&mut out, op);
    crate::text::push_str(&mut out, rest);
    assert(out@ =~= "`"@ + op@ + rest@) by {
        reveal_strlit("`");
    }
    string_from_chars(out.as_slice())
}

/// A binary operator on two plain values.
pub fn eval_binop(op: &str, left: Value, right: Value, span: Span) -> (r: Result<Value, RuntimeError>)
    requires
        plain(left),
        plain(right),
    ensures
        binop_answers(op@, left, right, span, r),
{
    proof {
        reveal_strlit("==");
        reveal_strlit("!=");
        reveal_strlit("+");
        reveal_strlit("-");
        reveal_strlit("*");
        reveal_strlit("/");
        reveal_strlit("%");
        reveal_strlit("&");
        reveal_strlit("|");
        reveal_strlit("^");
        reveal_strlit("<");
        reveal_strlit("<=");
        reveal_strlit(">");
        reveal_strlit(">=");
    }
    if is_failure(&left) || is_failure(&right) {
        return Ok(accumulate_failures(left, right));
    }
    if same_text(op, "==") || same_text(op, "!=") {
        if is_opaque(&left) || is_opaque(&right) {
            return Err(
                RuntimeError {
                    message: text("equality is not defined on a function or an effect \u{2014} write an arm for the case you mean"),
                    span,
                },
            );
        }
        let equal = values_equal(&left, &right);
        return Ok(bool_value(equal == same_text(op, "==")));
    }
    let arith = same_text(op, "+") || same_text(op, "-") || same_text(op, "*") || same_text(op, "/") || same_text(op, "%");
    if arith {
        if let (Value::Int(a), Value::Int(b)) = (&left, &right) {
            if same_text(op, "+") {
                return Ok(Value::Int(a.add(b)));
            } else if same_text(op, "-") {
                return Ok(Value::Int(a.sub(b)));
            } else if same_text(op, "*") {
                return Ok(Value::Int(a.mul(b)));
            } else if same_text(op, "/") {
                if b.is_zero() {
                    return Ok(math_failure("division by zero"));
                }
                return Ok(Value::Int(a.div(b)));
            } else {
                if b.is_zero() {
                    return Ok(math_failure("modulo by zero"));
                }
                return Ok(Value::Int(a.rem(b)));
            }
        }
    }
    if same_text(op, "&") || same_text(op, "|") || same_text(op, "^") {
        if let (Value::Int(a), Value::Int(b)) = (&left, &right) {
            match (a.to_i64(), b.to_i64()) {
                (Some(x), Some(y)) => {
                    let bits: i64 = if same_text(op, "&") {
                        x & y
                    } else if same_text(op, "|") {
                        x | y
                    } else {
                        x ^ y
                    };
                    return Ok(Value::Int(Int::from_i64(bits)));
                },
                _ => {
                    return Err(RuntimeError { message: quoted_op(op, "` takes whole numbers that fit 64 bits"), span });
                },
            }
        }
        let other = if let Value::Int(_) = &left {
            &right
        } else {
            &left
        };
        return Err(RuntimeError { message: bitwise_complaint(op, other), span });
    }
    if same_text(op, "<") || same_text(op, "<=") || same_text(op, ">") || same_text(op, ">=") {
        let o: Option<i8> = match (base_ref(&left), base_ref(&right)) {
            (Value::Int(x), Value::Int(y)) => Some(x.order(y)),
            (Value::Str(x), Value::Str(y)) => Some(
                if text_less(x.as_str(), y.as_str()) {
                    -1
                } else if same_text(x.as_str(), y.as_str()) {
                    0
                } else {
                    1
                },
            ),
            _ => None,
        };
        return match o {
            Some(o) => Ok(
                bool_value(
                    if same_text(op, "<") {
                        o < 0
                    } else if same_text(op, "<=") {
                        o <= 0
                    } else if same_text(op, ">") {
                        o > 0
                    } else {
                        o >= 0
                    },
                ),
            ),
            None => Err(RuntimeError { message: text("comparison requires two values of one comparable type"), span }),
        };
    }
    Err(RuntimeError { message: quoted_op(op, "` is not defined for these values"), span })
}

/// How a plain value prints: a subtype as its base; an int in decimal; a
/// string quoted where `quote` asks; `true`, `false` and `<none>`; an err
/// as `err` and its reason; a list or bytes between brackets, elements
/// apart by a space; a map between braces as `key:value` pairs; a record as
/// its type and fields; a function as `<fn>`. Inside a container strings
/// are quoted.
pub open spec fn rendered(v: Value, quote: bool) -> Seq<char>
    decreases v, 1nat, 0nat,
{
    match v {
        Value::Sub { inner, .. } => rendered(*inner, quote),
        Value::Int(n) => crate::text::decimal(n@),
        Value::MapV(es) => if es@.len() == 0 {
            "{}"@
        } else {
            "{ "@ + rendered_parts(v, es@.len()) + " }"@
        },
        Value::Str(t) => if quote {
            "\""@ + t@ + "\""@
        } else {
            t@
        },
        Value::True => "true"@,
        Value::False => "false"@,
        Value::NoneV => "<none>"@,
        Value::ErrV(info) => "err "@ + rendered(info.reason, true),
        Value::List(items) => "["@ + rendered_parts(v, items@.len()) + "]"@,
        Value::Bytes(bs) => "["@ + rendered_parts(v, bs@.len()) + "]"@,
        Value::Record { ty, fields } => if fields@.len() == 0 {
            ty@
        } else {
            ty@ + " "@ + rendered_parts(v, fields@.len())
        },
        _ => "<fn>"@,
    }
}

/// The first `n` parts of a container, each rendered, apart by a space.
pub open spec fn rendered_parts(v: Value, n: nat) -> Seq<char>
    decreases v, 0nat, n,
{
    if n == 0 {
        Seq::empty()
    } else {
        let sep = if n == 1 { Seq::empty() } else { rendered_parts(v, (n - 1) as nat) + " "@ };
        sep + match v {
            Value::List(items) => if n <= items@.len() { rendered(items@[n - 1], true) } else { Seq::empty() },
            Value::Record { fields, .. } => if n <= fields@.len() { rendered(fields@[n - 1], true) } else { Seq::empty() },
            Value::Bytes(bs) => if n <= bs@.len() { crate::text::decimal(bs@[n - 1] as int) } else { Seq::empty() },
            Value::MapV(es) => if n <= es@.len() {
                key_text(es@[n - 1].0) + ":"@ + rendered(es@[n - 1].1, true)
            } else {
                Seq::empty()
            },
            _ => Seq::empty(),
        }
    }
}

/// A map key as it prints.
pub open spec fn key_text(k: MapKey) -> Seq<char> {
    match k {
        MapKey::Int(n) => crate::text::decimal(n@),
        MapKey::Str(t) => "\""@ + t@ + "\""@,
    }
}

fn push_key(k: &MapKey, out: &mut Vec<char>)
    requires
        k matches MapKey::Int(n) ==> n.wf(),
    ensures
        final(out)@ == old(out)@ + key_text(*k),
{
    match k {
        MapKey::Int(n) => {
            let t = n.render();
            crate::text::push_str(out, t.as_str());
        },
        MapKey::Str(t) => {
            out.push('"');
            crate::text::push_str(out, t.as_str());
            out.push('"');
            assert(final(out)@ =~= old(out)@ + key_text(*k)) by {
                reveal_strlit("\"");
            }
        },
    }
}

/// Appends how `v` prints.
fn push_rendered(v: &Value, quote: bool, out: &mut Vec<char>)
    requires
        plain(*v),
    ensures
        final(out)@ == old(out)@ + rendered(*v, quote),
    decreases *v,
{
    proof {
        reveal_strlit("{}");
        reveal_strlit("{ ");
        reveal_strlit(" }");
        reveal_strlit("\"");
        reveal_strlit("true");
        reveal_strlit("false");
        reveal_strlit("<none>");
        reveal_strlit("err ");
        reveal_strlit("[");
        reveal_strlit("]");
        reveal_strlit(" ");
        reveal_strlit("<fn>");
        reveal_strlit(":");
    }
    let ghost o = out@;
    match v {
        Value::Sub { inner, .. } => push_rendered(inner, quote, out),
        Value::Int(n) => {
            let t = n.render();
            crate::text::push_str(out, t.as_str());
        },
        Value::Str(t) => {
            if quote {
                out.push('"');
                crate::text::push_str(out, t.as_str());
                out.push('"');
                assert(out@ =~= o + rendered(*v, quote));
            } else {
                crate::text::push_str(out, t.as_str());
            }
        },
        Value::True => crate::text::push_str(out, "true"),
        Value::False => crate::text::push_str(out, "false"),
        Value::NoneV => crate::text::push_str(out, "<none>"),
        Value::ErrV(info) => {
            crate::text::push_str(out, "err ");
            push_rendered(&info.reason, true, out);
            assert(out@ =~= o + rendered(*v, quote));
        },
        Value::MapV(es) => {
            if es.len() == 0 {
                crate::text::push_str(out, "{}");
            } else {
                crate::text::push_str(out, "{ ");
                push_parts(v, out);
                crate::text::push_str(out, " }");
                assert(out@ =~= o + rendered(*v, quote));
            }
        },
        Value::List(_) | Value::Bytes(_) => {
            out.push('[');
            push_parts(v, out);
            out.push(']');
            assert(out@ =~= o + rendered(*v, quote));
        },
        Value::Record { ty, fields } => {
            crate::text::push_str(out, ty.as_str());
            if fields.len() > 0 {
                out.push(' ');
                push_parts(v, out);
                assert(out@ =~= o + rendered(*v, quote));
            }
        },
        _ => crate::text::push_str(out, "<fn>"),
    }
}

/// The number of parts a container renders.
pub open spec fn part_count(v: Value) -> nat {
    match v {
        Value::List(items) => items@.len(),
        Value::Record { fields, .. } => fields@.len(),
        Value::Bytes(bs) => bs@.len(),
        Value::MapV(es) => es@.len(),
        _ => 0,
    }
}

fn push_parts(v: &Value, out: &mut Vec<char>)
    requires
        plain(*v),
    ensures
        final(out)@ == old(out)@ + rendered_parts(*v, part_count(*v)),
    decreases *v, 0nat,
{
    proof {
        reveal_strlit(" ");
        reveal_strlit(":");
    }
    let ghost o = out@;
    let n: usize = match v {
        Value::List(items) => items.len(),
        Value::Record { fields, .. } => fields.len(),
        Value::Bytes(bs) => bs.len(),
        Value::MapV(es) => es.len(),
        _ => 0,
    };
    let mut i: usize = 0;
    while i < n
        invariant
            n == part_count(*v),
            i <= n,
            plain(*v),
            out@ == o + rendered_parts(*v, i as nat),
        decreases n - i,
    {
        proof {
            reveal_strlit(" ");
            reveal_strlit(":");
        }
        if i > 0 {
            out.push(' ');
        }
        let ghost mid = out@;
        match v {
            Value::List(items) => {
                proof {
                    lemma_plain_items(*v, items@.len(), i as int);
                }
                push_rendered(&items[i], true, out);
            },
            Value::Record { fields, .. } => {
                proof {
                    lemma_plain_items(*v, fields@.len(), i as int);
                }
                push_rendered(&fields[i], true, out);
            },
            Value::Bytes(bs) => {
                crate::text::push_i64(bs[i] as i64, out);
            },
            Value::MapV(es) => {
                proof {
                    lemma_plain_entries(*v, es@.len(), i as int);
                }
                push_key(&es[i].0, out);
                out.push(':');
                push_rendered(&es[i].1, true, out);
            },
            _ => {},
        }
        assert(out@ =~= o + rendered_parts(*v, (i + 1) as nat));
        i += 1;
    }
}

/// How a plain value prints.
pub fn render_demanded(v: &Value, quote: bool) -> (r: String)
    requires
        plain(*v),
    ensures
        r@ == rendered(*v, quote),
{
    let mut out: Vec<char> = Vec::new();
    push_rendered(v, quote, &mut out);
    assert(out@ =~= rendered(*v, quote));
    string_from_chars(out.as_slice())
}

/// The name a bitwise operator's complaint uses: that of the function in
/// std/bits it shares its meaning with.
pub open spec fn op_word(op: Seq<char>) -> Seq<char> {
    if op == "&"@ {
        "and"@
    } else if op == "|"@ {
        "or"@
    } else {
        "xor"@
    }
}

fn bitwise_complaint(op: &str, other: &Value) -> (r: String)
    requires
        plain(*other),
    ensures
        r@ == op_word(op@) + " takes whole numbers, got "@ + rendered(*other, false),
{
    let mut out: Vec<char> = Vec::new();
    if same_text(op, "&") {
        crate::text::push_str(&mut out, "and");
    } else if same_text(op, "|") {
        crate::text::push_str(&mut out, "or");
    } else {
        crate::text::push_str(&mut out, "xor");
    }
    crate::text::push_str(&mut out, " takes whole numbers, got ");
    push_rendered(other, false, &mut out);
    assert(out@ =~= op_word(op@) + " takes whole numbers, got "@ + rendered(*other, false));
    string_from_chars(out.as_slice())
}

/// What a dispatcher passing a failure through makes of it: an err gains
/// the dispatcher's name as its last hop, everything else of it kept; a
/// field getter leaves no hop; anything that is not an err passes as it is.
pub open spec fn hopped(failure: Value, name: Seq<char>, r: Value) -> bool {
    if crate::ast::is_getter_name(name) || !(failure is ErrV) {
        r == failure
    } else {
        &&& r is ErrV
        &&& r->ErrV_0.hops@.len() == failure->ErrV_0.hops@.len() + 1
        &&& forall|i: int| 0 <= i < failure->ErrV_0.hops@.len() ==> #[trigger] r->ErrV_0.hops@[i] == failure->ErrV_0.hops@[i]
        &&& r->ErrV_0.hops@.last()@ == name
        &&& r->ErrV_0.reason == failure->ErrV_0.reason
        &&& r->ErrV_0.origin == failure->ErrV_0.origin
        &&& r->ErrV_0.hako == failure->ErrV_0.hako
        &&& r->ErrV_0.cause == failure->ErrV_0.cause
        &&& r->ErrV_0.merged == failure->ErrV_0.merged
    }
}

/// A dispatcher passes a failure through, recording its name.
pub fn hop(failure: Value, name: &str) -> (r: Value)
    ensures
        hopped(failure, name@, r),
{
    if crate::ast::getter_field(name).is_some() {
        return failure;
    }
    match failure {
        Value::ErrV(info) => {
            let mut info = info;
            info.hops.push(text(name));
            Value::ErrV(info)
        },
        other => other,
    }
}

/// Whether two map keys are one key: two ints of one value, or two
/// strings of one text.
pub open spec fn one_key(a: MapKey, b: MapKey) -> bool {
    match (a, b) {
        (MapKey::Int(x), MapKey::Int(y)) => x@ == y@,
        (MapKey::Str(x), MapKey::Str(y)) => x@ == y@,
        _ => false,
    }
}

proof fn lemma_items_eq_parts(a: Value, b: Value, n: nat, i: int)
    requires
        items_eq(a, b, n),
        0 <= i < n,
    ensures
        a is MapV && b is MapV ==> key_same(a->MapV_0@[i].0, b->MapV_0@[i].0) && values_eq(a->MapV_0@[i].1, b->MapV_0@[i].1),
        a is List && b is List ==> values_eq(a->List_0@[i], b->List_0@[i]),
    decreases n,
{
    if i < n - 1 {
        lemma_items_eq_parts(a, b, (n - 1) as nat, i);
    }
}

/// Two maps are equal only where they hold the same keys in the same
/// order, each with an equal value: maps that differ in a key differ.
pub proof fn law_equal_maps_share_keys(a: Value, b: Value)
    requires
        a is MapV,
        b is MapV,
        plain(a),
        plain(b),
        values_eq(a, b),
    ensures
        a->MapV_0@.len() == b->MapV_0@.len(),
        forall|i: int| 0 <= i < a->MapV_0@.len() ==> one_key(#[trigger] a->MapV_0@[i].0, b->MapV_0@[i].0),
        forall|i: int| 0 <= i < a->MapV_0@.len() ==> values_eq(#[trigger] a->MapV_0@[i].1, b->MapV_0@[i].1),
{
    assert forall|i: int| 0 <= i < a->MapV_0@.len() implies values_eq(#[trigger] a->MapV_0@[i].1, b->MapV_0@[i].1) by {
        lemma_items_eq_parts(a, b, a->MapV_0@.len(), i);
    }
    assert forall|i: int| 0 <= i < a->MapV_0@.len() implies one_key(#[trigger] a->MapV_0@[i].0, b->MapV_0@[i].0) by {
        lemma_items_eq_parts(a, b, a->MapV_0@.len(), i);
        lemma_plain_entries(a, a->MapV_0@.len(), i);
        lemma_plain_entries(b, b->MapV_0@.len(), i);
        match (a->MapV_0@[i].0, b->MapV_0@[i].0) {
            (MapKey::Int(x), MapKey::Int(y)) => crate::number::lemma_same_iff_equal_value(x, y),
            _ => {},
        }
    }
}

/// Two lists are equal only where they are as long and equal element by
/// element.
pub proof fn law_equal_lists_match(a: Value, b: Value)
    requires
        a is List,
        b is List,
        values_eq(a, b),
    ensures
        a->List_0@.len() == b->List_0@.len(),
        forall|i: int| 0 <= i < a->List_0@.len() ==> values_eq(#[trigger] a->List_0@[i], b->List_0@[i]),
{
    assert forall|i: int| 0 <= i < a->List_0@.len() implies values_eq(#[trigger] a->List_0@[i], b->List_0@[i]) by {
        lemma_items_eq_parts(a, b, a->List_0@.len(), i);
    }
}

/// `==` on two maps answers true only where they hold the same keys in the
/// same order: maps that differ in a key compare unequal.
pub proof fn law_map_equality_sees_keys(a: Value, b: Value, span: Span, res: Result<Value, RuntimeError>)
    requires
        a is MapV,
        b is MapV,
        plain(a),
        plain(b),
        binop_answers("=="@, a, b, span, res),
        res == Ok::<Value, RuntimeError>(Value::True),
    ensures
        a->MapV_0@.len() == b->MapV_0@.len(),
        forall|i: int| 0 <= i < a->MapV_0@.len() ==> one_key(#[trigger] a->MapV_0@[i].0, b->MapV_0@[i].0),
{
    assert(values_eq(a, b));
    law_equal_maps_share_keys(a, b);
}

/// Ints add, subtract and multiply as numbers do; a zero divisor answers
/// a value, never an error; and a quotient and a remainder of one division
/// put the dividend back together.
pub proof fn law_int_arithmetic(
    a: Value,
    b: Value,
    span: Span,
    sum: Result<Value, RuntimeError>,
    diff: Result<Value, RuntimeError>,
    prod: Result<Value, RuntimeError>,
    quot: Result<Value, RuntimeError>,
    rem: Result<Value, RuntimeError>,
)
    requires
        a is Int,
        b is Int,
        binop_answers("+"@, a, b, span, sum),
        binop_answers("-"@, a, b, span, diff),
        binop_answers("*"@, a, b, span, prod),
        binop_answers("/"@, a, b, span, quot),
        binop_answers("%"@, a, b, span, rem),
    ensures
        sum matches Ok(Value::Int(m)) && m@ == a->Int_0@ + b->Int_0@,
        diff matches Ok(Value::Int(m)) && m@ == a->Int_0@ - b->Int_0@,
        prod matches Ok(Value::Int(m)) && m@ == a->Int_0@ * b->Int_0@,
        b->Int_0@ == 0 ==> quot is Ok && !(quot->Ok_0 is Int) && rem is Ok && !(rem->Ok_0 is Int),
        b->Int_0@ != 0 ==> (quot matches Ok(Value::Int(q)) && (rem matches Ok(Value::Int(m)) && q@ * b->Int_0@ + m@ == a->Int_0@)),
{
    reveal_strlit("+");
    reveal_strlit("-");
    reveal_strlit("*");
    reveal_strlit("/");
    reveal_strlit("%");
    reveal_strlit("==");
    reveal_strlit("!=");
    reveal_strlit("&");
    reveal_strlit("|");
    reveal_strlit("^");
    assert(!failing(a) && !failing(b));
    assert("+"@[0] == '+' && "-"@[0] == '-' && "*"@[0] == '*' && "/"@[0] == '/' && "%"@[0] == '%' && "=="@.len() == 2
        && "!="@.len() == 2 && "+"@.len() == 1 && "-"@.len() == 1 && "*"@.len() == 1);
    assert("+"@ != "=="@ && "+"@ != "!="@ && "-"@ != "=="@ && "-"@ != "!="@ && "*"@ != "=="@ && "*"@ != "!="@);
    assert("/"@ != "=="@ && "/"@ != "!="@ && "%"@ != "=="@ && "%"@ != "!="@);
    assert("-"@ != "+"@ && "*"@ != "+"@ && "*"@ != "-"@ && "/"@ != "+"@ && "/"@ != "-"@ && "/"@ != "*"@);
    assert("%"@ != "+"@ && "%"@ != "-"@ && "%"@ != "*"@ && "%"@ != "/"@);
    if b->Int_0@ != 0 {
        let q = crate::number::trunc_div(a->Int_0@, b->Int_0@);
        assert(q * b->Int_0@ == b->Int_0@ * q) by (nonlinear_arith);
    }
}

/// Two ints order as numbers do: `<`, `<=`, `>` and `>=` answer true
/// exactly where the first is less, at most, greater, or at least the
/// second.
pub proof fn law_int_ordering(
    a: Value,
    b: Value,
    span: Span,
    lt: Result<Value, RuntimeError>,
    le: Result<Value, RuntimeError>,
    gt: Result<Value, RuntimeError>,
    ge: Result<Value, RuntimeError>,
)
    requires
        a is Int,
        b is Int,
        binop_answers("<"@, a, b, span, lt),
        binop_answers("<="@, a, b, span, le),
        binop_answers(">"@, a, b, span, gt),
        binop_answers(">="@, a, b, span, ge),
    ensures
        lt == Ok::<Value, RuntimeError>(if a->Int_0@ < b->Int_0@ { Value::True } else { Value::False }),
        le == Ok::<Value, RuntimeError>(if a->Int_0@ <= b->Int_0@ { Value::True } else { Value::False }),
        gt == Ok::<Value, RuntimeError>(if a->Int_0@ > b->Int_0@ { Value::True } else { Value::False }),
        ge == Ok::<Value, RuntimeError>(if a->Int_0@ >= b->Int_0@ { Value::True } else { Value::False }),
{
    reveal_strlit("<");
    reveal_strlit("<=");
    reveal_strlit(">");
    reveal_strlit(">=");
    reveal_strlit("==");
    reveal_strlit("!=");
    reveal_strlit("&");
    reveal_strlit("|");
    reveal_strlit("^");
    reveal_strlit("+");
    reveal_strlit("-");
    reveal_strlit("*");
    reveal_strlit("/");
    reveal_strlit("%");
    assert(!failing(a) && !failing(b));
    assert("<"@[0] == '<' && ">"@[0] == '>' && "<="@[0] == '<' && ">="@[0] == '>' && "<="@[1] == '=' && ">="@[1] == '=');
    assert("&"@[0] == '&' && "|"@[0] == '|' && "^"@[0] == '^' && "=="@[0] == '=' && "!="@[0] == '!');
    assert("+"@[0] == '+' && "-"@[0] == '-' && "*"@[0] == '*' && "/"@[0] == '/' && "%"@[0] == '%');
    assert("<"@.len() == 1 && ">"@.len() == 1 && "<="@.len() == 2 && ">="@.len() == 2 && "=="@.len() == 2 && "!="@.len() == 2);
    assert("<"@ != "&"@ && "<"@ != "|"@ && "<"@ != "^"@ && ">"@ != "&"@ && ">"@ != "|"@ && ">"@ != "^"@);
    assert("<="@ != "=="@ && "<="@ != "!="@ && ">="@ != "=="@ && ">="@ != "!="@);
    assert("<="@ != "<"@ && ">"@ != "<"@ && ">"@ != "<="@ && ">="@ != "<"@ && ">="@ != "<="@ && ">="@ != ">"@);
    assert(base_of(a) == a && base_of(b) == b);
}

/// `==` and `!=` on two plain values that hold no function answer
/// opposite truths.
pub proof fn law_equality_complement(
    a: Value,
    b: Value,
    span: Span,
    eq: Result<Value, RuntimeError>,
    ne: Result<Value, RuntimeError>,
)
    requires
        !failing(a),
        !failing(b),
        !opaque(a),
        !opaque(b),
        binop_answers("=="@, a, b, span, eq),
        binop_answers("!="@, a, b, span, ne),
    ensures
        eq == Ok::<Value, RuntimeError>(Value::True) <==> ne == Ok::<Value, RuntimeError>(Value::False),
        eq == Ok::<Value, RuntimeError>(Value::False) <==> ne == Ok::<Value, RuntimeError>(Value::True),
        eq is Ok && ne is Ok,
{
    reveal_strlit("==");
    reveal_strlit("!=");
    assert("=="@[0] != "!="@[0]);
}

} // verus!
