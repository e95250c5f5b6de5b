//! The builtins that compute on plain values alone. A call first sees its
//! arguments' subtypes as their bases; `if` and `wrap_err` read a failure
//! as a value; every other builtin answers the failures among its
//! arguments, merged, before it looks at them.

use vstd::prelude::*;
use crate::diag::Span;
use crate::number::Int;
use crate::text::{chars_of, digits_of, has_prefix, push_str, push_u64, same_text, seq_lt, string_from_chars, text_less};
use super::{chain_word, chain_word_of, origin_at, origin_line, RuntimeError, Site};
use super::value::{
    all_merged, base_of, failing, failures, fails_with, index_value, indexes, is_failure, key_same, merged_failures, plain,
    render_demanded, rendered, ErrInfo, MapKey, Value,
};

verus! {

/// A builtin's name with the `builtin_` prefix taken off, where it has one.
pub open spec fn bare(name: Seq<char>) -> Seq<char> {
    if has_prefix(name, "builtin_"@) {
        name.subrange(8, name.len() as int)
    } else {
        name
    }
}

/// What a wrong number of arguments says.
pub open spec fn arity_message(name: Seq<char>, want: nat, got: nat) -> Seq<char> {
    "`"@ + name + "` takes "@ + digits_of(want) + " argument(s), got "@ + digits_of(got)
}

/// The hint a lazy sequence adds where a list was wanted.
pub open spec fn lazy_hint(v: Value) -> Seq<char> {
    if v is Record && (has_prefix(v->Record_ty@, "list/"@) || exists|i: int|
        0 <= i <= v->Record_ty@.len() - 6 && #[trigger] v->Record_ty@.subrange(i, i + 6) == "/list/"@) {
        " \u{2014} a lazy sequence becomes a list with list/to_list"@
    } else {
        Seq::empty()
    }
}

/// A position argument as `slice` reads it: a whole number a machine word
/// holds, and 0 otherwise.
pub open spec fn pos_or_zero(v: Value) -> int {
    let i = v->Int_0@;
    if 0 <= i <= i64::MAX && i <= usize::MAX {
        i
    } else {
        0
    }
}

/// Whether the 1-based inclusive range `from..=to` lies in `1..=len`.
pub open spec fn slice_fits(from: int, to: int, len: int) -> bool {
    1 <= from <= to <= len
}

/// Whether `r` answers `Ok` of a list holding exactly `s`.
pub open spec fn answers_list(r: Result<Value, RuntimeError>, s: Seq<Value>) -> bool {
    r matches Ok(Value::List(v)) && v@ == s
}

/// The one-character strings of `t`, in order.
pub open spec fn char_strings(t: Seq<char>, r: Seq<Value>) -> bool {
    r.len() == t.len() && forall|i: int| 0 <= i < t.len() ==> (#[trigger] r[i]) is Str && r[i]->Str_0@ == seq![t[i]]
}

/// How many items `length` counts, where it counts.
pub open spec fn length_of(v: Value) -> Option<int> {
    match v {
        Value::List(items) => Some(items@.len() as int),
        Value::Bytes(bs) => Some(bs@.len() as int),
        Value::Str(t) => Some(t@.len() as int),
        Value::MapV(es) => Some(es@.len() as int),
        _ => None,
    }
}

/// What a builtin answers on plain arguments `a`, each already its base:
/// `None` for a builtin this module does not compute (an effect, one that
/// takes a function, a chain word, or one on floats).
pub open spec fn builtin_answers(
    name: Seq<char>,
    a: Seq<Value>,
    span: Span,
    frame: Option<Site>,
    r: Option<Result<Value, RuntimeError>>,
) -> bool {
    let n = bare(name);
    if n == "if"@ {
        r matches Some(x) && if a.len() != 3 {
            fails_with(x, span, arity_message(n, 3, a.len()))
        } else if a[0] is True {
            x == Ok::<Value, RuntimeError>(a[1])
        } else if a[0] is False {
            x == Ok::<Value, RuntimeError>(a[2])
        } else if failing(a[0]) {
            x == Ok::<Value, RuntimeError>(a[0])
        } else {
            fails_with(x, span, "an if condition is true or false, got "@ + rendered(a[0], false))
        }
    } else if n == "wrap_err"@ {
        r matches Some(x) && if a.len() != 2 {
            fails_with(x, span, arity_message(n, 2, a.len()))
        } else if failing(a[0]) {
            x == Ok::<Value, RuntimeError>(a[0])
        } else if !(a[1] is ErrV) {
            fails_with(x, span, "wrap_err takes a reason and the err it wraps"@)
        } else {
            x matches Ok(Value::ErrV(info)) && info.reason == a[0] && info.hops@.len() == 0 && !info.merged
                && info.cause == Some(a[1]->ErrV_0) && (match frame {
                Some(site) => (info.origin matches Some(o) && o@ == origin_line(site, span)) && (info.hako matches Some(h)
                    && h@ == site.hako@),
                None => info.origin is None && info.hako is None,
            })
        }
    } else if chain_word_of(n) is Some {
        r is None
    } else if failures(a).len() > 0 {
        r matches Some(Ok(v)) && all_merged(a, v)
    } else if n == "at"@ {
        r matches Some(x) && if a.len() != 2 {
            fails_with(x, span, arity_message(n, 2, a.len()))
        } else {
            indexes(a[0], a[1], span, x)
        }
    } else if n == "push"@ {
        r matches Some(x) && if a.len() != 2 {
            fails_with(x, span, arity_message(n, 2, a.len()))
        } else if a[0] is List {
            answers_list(x, a[0]->List_0@.push(a[1]))
        } else {
            fails_with(x, span, "push takes a list and a value"@ + lazy_hint(a[0]))
        }
    } else if n == "concat"@ {
        r matches Some(x) && if a.len() != 2 {
            fails_with(x, span, arity_message(n, 2, a.len()))
        } else if a[0] is List && a[1] is List {
            answers_list(x, a[0]->List_0@ + a[1]->List_0@)
        } else {
            fails_with(x, span, "concat takes two lists"@)
        }
    } else if n == "length"@ {
        r matches Some(x) && if a.len() != 1 {
            fails_with(x, span, arity_message(n, 1, a.len()))
        } else {
            match length_of(a[0]) {
                Some(k) => x matches Ok(Value::Int(m)) && m@ == k && m.wf(),
                None => fails_with(
                    x,
                    span,
                    "length takes a list, string, or map, not "@ + rendered(a[0], true) + lazy_hint(a[0]),
                ),
            }
        }
    } else if n == "chars"@ {
        r matches Some(x) && if a.len() != 1 {
            fails_with(x, span, arity_message(n, 1, a.len()))
        } else if a[0] is Str {
            x matches Ok(Value::List(v)) && char_strings(a[0]->Str_0@, v@)
        } else {
            fails_with(x, span, "chars takes a string"@)
        }
    } else if n == "slice"@ {
        r matches Some(x) && if a.len() != 3 {
            fails_with(x, span, arity_message(n, 3, a.len()))
        } else if !(a[1] is Int && a[2] is Int) {
            fails_with(x, span, "slice takes 1-based inclusive positions"@)
        } else {
            let from = pos_or_zero(a[1]);
            let to = pos_or_zero(a[2]);
            match a[0] {
                Value::List(items) => answers_list(
                    x,
                    if slice_fits(from, to, items@.len() as int) {
                        items@.subrange(from - 1, to)
                    } else {
                        Seq::empty()
                    },
                ),
                Value::Bytes(bs) => x matches Ok(Value::Bytes(v)) && v@ == if slice_fits(from, to, bs@.len() as int) {
                    bs@.subrange(from - 1, to)
                } else {
                    Seq::empty()
                },
                Value::Str(t) => x matches Ok(Value::Str(v)) && v@ == if slice_fits(from, to, t@.len() as int) {
                    t@.subrange(from - 1, to)
                } else {
                    Seq::empty()
                },
                _ => fails_with(x, span, "slice takes a list or string"@),
            }
        }
    } else if n == "bit_and"@ || n == "bit_or"@ || n == "bit_xor"@ {
        r matches Some(x) && if a.len() != 2 {
            fails_with(x, span, arity_message(n, 2, a.len()))
        } else if whole_of(a[0]) is None {
            fails_with(x, span, whole_error(said(n), a[0]))
        } else if whole_of(a[1]) is None {
            fails_with(x, span, whole_error(said(n), a[1]))
        } else {
            let p = whole_of(a[0])->0;
            let q = whole_of(a[1])->0;
            answers_word(x, if n == "bit_and"@ { p & q } else if n == "bit_or"@ { p | q } else { p ^ q })
        }
    } else if n == "bit_not"@ {
        r matches Some(x) && if a.len() != 1 {
            fails_with(x, span, arity_message(n, 1, a.len()))
        } else if whole_of(a[0]) is None {
            fails_with(x, span, whole_error(said(n), a[0]))
        } else {
            answers_word(x, !whole_of(a[0])->0)
        }
    } else if n == "bit_shl"@ || n == "bit_shr"@ {
        r matches Some(x) && if a.len() != 2 {
            fails_with(x, span, arity_message(n, 2, a.len()))
        } else if whole_of(a[0]) is None {
            fails_with(x, span, whole_error(said(n), a[0]))
        } else if whole_of(a[1]) is None {
            fails_with(x, span, whole_error(said(n), a[1]))
        } else {
            let bits = whole_of(a[0])->0;
            let by = whole_of(a[1])->0;
            if !(0 <= by <= 63) {
                fails_with(x, span, said(n) + " shifts by 0 to 63 places, got "@ + crate::text::decimal(by as int))
            } else {
                answers_word(
                    x,
                    if n == "bit_shl"@ {
                        shl_word(bits, by)
                    } else {
                        bits >> (by as i64)
                    },
                )
            }
        }
    } else if n == "is_desc"@ {
        r matches Some(x) && if a.len() != 1 {
            fails_with(x, span, arity_message(n, 1, a.len()))
        } else {
            x == Ok::<Value, RuntimeError>(Value::False)
        }
    } else if n == "round"@ {
        r matches Some(x) && if a.len() != 1 {
            fails_with(x, span, arity_message(n, 1, a.len()))
        } else if a[0] is Int {
            x == Ok::<Value, RuntimeError>(a[0])
        } else {
            fails_with(x, span, "round takes a number, got "@ + rendered(a[0], false))
        }
    } else if n == "char_code"@ {
        r matches Some(x) && if a.len() != 1 {
            fails_with(x, span, arity_message(n, 1, a.len()))
        } else if a[0] is Str && a[0]->Str_0@.len() == 1 {
            x matches Ok(Value::Int(m)) && m@ == (a[0]->Str_0@[0] as u32) as int && m.wf()
        } else {
            fails_with(x, span, "char_code takes a one-character string"@)
        }
    } else if n == "join"@ {
        r matches Some(x) && if a.len() != 2 {
            fails_with(x, span, arity_message(n, 2, a.len()))
        } else if !(a[0] is List && a[1] is Str) {
            fails_with(x, span, "join takes a list of strings and a separator"@)
        } else {
            match first_non_str(a[0]->List_0@, 0) {
                None => x matches Ok(Value::Str(t)) && t@ == crate::text::join_with(texts_in(a[0]->List_0@), a[1]->Str_0@),
                Some(k) => if failing(a[0]->List_0@[k]) {
                    x == Ok::<Value, RuntimeError>(a[0]->List_0@[k])
                } else {
                    fails_with(x, span, "join takes a list of strings"@)
                },
            }
        }
    } else if n == "put"@ {
        r matches Some(x) && if a.len() != 3 {
            fails_with(x, span, arity_message(n, 3, a.len()))
        } else if !(a[0] is MapV) {
            fails_with(x, span, "put takes a map, a key, and a value"@)
        } else if !(a[1] is Int || a[1] is Str) {
            fails_with(x, span, rendered(a[1], true) + " is not usable as a map key"@)
        } else {
            x matches Ok(Value::MapV(v)) && v@ == put_into(a[0]->MapV_0@, key_of(a[1]), a[2])
        }
    } else if n == "to_bytes"@ {
        r matches Some(x) && if a.len() != 1 {
            fails_with(x, span, arity_message(n, 1, a.len()))
        } else if !(a[0] is List) {
            fails_with(x, span, "to_bytes takes a list of byte values"@)
        } else {
            match first_non_byte(a[0]->List_0@, 0) {
                None => x matches Ok(Value::Bytes(bs)) && bytes_of(a[0]->List_0@, bs@),
                Some(k) => if failing(a[0]->List_0@[k]) {
                    x == Ok::<Value, RuntimeError>(a[0]->List_0@[k])
                } else {
                    x matches Ok(v) && raised(v, "to_bytes takes byte values (0-255)"@, span, frame)
                },
            }
        }
    } else if n == "entries"@ {
        r matches Some(x) && if a.len() != 1 {
            fails_with(x, span, arity_message(n, 1, a.len()))
        } else if a[0] is MapV {
            x matches Ok(Value::List(v)) && entries_of(a[0]->MapV_0@, v@)
        } else {
            fails_with(x, span, "entries takes a map"@)
        }
    } else {
        r is None
    }
}

/// An int or a string as a map key.
pub open spec fn key_of(v: Value) -> MapKey {
    match v {
        Value::Int(n) => MapKey::Int(n),
        _ => MapKey::Str(v->Str_0),
    }
}

/// How map keys order: ints before strings, ints by value, strings by
/// their characters.
pub open spec fn key_lt(a: MapKey, b: MapKey) -> bool {
    match (a, b) {
        (MapKey::Int(x), MapKey::Int(y)) => x@ < y@,
        (MapKey::Int(_), MapKey::Str(_)) => true,
        (MapKey::Str(_), MapKey::Int(_)) => false,
        (MapKey::Str(x), MapKey::Str(y)) => seq_lt(x@, y@),
    }
}

/// The position of the first entry from `i` on whose key is not below `k`.
pub open spec fn slot_for(es: Seq<(MapKey, Value)>, k: MapKey, i: int) -> int
    decreases es.len() - i,
{
    if i < 0 || i >= es.len() {
        es.len() as int
    } else if !key_lt(es[i].0, k) {
        i
    } else {
        slot_for(es, k, i + 1)
    }
}

/// The entries after `put`: the value under the key replaced where the key
/// is there, else the entry placed where its key orders.
pub open spec fn put_into(es: Seq<(MapKey, Value)>, k: MapKey, v: Value) -> Seq<(MapKey, Value)> {
    let at = slot_for(es, k, 0);
    if at < es.len() && key_same(es[at].0, k) {
        es.update(at, (k, v))
    } else {
        es.insert(at, (k, v))
    }
}

/// Whether `v` is an int that is a byte value.
pub open spec fn is_byte(v: Value) -> bool {
    v is Int && 0 <= v->Int_0@ <= 255
}

/// The position of the first element from `i` on that is not a byte value.
pub open spec fn first_non_byte(items: Seq<Value>, i: int) -> Option<int>
    decreases items.len() - i,
{
    if i < 0 || i >= items.len() {
        None
    } else if !is_byte(items[i]) {
        Some(i)
    } else {
        first_non_byte(items, i + 1)
    }
}

/// Whether `bs` are the byte values `items` hold, in order.
pub open spec fn bytes_of(items: Seq<Value>, bs: Seq<u8>) -> bool {
    bs.len() == items.len() && forall|i: int| 0 <= i < items.len() ==> (#[trigger] items[i])->Int_0@ == bs[i] as int
}

/// Whether `v` is an err raised at `span` in `frame` with the reason `text`.
pub open spec fn raised(v: Value, text: Seq<char>, span: Span, frame: Option<Site>) -> bool {
    &&& v is ErrV
    &&& v->ErrV_0.reason is Str && v->ErrV_0.reason->Str_0@ == text
    &&& v->ErrV_0.hops@.len() == 0 && v->ErrV_0.cause is None && !v->ErrV_0.merged
    &&& match frame {
        Some(site) => (v->ErrV_0.origin matches Some(o) && o@ == origin_line(site, span)) && (v->ErrV_0.hako matches Some(h)
            && h@ == site.hako@),
        None => v->ErrV_0.origin is None && v->ErrV_0.hako is None,
    }
}

/// A map key as a value.
pub open spec fn key_value(k: MapKey) -> Value {
    match k {
        MapKey::Int(n) => Value::Int(n),
        MapKey::Str(t) => Value::Str(t),
    }
}

/// Whether `v` lists a map's entries in order, each an `entry` record of
/// its key and its value.
pub open spec fn entries_of(es: Seq<(MapKey, Value)>, v: Seq<Value>) -> bool {
    v.len() == es.len() && forall|i: int| 0 <= i < es.len() ==> (#[trigger] v[i]) is Record && v[i]->Record_ty@ == "entry"@
        && v[i]->Record_fields@ == seq![key_value(es[i].0), es[i].1]
}

/// A word shifted left by `by` places, as the machine word wraps.
pub open spec fn shl_word(bits: i64, by: i64) -> i64 {
    let u: u64 = #[verifier::truncate] (bits as u64);
    let shifted: u64 = u << (by as u64);
    #[verifier::truncate] (shifted as i64)
}

/// A whole number a machine word holds, where `v` is one.
pub open spec fn whole_of(v: Value) -> Option<i64> {
    if v is Int && crate::number::fits_i64(v->Int_0@) {
        Some(v->Int_0@ as i64)
    } else {
        None
    }
}

/// The name a reader wrote, from the builtin's.
pub open spec fn said(n: Seq<char>) -> Seq<char> {
    if has_prefix(n, "bit_"@) {
        n.subrange(4, n.len() as int)
    } else {
        n
    }
}

/// What a bitwise builtin says of an argument that is not a word.
pub open spec fn whole_error(said: Seq<char>, v: Value) -> Seq<char> {
    if v is Int {
        said + " takes whole numbers that fit 64 bits"@
    } else {
        said + " takes whole numbers, got "@ + rendered(v, false)
    }
}

/// Whether `r` answers the word `w` as an int.
pub open spec fn answers_word(r: Result<Value, RuntimeError>, w: i64) -> bool {
    r matches Ok(Value::Int(m)) && m@ == w as int && m.wf()
}

/// The position of the first element from `i` on that is not a string.
pub open spec fn first_non_str(items: Seq<Value>, i: int) -> Option<int>
    decreases items.len() - i,
{
    if i < 0 || i >= items.len() {
        None
    } else if !(items[i] is Str) {
        Some(i)
    } else {
        first_non_str(items, i + 1)
    }
}

/// The texts of a run of strings.
pub open spec fn texts_in(items: Seq<Value>) -> Seq<Seq<char>> {
    items.map_values(|v: Value| v->Str_0@)
}

/// The bases of the arguments, in order.
pub open spec fn bases(args: Seq<Value>) -> Seq<Value> {
    args.map_values(|v: Value| base_of(v))
}

fn sub_base(v: Value) -> (r: Value)
    ensures
        r == base_of(v),
        plain(v) ==> plain(r),
    decreases v,
{
    match v {
        Value::Sub { inner, .. } => sub_base(*inner),
        other => other,
    }
}

fn strip_prefix(name: &str) -> (r: Vec<char>)
    ensures
        r@ == bare(name@),
{
    let full = chars_of(name);
    let prefix = chars_of("builtin_");
    proof {
        reveal_strlit("builtin_");
    }
    assert(full@.subrange(0, full@.len() as int) =~= full@);
    if crate::text::prefix_at(full.as_slice(), 0, prefix.as_slice()) {
        crate::text::slice_vec(full.as_slice(), 8, full.len())
    } else {
        full
    }
}

fn is_name(n: &Vec<char>, lit: &str) -> (r: bool)
    ensures
        r == (n@ == lit@),
{
    let l = chars_of(lit);
    crate::text::same_chars(n.as_slice(), l.as_slice())
}

fn arity_error(n: &Vec<char>, want: u64, got: usize, span: Span) -> (r: RuntimeError)
    ensures
        r.span == span,
        r.message@ == arity_message(n@, want as nat, got as nat),
{
    let mut out: Vec<char> = Vec::new();
    out.push('`');
    let mut i: usize = 0;
    while i < n.len()
        invariant
            i <= n@.len(),
            out@ == seq!['`'] + n@.subrange(0, i as int),
        decreases n@.len() - i,
    {
        out.push(n[i]);
        i += 1;
        assert(out@ =~= seq!['`'] + n@.subrange(0, i as int));
    }
    push_str(&mut out, "` takes ");
    push_u64(want, &mut out);
    push_str(&mut out, " argument(s), got ");
    push_u64(got as u64, &mut out);
    proof {
        reveal_strlit("`");
    }
    assert(n@.subrange(0, n@.len() as int) =~= n@);
    assert(out@ =~= arity_message(n@, want as nat, got as nat));
    RuntimeError { message: string_from_chars(out.as_slice()), span }
}

fn text(s: &str) -> (r: String)
    ensures
        r@ == s@,
{
    string_from_chars(chars_of(s).as_slice())
}

fn error(message: String, span: Span) -> (r: Result<Value, RuntimeError>)
    ensures
        r matches Err(e) && e.message == message && e.span == span,
{
    Err(RuntimeError { message, span })
}

fn bases_of(args: Vec<Value>) -> (r: Vec<Value>)
    requires
        forall|i: int| 0 <= i < args@.len() ==> plain(#[trigger] args@[i]),
    ensures
        r@ == bases(args@),
        forall|i: int| 0 <= i < r@.len() ==> plain(#[trigger] r@[i]),
{
    let ghost a0 = args@;
    let mut rest = args;
    let mut out: Vec<Value> = Vec::new();
    let n0 = rest.len();
    let mut k: usize = 0;
    assert(out@ =~= bases(a0.subrange(0, 0)));
    assert(rest@ =~= a0.subrange(0, a0.len() as int));
    while rest.len() > 0
        invariant
            n0 == a0.len(),
            k <= a0.len(),
            rest@ == a0.subrange(k as int, a0.len() as int),
            out@ == bases(a0.subrange(0, k as int)),
            forall|i: int| 0 <= i < a0.len() ==> plain(#[trigger] a0[i]),
            forall|i: int| 0 <= i < out@.len() ==> plain(#[trigger] out@[i]),
        decreases rest@.len(),
    {
        let v = rest.remove(0);
        assert(v == a0[k as int]);
        out.push(sub_base(v));
        k += 1;
        assert(out@ =~= bases(a0.subrange(0, k as int)));
        assert(rest@ =~= a0.subrange(k as int, a0.len() as int));
    }
    assert(a0.subrange(0, k as int) =~= a0);
    out
}

/// A position argument as `slice` reads it.
fn pos_of(i: &Int) -> (r: usize)
    requires
        i.wf(),
    ensures
        r as int == pos_or_zero(Value::Int(*i)),
{
    match i.to_u64() {
        Some(n) => {
            if n <= usize::MAX as u64 {
                n as usize
            } else {
                0
            }
        },
        None => {
            proof {
                if *i is Big {
                    assert(!crate::number::fits_i64(i@));
                }
            }
            0
        },
    }
}

fn hint_of(v: &Value) -> (r: String)
    ensures
        r@ == lazy_hint(*v),
{
    match v {
        Value::Record { ty, .. } => {
            let cs = chars_of(ty.as_str());
            let lp = chars_of("list/");
            let mid = chars_of("/list/");
            proof {
                reveal_strlit("list/");
                reveal_strlit("/list/");
            }
            assert(cs@.subrange(0, cs@.len() as int) =~= cs@);
            let mut hit = crate::text::prefix_at(cs.as_slice(), 0, lp.as_slice());
            let n = cs.len();
            let mut i: usize = 0;
            while !hit && i < n && n - i >= 6
                invariant
                    n == cs@.len(),
                    cs@ == ty@,
                    mid@ == "/list/"@,
                    lp@ == "list/"@,
                    hit == (has_prefix(cs@, "list/"@) || exists|j: int| 0 <= j < i && j <= cs@.len() - 6 && #[trigger] cs@.subrange(j, j + 6) == "/list/"@),
                decreases n - i,
            {
                proof {
                    reveal_strlit("/list/");
                }
                assert(cs@.subrange(i as int, cs@.len() as int).subrange(0, 6) =~= cs@.subrange(i as int, i + 6));
                if crate::text::prefix_at(cs.as_slice(), i, mid.as_slice()) {
                    assert(cs@.subrange(i as int, i + 6) == "/list/"@);
                    hit = true;
                }
                proof {
                    if !hit {
                        assert forall|j: int| 0 <= j < i + 1 && j <= cs@.len() - 6 implies #[trigger] cs@.subrange(j, j + 6) != "/list/"@ by {
                            if j == i {
                            } else {
                                assert(!(exists|j2: int| 0 <= j2 < i && j2 <= cs@.len() - 6 && #[trigger] cs@.subrange(j2, j2 + 6) == "/list/"@));
                            }
                        }
                    }
                }
                i += 1;
            }
            proof {
                if !hit {
                    assert forall|j: int| 0 <= j <= cs@.len() - 6 implies #[trigger] cs@.subrange(j, j + 6) != "/list/"@ by {
                        if j >= i {
                            assert(false);
                        }
                    }
                }
            }
            assert(*v is Record && v->Record_ty@ == cs@);
            proof {
                reveal_strlit("/list/");
                reveal_strlit("");
                reveal_strlit(" \u{2014} a lazy sequence becomes a list with list/to_list");
            }
            if hit {
                text(" \u{2014} a lazy sequence becomes a list with list/to_list")
            } else {
                text("")
            }
        },
        _ => {
            proof {
                reveal_strlit("");
            }
            text("")
        },
    }
}

fn said_of(n: &Vec<char>) -> (r: Vec<char>)
    ensures
        r@ == said(n@),
{
    let prefix = chars_of("bit_");
    proof {
        reveal_strlit("bit_");
    }
    assert(n@.subrange(0, n@.len() as int) =~= n@);
    if crate::text::prefix_at(n.as_slice(), 0, prefix.as_slice()) {
        crate::text::slice_vec(n.as_slice(), 4, n.len())
    } else {
        crate::text::slice_vec(n.as_slice(), 0, n.len())
    }
}

/// A bitwise builtin's argument as a word, or what it says of one that is not.
fn whole(v: &Value, said: &Vec<char>, span: Span) -> (r: Result<i64, RuntimeError>)
    requires
        plain(*v),
    ensures
        match r {
            Ok(w) => whole_of(*v) == Some(w),
            Err(e) => whole_of(*v) is None && e.span == span && e.message@ == whole_error(said@, *v),
        },
{
    match v {
        Value::Int(m) => match m.to_i64() {
            Some(w) => Ok(w),
            None => {
                let mut out: Vec<char> = said.clone();
                push_str(&mut out, " takes whole numbers that fit 64 bits");
                Err(RuntimeError { message: string_from_chars(out.as_slice()), span })
            },
        },
        other => {
            let mut out: Vec<char> = said.clone();
            push_str(&mut out, " takes whole numbers, got ");
            let t = render_demanded(other, false);
            push_str(&mut out, t.as_str());
            Err(RuntimeError { message: string_from_chars(out.as_slice()), span })
        },
    }
}

/// The strings of a list joined with a separator; the first element that
/// is not a string answers itself where it is a failure, and is refused
/// where it is not.
fn join_items(list: Vec<Value>, sep: String, span: Span) -> (r: Result<Value, RuntimeError>)
    ensures
        match first_non_str(list@, 0) {
            None => r matches Ok(Value::Str(t)) && t@ == crate::text::join_with(texts_in(list@), sep@),
            Some(k) => if failing(list@[k]) {
                r == Ok::<Value, RuntimeError>(list@[k])
            } else {
                fails_with(r, span, "join takes a list of strings"@)
            },
        },
{
    let mut items = list;
    let ghost i0 = items@;
    let mut out: Vec<char> = Vec::new();
    let mut k: usize = 0;
    assert(texts_in(i0.subrange(0, 0)) =~= Seq::<Seq<char>>::empty());
    while k < items.len()
        invariant
            items@ == i0,
            i0 == list@,
            k <= i0.len(),
            first_non_str(i0, 0) == first_non_str(i0, k as int),
            forall|q: int| 0 <= q < k ==> (#[trigger] i0[q]) is Str,
            out@ == crate::text::join_with(texts_in(i0.subrange(0, k as int)), sep@),
        decreases i0.len() - k,
    {
        let is_str = match &items[k] {
            Value::Str(_) => true,
            _ => false,
        };
        if !is_str {
            let bad = items.remove(k);
            assert(bad == i0[k as int]);
            if is_failure(&bad) {
                return Ok(bad);
            }
            return error(text("join takes a list of strings"), span);
        }
        let ghost before = out@;
        if k > 0 {
            push_str(&mut out, sep.as_str());
        }
        match &items[k] {
            Value::Str(t) => push_str(&mut out, t.as_str()),
            _ => {},
        }
        proof {
            let pre = texts_in(i0.subrange(0, k as int));
            let post = texts_in(i0.subrange(0, k + 1));
            assert(post.drop_last() =~= pre);
            assert(post.last() == i0[k as int]->Str_0@);
            if k == 0 {
                assert(post =~= seq![i0[0]->Str_0@]);
            }
            assert(out@ =~= crate::text::join_with(post, sep@));
        }
        k += 1;
    }
    assert(i0.subrange(0, k as int) =~= i0);
    Ok(Value::Str(string_from_chars(out.as_slice())))
}

fn entry_records(entries: Vec<(MapKey, Value)>) -> (r: Vec<Value>)
    ensures
        entries_of(entries@, r@),
{
    let ghost e0 = entries@;
    let mut rest = entries;
    let n0 = rest.len();
    let mut out: Vec<Value> = Vec::new();
    let mut k: usize = 0;
    assert(rest@ =~= e0.subrange(0, e0.len() as int));
    while rest.len() > 0
        invariant
            n0 == e0.len(),
            e0 == entries@,
            k <= e0.len(),
            rest@ == e0.subrange(k as int, e0.len() as int),
            out@.len() == k,
            forall|i: int| 0 <= i < k ==> (#[trigger] out@[i]) is Record && out@[i]->Record_ty@ == "entry"@
                && out@[i]->Record_fields@ == seq![key_value(e0[i].0), e0[i].1],
        decreases rest@.len(),
    {
        let (key, value) = rest.remove(0);
        assert(key == e0[k as int].0 && value == e0[k as int].1);
        let kv = match key {
            MapKey::Int(m) => Value::Int(m),
            MapKey::Str(t) => Value::Str(t),
        };
        let fields = vec![kv, value];
        assert(fields@ =~= seq![key_value(e0[k as int].0), e0[k as int].1]);
        out.push(Value::Record { ty: text("entry"), fields });
        k += 1;
        assert(rest@ =~= e0.subrange(k as int, e0.len() as int));
    }
    out
}

/// Whether key `a` orders below key `b`.
fn key_below(a: &MapKey, b: &MapKey) -> (r: bool)
    requires
        a matches MapKey::Int(x) ==> x.wf(),
        b matches MapKey::Int(y) ==> y.wf(),
    ensures
        r == key_lt(*a, *b),
{
    match (a, b) {
        (MapKey::Int(x), MapKey::Int(y)) => x.order(y) < 0,
        (MapKey::Int(_), MapKey::Str(_)) => true,
        (MapKey::Str(_), MapKey::Int(_)) => false,
        (MapKey::Str(x), MapKey::Str(y)) => text_less(x.as_str(), y.as_str()),
    }
}

fn same_key(a: &MapKey, b: &MapKey) -> (r: bool)
    ensures
        r == key_same(*a, *b),
{
    match (a, b) {
        (MapKey::Int(x), MapKey::Int(y)) => x.equals(y),
        (MapKey::Str(x), MapKey::Str(y)) => same_text(x.as_str(), y.as_str()),
        _ => false,
    }
}

/// The map with `value` under `key`, in key order.
fn put_entry(entries: Vec<(MapKey, Value)>, key: MapKey, value: Value, Ghost(whole): Ghost<Value>) -> (r: Vec<(MapKey, Value)>)
    requires
        whole == Value::MapV(entries),
        plain(whole),
        key matches MapKey::Int(x) ==> x.wf(),
    ensures
        r@ == put_into(entries@, key, value),
{
    let mut es = entries;
    let ghost e0 = es@;
    let mut i: usize = 0;
    let mut found = false;
    while !found && i < es.len()
        invariant
            es@ == e0,
            e0 == entries@,
            whole == Value::MapV(entries),
            plain(whole),
            key matches MapKey::Int(x) ==> x.wf(),
            i <= e0.len(),
            slot_for(e0, key, 0) == slot_for(e0, key, i as int),
            found ==> i < e0.len() && !key_lt(e0[i as int].0, key),
        decreases e0.len() - i + (if found { 0int } else { 1int }),
    {
        proof {
            super::value::lemma_plain_entry_key(whole, i as int);
        }
        if !key_below(&es[i].0, &key) {
            found = true;
        } else {
            i += 1;
        }
    }
    assert(slot_for(e0, key, 0) == i as int);
    if i < es.len() && same_key(&es[i].0, &key) {
        es.set(i, (key, value));
    } else {
        es.insert(i, (key, value));
    }
    es
}

fn raise(reason: &str, span: Span, frame: &Option<Site>) -> (r: Value)
    ensures
        raised(r, reason@, span, *frame),
{
    let at = origin_at(frame, span);
    Value::ErrV(
        Box::new(ErrInfo { reason: Value::Str(text(reason)), origin: at.at, hako: at.hako, hops: Vec::new(), cause: None, merged: false }),
    )
}

fn list_to_bytes(list: Vec<Value>, span: Span, frame: &Option<Site>) -> (r: Value)
    requires
        forall|i: int| 0 <= i < list@.len() ==> plain(#[trigger] list@[i]),
    ensures
        match first_non_byte(list@, 0) {
            None => r matches Value::Bytes(bs) && bytes_of(list@, bs@),
            Some(k) => if failing(list@[k]) {
                r == list@[k]
            } else {
                raised(r, "to_bytes takes byte values (0-255)"@, span, *frame)
            },
        },
{
    let mut items = list;
    let ghost i0 = items@;
    let mut out: Vec<u8> = Vec::new();
    let mut k: usize = 0;
    while k < items.len()
        invariant
            items@ == i0,
            i0 == list@,
            k <= i0.len(),
            forall|i: int| 0 <= i < i0.len() ==> plain(#[trigger] i0[i]),
            first_non_byte(i0, 0) == first_non_byte(i0, k as int),
            out@.len() == k,
            forall|i: int| 0 <= i < k ==> (#[trigger] i0[i])->Int_0@ == out@[i] as int,
        decreases i0.len() - k,
    {
        let byte: Option<u8> = match &items[k] {
            Value::Int(m) => match m.to_u64() {
                Some(w) => if w <= 255 {
                    Some(w as u8)
                } else {
                    None
                },
                None => {
                    proof {
                        if *m is Big {
                            assert(plain(i0[k as int]));
                            assert(!crate::number::fits_i64(m@));
                        }
                    }
                    None
                },
            },
            _ => None,
        };
        match byte {
            Some(b) => {
                out.push(b);
            },
            None => {
                let bad = items.remove(k);
                assert(bad == i0[k as int]);
                if is_failure(&bad) {
                    return bad;
                }
                return raise("to_bytes takes byte values (0-255)", span, frame);
            },
        }
        k += 1;
    }
    assert(i0.len() == k);
    Value::Bytes(out)
}

/// A builtin on plain arguments. `None` for a builtin this module does not
/// compute: an effect, one that takes a function, a chain word, or one on
/// floats.
pub fn call_builtin(name: &str, args: Vec<Value>, span: Span, frame: &Option<Site>) -> (r: Option<Result<Value, RuntimeError>>)
    requires
        forall|i: int| 0 <= i < args@.len() ==> plain(#[trigger] args@[i]),
    ensures
        builtin_answers(name@, bases(args@), span, *frame, r),
{
    let n = strip_prefix(name);
    let mut a = bases_of(args);
    let ghost a0 = a@;
    proof {
        reveal_strlit("if");
        reveal_strlit("wrap_err");
        reveal_strlit("at");
        reveal_strlit("push");
        reveal_strlit("concat");
        reveal_strlit("length");
        reveal_strlit("chars");
        reveal_strlit("slice");
        reveal_strlit("bind");
        reveal_strlit("rescue");
        reveal_strlit("annotate");
    }
    if is_name(&n, "if") {
        if a.len() != 3 {
            return Some(Err(arity_error(&n, 3, a.len(), span)));
        }
        let els = a.pop().unwrap();
        let then = a.pop().unwrap();
        let cond = a.pop().unwrap();
        assert(cond == a0[0] && then == a0[1] && els == a0[2]);
        return Some(
            match cond {
                Value::True => Ok(then),
                Value::False => Ok(els),
                Value::ErrV(info) => Ok(Value::ErrV(info)),
                other => {
                    let mut out: Vec<char> = Vec::new();
                    push_str(&mut out, "an if condition is true or false, got ");
                    let t = render_demanded(&other, false);
                    push_str(&mut out, t.as_str());
                    error(string_from_chars(out.as_slice()), span)
                },
            },
        );
    }
    if is_name(&n, "wrap_err") {
        if a.len() != 2 {
            return Some(Err(arity_error(&n, 2, a.len(), span)));
        }
        let original = a.pop().unwrap();
        let reason = a.pop().unwrap();
        assert(reason == a0[0] && original == a0[1]);
        if is_failure(&reason) {
            return Some(Ok(reason));
        }
        return Some(
            match original {
                Value::ErrV(cause) => {
                    let raised = origin_at(frame, span);
                    Ok(
                        Value::ErrV(
                            Box::new(
                                ErrInfo {
                                    reason,
                                    origin: raised.at,
                                    hako: raised.hako,
                                    hops: Vec::new(),
                                    cause: Some(cause),
                                    merged: false,
                                },
                            ),
                        ),
                    )
                },
                _ => error(text("wrap_err takes a reason and the err it wraps"), span),
            },
        );
    }
    let t = string_from_chars(n.as_slice());
    if chain_word(t.as_str()).is_some() {
        return None;
    }
    let mut any_failure = false;
    let mut k: usize = 0;
    assert(a@.subrange(0, 0) =~= Seq::<Value>::empty());
    while k < a.len()
        invariant
            k <= a@.len(),
            any_failure == (failures(a@.subrange(0, k as int)).len() > 0),
        decreases a@.len() - k,
    {
        assert(a@.subrange(0, k + 1).drop_last() =~= a@.subrange(0, k as int));
        if is_failure(&a[k]) {
            any_failure = true;
        }
        k += 1;
    }
    assert(a@.subrange(0, k as int) =~= a@);
    if any_failure {
        return Some(Ok(merged_failures(a)));
    }
    if is_name(&n, "at") {
        if a.len() != 2 {
            return Some(Err(arity_error(&n, 2, a.len(), span)));
        }
        let index = a.pop().unwrap();
        let container = a.pop().unwrap();
        assert(container == a0[0] && index == a0[1]);
        return Some(index_value(container, index, span));
    }
    if is_name(&n, "push") {
        if a.len() != 2 {
            return Some(Err(arity_error(&n, 2, a.len(), span)));
        }
        let item = a.pop().unwrap();
        let list = a.pop().unwrap();
        assert(list == a0[0] && item == a0[1]);
        return Some(
            match list {
                Value::List(mut items) => {
                    items.push(item);
                    Ok(Value::List(items))
                },
                other => {
                    let mut out: Vec<char> = Vec::new();
                    push_str(&mut out, "push takes a list and a value");
                    let h = hint_of(&other);
                    push_str(&mut out, h.as_str());
                    error(string_from_chars(out.as_slice()), span)
                },
            },
        );
    }
    if is_name(&n, "concat") {
        if a.len() != 2 {
            return Some(Err(arity_error(&n, 2, a.len(), span)));
        }
        let ys = a.pop().unwrap();
        let xs = a.pop().unwrap();
        assert(xs == a0[0] && ys == a0[1]);
        return Some(
            match (xs, ys) {
                (Value::List(mut x), Value::List(mut y)) => {
                    x.append(&mut y);
                    Ok(Value::List(x))
                },
                _ => error(text("concat takes two lists"), span),
            },
        );
    }
    if is_name(&n, "length") {
        if a.len() != 1 {
            return Some(Err(arity_error(&n, 1, a.len(), span)));
        }
        let v = a.pop().unwrap();
        assert(v == a0[0]);
        return Some(
            match v {
                Value::List(items) => Ok(Value::Int(Int::from_u64(items.len() as u64))),
                Value::Bytes(bs) => Ok(Value::Int(Int::from_u64(bs.len() as u64))),
                Value::Str(t) => Ok(Value::Int(Int::from_u64(chars_of(t.as_str()).len() as u64))),
                Value::MapV(es) => Ok(Value::Int(Int::from_u64(es.len() as u64))),
                other => {
                    let mut out: Vec<char> = Vec::new();
                    push_str(&mut out, "length takes a list, string, or map, not ");
                    let t = render_demanded(&other, true);
                    push_str(&mut out, t.as_str());
                    let h = hint_of(&other);
                    push_str(&mut out, h.as_str());
                    error(string_from_chars(out.as_slice()), span)
                },
            },
        );
    }
    if is_name(&n, "chars") {
        if a.len() != 1 {
            return Some(Err(arity_error(&n, 1, a.len(), span)));
        }
        let v = a.pop().unwrap();
        assert(v == a0[0]);
        return Some(
            match v {
                Value::Str(t) => {
                    let cs = chars_of(t.as_str());
                    let mut out: Vec<Value> = Vec::new();
                    let mut i: usize = 0;
                    while i < cs.len()
                        invariant
                            i <= cs@.len(),
                            out@.len() == i,
                            forall|j: int| 0 <= j < i ==> (#[trigger] out@[j]) is Str && out@[j]->Str_0@ == seq![cs@[j]],
                        decreases cs@.len() - i,
                    {
                        let one = vec![cs[i]];
                        let s = string_from_chars(one.as_slice());
                        assert(s@ =~= seq![cs@[i as int]]);
                        out.push(Value::Str(s));
                        i += 1;
                    }
                    Ok(Value::List(out))
                },
                _ => error(text("chars takes a string"), span),
            },
        );
    }
    if is_name(&n, "slice") {
        if a.len() != 3 {
            return Some(Err(arity_error(&n, 3, a.len(), span)));
        }
        let to_v = a.pop().unwrap();
        let from_v = a.pop().unwrap();
        let container = a.pop().unwrap();
        assert(container == a0[0] && from_v == a0[1] && to_v == a0[2]);
        let (from, to) = match (&from_v, &to_v) {
            (Value::Int(f), Value::Int(t)) => {
                proof {
                    assert(plain(a0[1]) && plain(a0[2]));
                }
                (pos_of(f), pos_of(t))
            },
            _ => {
                return Some(error(text("slice takes 1-based inclusive positions"), span));
            },
        };
        assert(from as int == pos_or_zero(a0[1]) && to as int == pos_or_zero(a0[2]));
        let res = match container {
                Value::List(mut items) => {
                    let len = items.len();
                    match super::slice_range(len, from, to) {
                        Some((lo, hi)) => {
                            items.truncate(hi);
                            let kept = items.split_off(lo);
                            assert(kept@ =~= a0[0]->List_0@.subrange(lo as int, hi as int));
                            assert(slice_fits(pos_or_zero(a0[1]), pos_or_zero(a0[2]), len as int));
                            Ok(Value::List(kept))
                        },
                        None => {
                            let r = Ok(Value::List(Vec::new()));
                            assert(answers_list(r, Seq::empty()));
                            r
                        },
                    }
                },
                Value::Bytes(mut bs) => {
                    let len = bs.len();
                    match super::slice_range(len, from, to) {
                        Some((lo, hi)) => {
                            bs.truncate(hi);
                            let kept = bs.split_off(lo);
                            assert(kept@ =~= a0[0]->Bytes_0@.subrange(lo as int, hi as int));
                            Ok(Value::Bytes(kept))
                        },
                        None => Ok(Value::Bytes(Vec::new())),
                    }
                },
                Value::Str(t) => {
                    let cs = chars_of(t.as_str());
                    match super::slice_range(cs.len(), from, to) {
                        Some((lo, hi)) => {
                            let part = crate::text::slice_vec(cs.as_slice(), lo, hi);
                            Ok(Value::Str(string_from_chars(part.as_slice())))
                        },
                        None => {
                            proof {
                                reveal_strlit("");
                            }
                            Ok(Value::Str(text("")))
                        },
                    }
                },
                _ => error(text("slice takes a list or string"), span),
            };
        assert(match a0[0] {
            Value::List(items) => answers_list(
                res,
                if slice_fits(pos_or_zero(a0[1]), pos_or_zero(a0[2]), items@.len() as int) {
                    items@.subrange(pos_or_zero(a0[1]) - 1, pos_or_zero(a0[2]))
                } else {
                    Seq::empty()
                },
            ),
            Value::Bytes(bs) => res matches Ok(Value::Bytes(v)) && v@ == if slice_fits(pos_or_zero(a0[1]), pos_or_zero(a0[2]), bs@.len() as int) {
                bs@.subrange(pos_or_zero(a0[1]) - 1, pos_or_zero(a0[2]))
            } else {
                Seq::empty()
            },
            Value::Str(t) => res matches Ok(Value::Str(v)) && v@ == if slice_fits(pos_or_zero(a0[1]), pos_or_zero(a0[2]), t@.len() as int) {
                t@.subrange(pos_or_zero(a0[1]) - 1, pos_or_zero(a0[2]))
            } else {
                Seq::empty()
            },
            _ => fails_with(res, span, "slice takes a list or string"@),
        });
        assert(builtin_answers(name@, a0, span, *frame, Some(res)));
        return Some(res);
    }
    proof {
        reveal_strlit("bit_and");
        reveal_strlit("bit_or");
        reveal_strlit("bit_xor");
        reveal_strlit("bit_not");
        reveal_strlit("bit_shl");
        reveal_strlit("bit_shr");
        reveal_strlit("is_desc");
        reveal_strlit("round");
        reveal_strlit("char_code");
        reveal_strlit("join");
        reveal_strlit("bit_");
    }
    let and = is_name(&n, "bit_and");
    let or = is_name(&n, "bit_or");
    let xor = is_name(&n, "bit_xor");
    let shl = is_name(&n, "bit_shl");
    let shr = is_name(&n, "bit_shr");
    assert(n@ != "if"@ && n@ != "wrap_err"@ && chain_word_of(n@) is None && failures(a0).len() == 0 && n@ != "at"@
        && n@ != "push"@ && n@ != "concat"@ && n@ != "length"@ && n@ != "chars"@ && n@ != "slice"@);
    if and || or || xor || shl || shr {
        assert("bit_and"@[4] == 'a' && "bit_or"@[4] == 'o' && "bit_xor"@[4] == 'x' && "bit_shl"@[4] == 's'
            && "bit_shr"@[4] == 's' && "bit_shl"@[6] == 'l' && "bit_shr"@[6] == 'r');
        assert(shl || shr ==> !(n@ == "bit_and"@ || n@ == "bit_or"@ || n@ == "bit_xor"@));
        if a.len() != 2 {
            return Some(Err(arity_error(&n, 2, a.len(), span)));
        }
        let w = said_of(&n);
        let q = match whole(&a[0], &w, span) {
            Ok(v) => v,
            Err(e) => {
                return Some(Err(e));
            },
        };
        let by = match whole(&a[1], &w, span) {
            Ok(v) => v,
            Err(e) => {
                return Some(Err(e));
            },
        };
        if shl || shr {
            if !(0 <= by && by <= 63) {
                let mut out: Vec<char> = w.clone();
                push_str(&mut out, " shifts by 0 to 63 places, got ");
                crate::text::push_i64(by, &mut out);
                return Some(error(string_from_chars(out.as_slice()), span));
            }
            let shifted: i64 = if shl {
                {
                    let u: u64 = #[verifier::truncate] (q as u64);
                    let shifted: u64 = u << (by as u64);
                    #[verifier::truncate] (shifted as i64)
                }
            } else {
                q >> by
            };
            return Some(Ok(Value::Int(Int::from_i64(shifted))));
        }
        let bits: i64 = if and {
            q & by
        } else if or {
            q | by
        } else {
            q ^ by
        };
        return Some(Ok(Value::Int(Int::from_i64(bits))));
    }
    proof {
        reveal_strlit("entries");
        reveal_strlit("put");
        reveal_strlit("to_bytes");
    }
    assert("bit_not"@[4] == 'n' && "entries"@[0] == 'e' && "to_bytes"@[0] == 't' && "put"@[0] == 'p' && "push"@[0] == 'p' && "push"@.len() == 4 && "put"@.len() == 3 && "is_desc"@[0] == 'i' && "round"@[0] == 'r' && "chars"@[0] == 'c' && "slice"@[0] == 's'
        && "char_code"@[4] == '_' && "length"@[0] == 'l' && "concat"@[0] == 'c');
    if is_name(&n, "bit_not") {
        if a.len() != 1 {
            return Some(Err(arity_error(&n, 1, a.len(), span)));
        }
        let w = said_of(&n);
        return Some(
            match whole(&a[0], &w, span) {
                Ok(v) => Ok(Value::Int(Int::from_i64(!v))),
                Err(e) => Err(e),
            },
        );
    }
    if is_name(&n, "is_desc") {
        if a.len() != 1 {
            return Some(Err(arity_error(&n, 1, a.len(), span)));
        }
        return Some(Ok(Value::False));
    }
    if is_name(&n, "round") {
        if a.len() != 1 {
            return Some(Err(arity_error(&n, 1, a.len(), span)));
        }
        let v = a.pop().unwrap();
        assert(v == a0[0]);
        return Some(
            match v {
                Value::Int(m) => Ok(Value::Int(m)),
                other => {
                    let mut out: Vec<char> = Vec::new();
                    push_str(&mut out, "round takes a number, got ");
                    let t = render_demanded(&other, false);
                    push_str(&mut out, t.as_str());
                    error(string_from_chars(out.as_slice()), span)
                },
            },
        );
    }
    if is_name(&n, "char_code") {
        if a.len() != 1 {
            return Some(Err(arity_error(&n, 1, a.len(), span)));
        }
        return Some(
            match &a[0] {
                Value::Str(t) => {
                    let cs = chars_of(t.as_str());
                    if cs.len() == 1 {
                        let code = cs[0] as u32;
                        assert(a0[0] is Str && a0[0]->Str_0@ == cs@);
                        Ok(Value::Int(Int::from_u64(code as u64)))
                    } else {
                        error(text("char_code takes a one-character string"), span)
                    }
                },
                _ => error(text("char_code takes a one-character string"), span),
            },
        );
    }
    if is_name(&n, "join") {
        if a.len() != 2 {
            return Some(Err(arity_error(&n, 2, a.len(), span)));
        }
        let sep_v = a.pop().unwrap();
        let list_v = a.pop().unwrap();
        assert(list_v == a0[0] && sep_v == a0[1]);
        return Some(
            match (list_v, sep_v) {
                (Value::List(items), Value::Str(sep)) => join_items(items, sep, span),
                _ => error(text("join takes a list of strings and a separator"), span),
            },
        );
    }
    if is_name(&n, "entries") {
        if a.len() != 1 {
            return Some(Err(arity_error(&n, 1, a.len(), span)));
        }
        let v = a.pop().unwrap();
        assert(v == a0[0]);
        return Some(
            match v {
                Value::MapV(es) => Ok(Value::List(entry_records(es))),
                _ => error(text("entries takes a map"), span),
            },
        );
    }
    if is_name(&n, "put") {
        if a.len() != 3 {
            return Some(Err(arity_error(&n, 3, a.len(), span)));
        }
        let value = a.pop().unwrap();
        let key_v = a.pop().unwrap();
        let map = a.pop().unwrap();
        assert(map == a0[0] && key_v == a0[1] && value == a0[2]);
        let ghost whole = map;
        return Some(
            match map {
                Value::MapV(es) => {
                    let key = match key_v {
                        Value::Int(m) => MapKey::Int(m),
                        Value::Str(t) => MapKey::Str(t),
                        other => {
                            let mut out: Vec<char> = Vec::new();
                            let t = render_demanded(&other, true);
                            push_str(&mut out, t.as_str());
                            push_str(&mut out, " is not usable as a map key");
                            return Some(error(string_from_chars(out.as_slice()), span));
                        },
                    };
                    Ok(Value::MapV(put_entry(es, key, value, Ghost(whole))))
                },
                _ => error(text("put takes a map, a key, and a value"), span),
            },
        );
    }
    if is_name(&n, "to_bytes") {
        if a.len() != 1 {
            return Some(Err(arity_error(&n, 1, a.len(), span)));
        }
        let v = a.pop().unwrap();
        assert(v == a0[0]);
        return Some(
            match v {
                Value::List(items) => {
                    proof {
                        assert forall|i: int| 0 <= i < items@.len() implies plain(#[trigger] items@[i]) by {
                            super::value::lemma_plain_list_item(a0[0], i);
                        }
                    }
                    Ok(list_to_bytes(items, span, frame))
                },
                _ => error(text("to_bytes takes a list of byte values"), span),
            },
        );
    }
    None
}

} // verus!
