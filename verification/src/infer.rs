//! Propagable type sets as tag bitsets: one bit per runtime tag, records
//! unrefined. The whole-program fixpoint reads the answers below for every
//! builtin it meets.

pub mod work;
mod engine;
mod order;
mod sets;

pub use self::engine::{ctx_tagged, env_tagged, fits, grows, infer, inference_tagged, keeps, same_sets, shaped, walk_one, within, Ctx};
pub use self::order::{callee_first, count_of, post_order, walk_state};
pub use self::sets::{
    admitted, annotated_set, catches, desc_yield, effect_base, effect_yield, lemma_admitted_tagged, lemma_numeric_tagged, lemma_yield_tagged, names_effect, numeric, numeric_result,
    pattern_catches, yield_of,
};

use vstd::prelude::*;
use crate::text::{chars_of, has_prefix, prefix_at, same_chars};

verus! {

/// A type set: one bit per runtime tag.
pub type TypeSet = u16;

pub const INT: u16 = 1;
pub const FLOAT: u16 = 2;
pub const TRUE: u16 = 4;
pub const FALSE: u16 = 8;
pub const NONE: u16 = 16;
pub const ERR: u16 = 32;
pub const STR: u16 = 64;
pub const REC: u16 = 128;
pub const DESC: u16 = 256;
pub const LIST: u16 = 512;
pub const MAP: u16 = 1024;
pub const FN: u16 = 2048;
pub const BYTES: u16 = 4096;
/// The value may be an unforced thunk.
pub const THUNK: u16 = 8192;
pub const TOP: u16 = 16383;
/// What propagates on its own: only an err abandons the computation that
/// produced it.
pub const FAIL: u16 = 32;
pub const BOOL: u16 = 12;

/// What inference answers: per function, the joined argument sets seen at
/// call sites and the return set; per type, the set seen in each field.
pub struct Inference {
    pub params: Vec<Vec<u16>>,
    pub returns: Vec<u16>,
    pub type_fields: Vec<Vec<u16>>,
}

/// The failure bits the arguments carry, joined.
pub open spec fn fails_of(args: Seq<u16>) -> u16
    decreases args.len(),
{
    if args.len() == 0 {
        0
    } else {
        fails_of(args.drop_last()) | (args.last() & FAIL)
    }
}

/// Whether `s` holds only the tags there are: every bit within `TOP`.
pub open spec fn tagged(s: u16) -> bool {
    s | TOP == TOP
}

pub proof fn lemma_tagged_or(a: u16, b: u16)
    requires
        tagged(a),
        tagged(b),
    ensures
        tagged(a | b),
{
    assert(a | 16383u16 == 16383u16 && b | 16383u16 == 16383u16 ==> (a | b) | 16383u16 == 16383u16) by (bit_vector);
}

pub proof fn lemma_tagged_and(a: u16, m: u16)
    requires
        tagged(a) || tagged(m),
    ensures
        tagged(a & m),
{
    assert(a | 16383u16 == 16383u16 ==> (a & m) | 16383u16 == 16383u16) by (bit_vector);
    assert(m | 16383u16 == 16383u16 ==> (a & m) | 16383u16 == 16383u16) by (bit_vector);
}

/// Joining tag sets, or masking one, keeps only tags; and every tag
/// constant is a tag.
pub proof fn lemma_tagged_rules()
    ensures
        forall|a: u16, b: u16| tagged(a) && tagged(b) ==> #[trigger] tagged(a | b),
        forall|a: u16, m: u16| tagged(a) ==> #[trigger] tagged(a & m),
        tagged(INT) && tagged(FLOAT) && tagged(TRUE) && tagged(FALSE) && tagged(NONE) && tagged(ERR) && tagged(STR)
            && tagged(REC) && tagged(DESC) && tagged(LIST) && tagged(MAP) && tagged(FN) && tagged(BYTES) && tagged(THUNK)
            && tagged(TOP) && tagged(BOOL) && tagged(0) && tagged(TOP & !FAIL) && tagged(TOP & !FAIL & !THUNK),
{
    assert forall|a: u16, b: u16| tagged(a) && tagged(b) implies #[trigger] tagged(a | b) by {
        lemma_tagged_or(a, b);
    }
    assert forall|a: u16, m: u16| tagged(a) implies #[trigger] tagged(a & m) by {
        lemma_tagged_and(a, m);
    }
    lemma_tags();
}

/// A number below 2^14 holds only tags.
proof fn lemma_small_tagged(x: u16)
    requires
        x <= 16383,
    ensures
        tagged(x),
{
    assert(x <= 16383u16 ==> x | 16383u16 == 16383u16) by (bit_vector);
}

/// Every tag constant is a tag.
pub proof fn lemma_tags()
    ensures
        tagged(INT) && tagged(FLOAT) && tagged(TRUE) && tagged(FALSE) && tagged(NONE) && tagged(ERR) && tagged(STR)
            && tagged(REC) && tagged(DESC) && tagged(LIST) && tagged(MAP) && tagged(FN) && tagged(BYTES) && tagged(THUNK)
            && tagged(TOP) && tagged(BOOL) && tagged(0) && tagged(TOP & !FAIL) && tagged(TOP & !FAIL & !THUNK),
{
    lemma_small_tagged(INT);
    lemma_small_tagged(FLOAT);
    lemma_small_tagged(TRUE);
    lemma_small_tagged(FALSE);
    lemma_small_tagged(NONE);
    lemma_small_tagged(ERR);
    lemma_small_tagged(STR);
    lemma_small_tagged(REC);
    lemma_small_tagged(DESC);
    lemma_small_tagged(LIST);
    lemma_small_tagged(MAP);
    lemma_small_tagged(FN);
    lemma_small_tagged(BYTES);
    lemma_small_tagged(THUNK);
    lemma_small_tagged(TOP);
    lemma_small_tagged(BOOL);
    lemma_small_tagged(0);
    lemma_tagged_and(TOP, !FAIL);
    lemma_tagged_and(TOP & !FAIL, !THUNK);
}

pub proof fn lemma_fails_tagged(args: Seq<u16>)
    ensures
        tagged(fails_of(args)),
    decreases args.len(),
{
    lemma_tags();
    if args.len() > 0 {
        lemma_fails_tagged(args.drop_last());
        lemma_tagged_and(args.last(), FAIL);
        lemma_tagged_or(fails_of(args.drop_last()), args.last() & FAIL);
    }
}

/// A builtin answers only tags, whatever its arguments are.
pub proof fn lemma_builtin_tagged(n: Seq<char>, args: Seq<u16>)
    requires
        reads_first(n) ==> args.len() >= 1,
    ensures
        tagged(builtin_answer(n, args)),
{
    lemma_tags();
    lemma_fails_tagged(args);
    let f = fails_of(args);
    if n == "at"@ {
        let a = args[0];
        let b1: u16 = if a & BYTES != 0 { INT } else { 0 };
        let b2: u16 = if a & (LIST | MAP) != 0 { TOP & !FAIL } else { 0 };
        let b3: u16 = if a & STR != 0 { STR } else { 0 };
        lemma_tagged_or(f, NONE);
        lemma_tagged_or(f | NONE, b1);
        lemma_tagged_or(f | NONE | b1, b2);
        lemma_tagged_or(f | NONE | b1 | b2, b3);
    } else if n == "append"@ || n == "bytes"@ {
        lemma_tagged_or(BYTES, f);
    } else if n == "is_desc"@ {
        lemma_tagged_or(BOOL, f);
    } else if n == "to_bytes"@ {
        lemma_tagged_or(BYTES, ERR);
        lemma_tagged_or(BYTES | ERR, f);
    } else if n == "find2"@ || n == "find2_below"@ || n == "length"@ || n == "char_code"@ || n == "sum"@ || n
        == "round"@ || is_bit_op(n) {
        lemma_tagged_or(INT, f);
    } else if n == "slice"@ {
        lemma_tagged_or(BYTES, LIST);
        lemma_tagged_or(BYTES | LIST, STR);
        lemma_tagged_and(args[0], BYTES | LIST | STR);
        lemma_tagged_or(args[0] & (BYTES | LIST | STR), f);
    } else if n == "utf8"@ || n == "from_code"@ {
        lemma_tagged_or(STR, ERR);
        lemma_tagged_or(STR | ERR, f);
    } else if n == "render_value"@ || n == "join"@ {
        lemma_tagged_or(STR, f);
    } else if makes_list(n) {
        lemma_tagged_or(LIST, f);
    } else if n == "put"@ {
        lemma_tagged_or(MAP, f);
    } else if n == "to_int"@ {
        lemma_tagged_or(INT, ERR);
        lemma_tagged_or(INT | ERR, f);
    } else if n == "to_float"@ {
        lemma_tagged_or(FLOAT, ERR);
        lemma_tagged_or(FLOAT | ERR, f);
    } else if n == "sqrt"@ {
        lemma_tagged_or(FLOAT, f);
    } else if n == "bind"@ || n == "rescue"@ || n == "annotate"@ {
    } else if is_effect(n) {
        lemma_tagged_or(DESC, f);
    }
}

/// A builtin's name with the `builtin_` prefix taken off, where it has one.
pub open spec fn bare_name(name: Seq<char>) -> Seq<char> {
    if has_prefix(name, "builtin_"@) {
        name.subrange(8, name.len() as int)
    } else {
        name
    }
}

/// Whether a builtin reads its first argument's set.
pub open spec fn reads_first(n: Seq<char>) -> bool {
    n == "at"@ || n == "slice"@
}

pub open spec fn is_effect(n: Seq<char>) -> bool {
    n == "read_file"@ || n == "write"@ || n == "write_err"@ || n == "write_file"@
        || n == "make_dir"@ || n == "sleep"@ || n == "random"@ || n == "env"@ || n == "exists"@
        || n == "is_dir"@ || n == "list_dir"@ || n == "now"@ || n == "run"@ || n == "start"@
        || n == "kill"@ || n == "listen"@ || n == "net_port"@ || n == "accept"@
        || n == "net_read"@ || n == "net_write"@ || n == "net_close"@
}

pub open spec fn makes_list(n: Seq<char>) -> bool {
    n == "push"@ || n == "concat"@ || n == "chars"@ || n == "split"@ || n == "entries"@
        || n == "sort"@ || n == "filter"@ || n == "map"@
}

pub open spec fn is_bit_op(n: Seq<char>) -> bool {
    n == "bit_and"@ || n == "bit_or"@ || n == "bit_xor"@ || n == "bit_not"@ || n == "bit_shl"@
        || n == "bit_shr"@
}

/// The set a builtin answers, from its bare name and its argument sets.
pub open spec fn builtin_answer(n: Seq<char>, args: Seq<u16>) -> u16 {
    let fails = fails_of(args);
    if n == "at"@ {
        let a = args[0];
        fails | NONE | (if a & BYTES != 0 { INT } else { 0 }) | (if a & (LIST | MAP) != 0 {
            TOP & !FAIL
        } else {
            0
        }) | (if a & STR != 0 { STR } else { 0 })
    } else if n == "append"@ || n == "bytes"@ {
        BYTES | fails
    } else if n == "is_desc"@ {
        BOOL | fails
    } else if n == "to_bytes"@ {
        BYTES | ERR | fails
    } else if n == "find2"@ || n == "find2_below"@ || n == "length"@ || n == "char_code"@
        || n == "sum"@ || n == "round"@ || is_bit_op(n) {
        INT | fails
    } else if n == "slice"@ {
        (args[0] & (BYTES | LIST | STR)) | fails
    } else if n == "utf8"@ || n == "from_code"@ {
        STR | ERR | fails
    } else if n == "render_value"@ || n == "join"@ {
        STR | fails
    } else if makes_list(n) {
        LIST | fails
    } else if n == "put"@ {
        MAP | fails
    } else if n == "to_int"@ {
        INT | ERR | fails
    } else if n == "to_float"@ {
        FLOAT | ERR | fails
    } else if n == "sqrt"@ {
        FLOAT | fails
    } else if n == "bind"@ || n == "rescue"@ || n == "annotate"@ {
        TOP
    } else if is_effect(n) {
        DESC | fails
    } else {
        TOP
    }
}

fn is(n: &[char], lit: &str) -> (r: bool)
    ensures
        r == (n@ == lit@),
{
    let l = chars_of(lit);
    same_chars(n, l.as_slice())
}

/// What a builtin call can produce, given what its arguments can be. A
/// failure in any argument passes through.
pub fn builtin_set(name: &str, args: &[u16]) -> (r: u16)
    requires
        reads_first(bare_name(name@)) ==> args@.len() >= 1,
    ensures
        r == builtin_answer(bare_name(name@), args@),
{
    let full = chars_of(name);
    let prefix = chars_of("builtin_");
    proof {
        reveal_strlit("builtin_");
    }
    assert(full@.subrange(0, full@.len() as int) =~= full@);
    let n: Vec<char> = if prefix_at(full.as_slice(), 0, prefix.as_slice()) {
        let mut rest: Vec<char> = Vec::new();
        let mut i: usize = 8;
        assert(rest@ =~= full@.subrange(8, 8));
        while i < full.len()
            invariant
                8 <= i <= full@.len(),
                rest@ == full@.subrange(8, i as int),
            decreases full@.len() - i,
        {
            rest.push(full[i]);
            i += 1;
            assert(rest@ =~= full@.subrange(8, i as int));
        }
        rest
    } else {
        assert(full@.subrange(0, full@.len() as int) =~= full@);
        full
    };
    assert(n@ == bare_name(name@));
    let mut fails: u16 = 0;
    let mut k: usize = 0;
    while k < args.len()
        invariant
            k <= args@.len(),
            fails == fails_of(args@.subrange(0, k as int)),
        decreases args@.len() - k,
    {
        assert(args@.subrange(0, k + 1).drop_last() =~= args@.subrange(0, k as int));
        fails = fails | (args[k] & FAIL);
        k += 1;
    }
    assert(args@.subrange(0, k as int) =~= args@);
    let n = n.as_slice();
    if is(n, "at") {
        let a = args[0];
        let b1: u16 = if a & BYTES != 0 { INT } else { 0 };
        let b2: u16 = if a & (LIST | MAP) != 0 { TOP & !FAIL } else { 0 };
        let b3: u16 = if a & STR != 0 { STR } else { 0 };
        fails | NONE | b1 | b2 | b3
    } else if is(n, "append") || is(n, "bytes") {
        BYTES | fails
    } else if is(n, "is_desc") {
        BOOL | fails
    } else if is(n, "to_bytes") {
        BYTES | ERR | fails
    } else if is(n, "find2") || is(n, "find2_below") || is(n, "length") || is(n, "char_code")
        || is(n, "sum") || is(n, "round") || is(n, "bit_and") || is(n, "bit_or")
        || is(n, "bit_xor") || is(n, "bit_not") || is(n, "bit_shl") || is(n, "bit_shr") {
        INT | fails
    } else if is(n, "slice") {
        (args[0] & (BYTES | LIST | STR)) | fails
    } else if is(n, "utf8") || is(n, "from_code") {
        STR | ERR | fails
    } else if is(n, "render_value") || is(n, "join") {
        STR | fails
    } else if is(n, "push") || is(n, "concat") || is(n, "chars") || is(n, "split")
        || is(n, "entries") || is(n, "sort") || is(n, "filter") || is(n, "map") {
        LIST | fails
    } else if is(n, "put") {
        MAP | fails
    } else if is(n, "to_int") {
        INT | ERR | fails
    } else if is(n, "to_float") {
        FLOAT | ERR | fails
    } else if is(n, "sqrt") {
        FLOAT | fails
    } else if is(n, "bind") || is(n, "rescue") || is(n, "annotate") {
        TOP
    } else if is(n, "read_file") || is(n, "write") || is(n, "write_err") || is(n, "write_file")
        || is(n, "make_dir") || is(n, "sleep") || is(n, "random") || is(n, "env")
        || is(n, "exists") || is(n, "is_dir") || is(n, "list_dir") || is(n, "now")
        || is(n, "run") || is(n, "start") || is(n, "kill") || is(n, "listen")
        || is(n, "net_port") || is(n, "accept") || is(n, "net_read") || is(n, "net_write")
        || is(n, "net_close") {
        DESC | fails
    } else {
        TOP
    }
}

} // verus!

verus! {

proof fn lemma_fails_within(args: Seq<u16>)
    ensures
        fails_of(args) & !FAIL == 0,
    decreases args.len(),
{
    if args.len() > 0 {
        lemma_fails_within(args.drop_last());
        let f = fails_of(args.drop_last());
        let a = args.last();
        assert((f | (a & FAIL)) & !FAIL == 0) by (bit_vector)
            requires
                f & !FAIL == 0,
        ;
    } else {
        assert(0u16 & !FAIL == 0) by (bit_vector);
    }
}

/// A failure in any argument passes through: whatever a builtin answers
/// holds every failure bit its arguments hold.
pub proof fn law_failures_pass_through(n: Seq<char>, args: Seq<u16>)
    requires
        reads_first(n) ==> args.len() >= 1,
    ensures
        builtin_answer(n, args) & fails_of(args) == fails_of(args),
{
    let f = fails_of(args);
    lemma_fails_within(args);
    assert(forall|x: u16| #![trigger x | f] (x | f) & f == f) by (bit_vector);
    assert(TOP & f == f) by (bit_vector)
        requires
            f & !FAIL == 0,
    ;
    if n == "at"@ {
        let a = args[0];
        let b1: u16 = if a & BYTES != 0 { INT } else { 0 };
        let b2: u16 = if a & (LIST | MAP) != 0 { TOP & !FAIL } else { 0 };
        let b3: u16 = if a & STR != 0 { STR } else { 0 };
        assert((f | NONE | b1 | b2 | b3) & f == f) by (bit_vector);
        assert(builtin_answer(n, args) == f | NONE | b1 | b2 | b3);
    }
}

} // verus!
