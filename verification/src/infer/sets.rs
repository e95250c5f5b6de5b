//! The answers inference reads off the syntax alone: what arithmetic on two
//! sets gives, which failure an arm's pattern catches, what an annotation
//! admits, and what a description hands the continuation bound to it.

use vstd::prelude::*;
use crate::ast::{lemma_parts_smaller, size, Expr, Pattern, Stmt};
use crate::infer::{lemma_tagged_or, lemma_tags, tagged, BOOL, ERR, FAIL, FLOAT, INT, LIST, MAP, NONE, REC, STR, TOP, TRUE, FALSE};
use crate::text::{has_suffix, index_of, same_text};

verus! {

/// What `+`, `-`, `*` and `/` answer on numbers: an int only when both
/// sides may be ints; a float whenever a float meets any number, the int
/// widening.
pub open spec fn numeric(a: u16, b: u16) -> u16 {
    (if a & INT != 0 && b & INT != 0 { INT } else { 0 }) | (if (a & FLOAT != 0 && b & (INT | FLOAT) != 0) || (b
        & FLOAT != 0 && a & (INT | FLOAT) != 0) {
        FLOAT
    } else {
        0
    })
}

pub fn numeric_result(a: u16, b: u16) -> (r: u16)
    ensures
        r == numeric(a, b),
{
    let ints: u16 = if a & INT != 0 && b & INT != 0 { INT } else { 0 };
    let floats: u16 = if (a & FLOAT != 0 && b & (INT | FLOAT) != 0) || (b & FLOAT != 0 && a & (INT | FLOAT) != 0) {
        FLOAT
    } else {
        0
    };
    ints | floats
}

/// The failure an arm's pattern catches in its position: `none` catches a
/// none, an `(err _)` an err; nothing else catches.
pub open spec fn catches(p: Pattern) -> u16 {
    match p {
        Pattern::Nullary(n, _) => if n@ == "none"@ { NONE } else { 0 },
        Pattern::Ctor { ty, .. } => if ty@ == "err"@ { ERR } else { 0 },
        _ => 0,
    }
}

pub fn pattern_catches(p: &Pattern) -> (r: u16)
    ensures
        r == catches(*p),
{
    match p {
        Pattern::Nullary(n, _) => if same_text(n.as_str(), "none") { NONE } else { 0 },
        Pattern::Ctor { ty, .. } => if same_text(ty.as_str(), "err") { ERR } else { 0 },
        _ => 0,
    }
}

/// What an annotation admits: a primitive's own tag, a list for `t[]`, a
/// map for any other type with a bracket, and a record for the rest.
pub open spec fn admitted(ty: Seq<char>) -> u16 {
    if ty == "int"@ {
        INT
    } else if ty == "float64"@ {
        FLOAT
    } else if ty == "string"@ {
        STR
    } else if ty == "bool"@ {
        BOOL
    } else if ty == "err"@ {
        ERR
    } else if has_suffix(ty, "[]"@) {
        LIST
    } else if index_of(ty, '[') != -1 {
        MAP
    } else {
        REC
    }
}

pub fn annotated_set(ty: &str) -> (r: u16)
    ensures
        r == admitted(ty@),
{
    proof {
        reveal_strlit("[]");
    }
    if same_text(ty, "int") {
        INT
    } else if same_text(ty, "float64") {
        FLOAT
    } else if same_text(ty, "string") {
        STR
    } else if same_text(ty, "bool") {
        BOOL
    } else if same_text(ty, "err") {
        ERR
    } else {
        let cs = crate::text::chars_of(ty);
        let brackets = crate::text::chars_of("[]");
        let ends = crate::text::suffix_at(cs.as_slice(), 0, cs.len(), brackets.as_slice());
        assert(cs@.subrange(0, cs@.len() as int) =~= cs@);
        if ends {
            LIST
        } else if crate::text::find_char(cs.as_slice(), '[').is_some() {
            MAP
        } else {
            REC
        }
    }
}

/// A name with the `builtin_` prefix taken off and then its qualification,
/// as the effects a description names are recognised.
pub open spec fn effect_base(n: Seq<char>) -> Seq<char> {
    crate::passes::short_of(crate::infer::bare_name(n))
}

/// Whether `e` is the name `n` written anywhere, read as an effect's base.
pub open spec fn names_effect(e: Expr, w: Seq<char>) -> bool {
    e matches Expr::Ident(n, _) && effect_base(n@) == w
}

/// What a call of the effect whose base is `w` hands its continuation.
pub open spec fn effect_yield(w: Seq<char>) -> u16 {
    if w == "read_file"@ || w == "stdin"@ {
        STR
    } else if w == "run"@ || w == "args"@ || w == "list_dir"@ {
        LIST
    } else if w == "start"@ || w == "random"@ || w == "now"@ {
        INT
    } else if w == "env"@ {
        STR | NONE
    } else if w == "exists"@ || w == "is_dir"@ {
        TRUE | FALSE
    } else if w == "print"@ || w == "write"@ || w == "write_err"@ || w == "write_file"@ || w == "make_dir"@ || w
        == "sleep"@ || w == "net_write"@ || w == "net_close"@ {
        0
    } else {
        TOP & !FAIL
    }
}

/// What the description `e` hands a bound continuation, read off its
/// syntax: its yield, failures stripped, and anything not recognised
/// answering every non-failure.
pub open spec fn yield_of(e: Expr) -> u16
    decreases size(e),
    via yield_of_decreases
{
    match e {
        Expr::Ident(n, _) => {
            let w = effect_base(n@);
            if w == "stdin"@ {
                STR
            } else if w == "args"@ {
                LIST
            } else if w == "now"@ {
                INT
            } else {
                TOP & !FAIL
            }
        },
        Expr::App { head, args, piped, .. } => {
            if piped {
                TOP & !FAIL
            } else if (*head matches Expr::Ident(n, _) && n@ == "if"@) && args@.len() == 3 {
                yield_of(args@[1]) | yield_of(args@[2])
            } else {
                match *head {
                    Expr::Ident(n, _) => effect_yield(effect_base(n@)),
                    _ => TOP & !FAIL,
                }
            }
        },
        Expr::Sequence(_, b, _) => yield_of(*b),
        Expr::Join { .. } => 0,
        Expr::Guard { early, rest, .. } => yield_of(*early) | if rest@.len() > 0 && rest@.last() is Expr {
            yield_of(rest@.last()->Expr_0)
        } else {
            TOP & !FAIL
        },
        _ => TOP & !FAIL,
    }
}

#[via_fn]
proof fn yield_of_decreases(e: Expr) {
    lemma_parts_smaller(e);
    match e {
        Expr::Guard { rest, .. } => {
            if rest@.len() > 0 {
                assert(crate::ast::stmt_expr(rest@[rest@.len() - 1]) == crate::ast::stmt_expr(rest@.last()));
            }
        },
        _ => {},
    }
}

/// A numeric answer holds only tags.
pub proof fn lemma_numeric_tagged(a: u16, b: u16)
    ensures
        tagged(numeric(a, b)),
{
    lemma_tags();
    let i: u16 = if a & INT != 0 && b & INT != 0 { INT } else { 0 };
    let f: u16 = if (a & FLOAT != 0 && b & (INT | FLOAT) != 0) || (b & FLOAT != 0 && a & (INT | FLOAT) != 0) {
        FLOAT
    } else {
        0
    };
    lemma_tagged_or(i, f);
}

/// An annotation admits only tags.
pub proof fn lemma_admitted_tagged(ty: Seq<char>)
    ensures
        tagged(admitted(ty)),
{
    lemma_tags();
}

pub proof fn lemma_yield_tagged(e: Expr)
    ensures
        tagged(yield_of(e)),
    decreases size(e),
{
    lemma_tags();
    lemma_parts_smaller(e);
    lemma_tagged_or(STR, NONE);
    lemma_tagged_or(TRUE, FALSE);
    match e {
        Expr::App { head, args, piped, .. } => {
            if !piped && (*head matches Expr::Ident(n, _) && n@ == "if"@) && args@.len() == 3 {
                lemma_yield_tagged(args@[1]);
                lemma_yield_tagged(args@[2]);
                lemma_tagged_or(yield_of(args@[1]), yield_of(args@[2]));
            }
        },
        Expr::Sequence(_, b, _) => {
            lemma_yield_tagged(*b);
        },
        Expr::Guard { early, rest, .. } => {
            lemma_yield_tagged(*early);
            if rest@.len() > 0 && rest@.last() is Expr {
                assert(crate::ast::stmt_expr(rest@[rest@.len() - 1]) == rest@.last()->Expr_0);
                lemma_yield_tagged(rest@.last()->Expr_0);
                lemma_tagged_or(yield_of(*early), yield_of(rest@.last()->Expr_0));
            } else {
                lemma_tagged_or(yield_of(*early), TOP & !FAIL);
            }
        },
        _ => {},
    }
}

fn effect_base_of(n: &str) -> (r: Vec<char>)
    ensures
        r@ == effect_base(n@),
{
    let full = crate::text::chars_of(n);
    let prefix = crate::text::chars_of("builtin_");
    proof {
        reveal_strlit("builtin_");
    }
    assert(full@.subrange(0, full@.len() as int) =~= full@);
    let bare: Vec<char> = if crate::text::prefix_at(full.as_slice(), 0, prefix.as_slice()) {
        crate::text::slice_vec(full.as_slice(), 8, full.len())
    } else {
        full
    };
    assert(bare@ == crate::infer::bare_name(n@));
    match crate::text::find_last_char(bare.as_slice(), '/') {
        Some(i) => {
            let len = bare.len();
            crate::text::slice_vec(bare.as_slice(), i + 1, len)
        },
        None => bare,
    }
}

fn spells(w: &Vec<char>, lit: &str) -> (r: bool)
    ensures
        r == (w@ == lit@),
{
    let l = crate::text::chars_of(lit);
    crate::text::same_chars(w.as_slice(), l.as_slice())
}

fn effect_yield_of(w: &Vec<char>) -> (r: u16)
    ensures
        r == effect_yield(w@),
{
    if spells(w, "read_file") || spells(w, "stdin") {
        STR
    } else if spells(w, "run") || spells(w, "args") || spells(w, "list_dir") {
        LIST
    } else if spells(w, "start") || spells(w, "random") || spells(w, "now") {
        INT
    } else if spells(w, "env") {
        STR | NONE
    } else if spells(w, "exists") || spells(w, "is_dir") {
        TRUE | FALSE
    } else if spells(w, "print") || spells(w, "write") || spells(w, "write_err") || spells(w, "write_file")
        || spells(w, "make_dir") || spells(w, "sleep") || spells(w, "net_write") || spells(w, "net_close") {
        0
    } else {
        TOP & !FAIL
    }
}

/// What the description `e` hands a bound continuation, as `yield_of` reads it.
pub fn desc_yield(e: &Expr) -> (r: u16)
    ensures
        r == yield_of(*e),
    decreases size(*e),
{
    proof {
        lemma_parts_smaller(*e);
    }
    match e {
        Expr::Ident(n, _) => {
            let w = effect_base_of(n.as_str());
            if spells(&w, "stdin") {
                STR
            } else if spells(&w, "args") {
                LIST
            } else if spells(&w, "now") {
                INT
            } else {
                TOP & !FAIL
            }
        },
        Expr::App { head, args, piped, .. } => {
            if *piped {
                return TOP & !FAIL;
            }
            match &**head {
                Expr::Ident(n, _) => {
                    if same_text(n.as_str(), "if") && args.len() == 3 {
                        desc_yield(&args[1]) | desc_yield(&args[2])
                    } else {
                        let w = effect_base_of(n.as_str());
                        effect_yield_of(&w)
                    }
                },
                _ => TOP & !FAIL,
            }
        },
        Expr::Sequence(_, b, _) => desc_yield(b),
        Expr::Join { .. } => 0,
        Expr::Guard { early, rest, .. } => {
            let y = desc_yield(early);
            let tail: u16 = if rest.len() > 0 {
                match &rest[rest.len() - 1] {
                    Stmt::Expr(x) => {
                        assert(crate::ast::stmt_expr(rest@[rest@.len() - 1]) == *x);
                        desc_yield(x)
                    },
                    _ => TOP & !FAIL,
                }
            } else {
                TOP & !FAIL
            };
            y | tail
        },
        _ => TOP & !FAIL,
    }
}

} // verus!
