//! What the lexer's tables mean, stated from the source side: an operator
//! token spells the characters it was read from, and an escape stands for
//! the character it names.

use vstd::prelude::*;
use crate::diag::Span;
use super::{
    at, block_escape, dot_token, line_escape, line_tokens, negated, number_tok, operator_at, punct_token, scan_line, scan_string,
    token_at, word_tok, word_token, DiagV, Op, PartV, ScanStep, TokV,
};

verus! {

/// How each operator the lexer reads is written in source.
pub open spec fn op_spelling(op: Op) -> Seq<char> {
    match op {
        Op::Ge => seq!['>', '='],
        Op::Le => seq!['<', '='],
        Op::EqEq => seq!['=', '='],
        Op::Ne => seq!['!', '='],
        Op::Plus => seq!['+'],
        Op::Minus => seq!['-'],
        Op::Star => seq!['*'],
        Op::Slash => seq!['/'],
        Op::Percent => seq!['%'],
        Op::Lt => seq!['<'],
        Op::Gt => seq!['>'],
        Op::Amp => seq!['&'],
        Op::Bar => seq!['|'],
        Op::Caret => seq!['^'],
        Op::And => "and"@,
        Op::Or => "or"@,
        Op::Not => "not"@,
    }
}

/// An operator token spells exactly the characters it takes: one or two,
/// the first of them `c` and the second `n`.
pub proof fn law_operator_spells_its_source(c: char, n: char)
    ensures
        operator_at(c, n) matches Some((op, k)) ==> (k == 1 || k == 2) && op_spelling(op) == seq![c, n].subrange(0, k),
{
}

/// Every symbol operator written in source is read as that operator, a
/// two-character one whole: reading its spelling (a space after a
/// one-character one) gives it back. (`and`, `or` and `not` are words.)
pub proof fn law_operator_read_back(op: Op)
    requires
        !(op is And || op is Or || op is Not),
    ensures
        op_spelling(op).len() == 2 ==> operator_at(op_spelling(op)[0], op_spelling(op)[1]) == Some((op, 2int)),
        op_spelling(op).len() == 1 ==> operator_at(op_spelling(op)[0], ' ') == Some((op, 1int)),
{
}

/// The escapes of a one-line string: `\n` a newline, `\r` a carriage
/// return, `\t` a tab, and `\"`, `\\`, `\{` the character itself; no other
/// character after a backslash is an escape.
pub proof fn law_line_escapes(e: char)
    ensures
        line_escape('n') == Some('\n'),
        line_escape('r') == Some('\r'),
        line_escape('t') == Some('\t'),
        line_escape('"') == Some('"'),
        line_escape('\\') == Some('\\'),
        line_escape('{') == Some('{'),
        !(e == 'n' || e == 'r' || e == 't' || e == '"' || e == '\\' || e == '{') ==> line_escape(e) is None,
        line_escape(e) matches Some(x) ==> x != e || e == '"' || e == '\\' || e == '{',
{
}

/// The escapes of a text block: `\r` a carriage return, `\t` a tab, `\\`
/// and `\{` the character itself; everything else is refused.
pub proof fn law_block_escapes(e: char, span: Span)
    ensures
        block_escape('r', span) == Ok::<char, super::DiagV>('\r'),
        block_escape('t', span) == Ok::<char, super::DiagV>('\t'),
        block_escape('\\', span) == Ok::<char, super::DiagV>('\\'),
        block_escape('{', span) == Ok::<char, super::DiagV>('{'),
        !(e == 'r' || e == 't' || e == '\\' || e == '{') ==> block_escape(e, span) is Err,
{
}

/// How a token is written in source, where its text says it: a name, a
/// float, a keyword, an operator or a punctuation mark. An int's digits,
/// a string and a group mark have no fixed spelling.
pub open spec fn tok_spelling(t: TokV) -> Option<Seq<char>> {
    match t {
        TokV::Ident(w) => Some(w),
        TokV::Float(s) => Some(s),
        TokV::Op(op) => Some(op_spelling(op)),
        TokV::LParen => Some(seq!['(']),
        TokV::RParen => Some(seq![')']),
        TokV::LBracket => Some(seq!['[']),
        TokV::RBracket => Some(seq![']']),
        TokV::LBrace => Some(seq!['{']),
        TokV::RBrace => Some(seq!['}']),
        TokV::Bang => Some(seq!['!']),
        TokV::At => Some(seq!['@']),
        TokV::Colon => Some(seq![':']),
        TokV::Dot => Some(seq!['.']),
        TokV::Pipe => Some(seq!['.']),
        TokV::Arrow => Some(seq!['-', '>']),
        TokV::SeqOp => Some(seq!['>', '>']),
        TokV::Bind => Some(seq!['=']),
        TokV::Underscore => Some(seq!['_']),
        TokV::KwFn => Some("fn"@),
        TokV::KwReturn => Some("return"@),
        TokV::KwType => Some("type"@),
        TokV::KwPub => Some("pub"@),
        TokV::KwImport => Some("import"@),
        _ => None,
    }
}

/// Whether the token `t` of a line whose first character sits in column
/// `off` is spelled by the characters from its column to its end.
pub open spec fn spelled_at(cs: Seq<char>, off: nat, t: (TokV, crate::diag::Span, u32)) -> bool {
    match tok_spelling(t.0) {
        None => true,
        Some(s) => off <= t.1.col && t.1.col as int <= t.2 as int <= off + cs.len() && cs.subrange(
            t.1.col - off,
            t.2 - off,
        ) == s,
    }
}

proof fn lemma_string_is_str(cs: Seq<char>, line: nat, off: nat, p: int, parts: Seq<PartV>, lit: Seq<char>, open: crate::diag::Span)
    ensures
        scan_string(cs, line, off, p, parts, lit, open) matches Ok((_, t)) ==> t is Str,
    decreases cs.len() - p,
{
    if 0 <= p < cs.len() {
        let c = cs[p];
        if c == '"' {
        } else if c == '\\' {
            if p + 1 < cs.len() {
                match line_escape(cs[p + 1]) {
                    Some(r) => lemma_string_is_str(cs, line, off, p + 2, parts, lit.push(r), open),
                    None => {},
                }
            }
        } else if c == '{' {
            let parts2 = if lit.len() > 0 {
                parts.push(PartV::Lit(lit))
            } else {
                parts
            };
            match super::scan_interp(cs, line, off, p) {
                Ok((q, part)) => if p < q <= cs.len() {
                    lemma_string_is_str(cs, line, off, q, parts2.push(part), Seq::empty(), open);
                },
                Err(_) => {},
            }
        } else {
            lemma_string_is_str(cs, line, off, p + 1, parts, lit.push(c), open);
        }
    }
}

/// The token the scan emits at `p` is spelled by the characters it takes.
proof fn lemma_token_spells(cs: Seq<char>, line: nat, off: nat, p: int, acc: Seq<(TokV, crate::diag::Span, u32)>)
    requires
        0 <= p < cs.len(),
    ensures
        token_at(cs, line, off, p, acc) matches ScanStep::Emit(e, t) ==> (p < e <= cs.len() ==> (tok_spelling(t) matches Some(
            s,
        ) ==> cs.subrange(p, e) == s)),
{
    let c = cs[p];
    let next = if p + 1 < cs.len() { cs[p + 1] } else { ' ' };
    reveal_strlit("fn");
    reveal_strlit("return");
    reveal_strlit("type");
    reveal_strlit("pub");
    reveal_strlit("import");
    reveal_strlit("and");
    reveal_strlit("or");
    reveal_strlit("not");
    match token_at(cs, line, off, p, acc) {
        ScanStep::Emit(e, t) => {
            if p < e <= cs.len() {
                if super::is_digit(c) {
                } else if c == '-' && p + 1 < cs.len() && super::is_digit(next) && super::minus_is_prefix(acc) {
                    let (f, u) = number_tok(cs, (p + 1) as nat);
                    if u is Float {
                        assert(cs.subrange(p, f as int) =~= seq!['-'] + cs.subrange(p + 1, f as int));
                    }
                } else if super::is_lower(c) || c == '_' {
                } else if c == '"' {
                    lemma_string_is_str(cs, line, off, p + 1, Seq::empty(), Seq::empty(), at(line, (off + p) as nat));
                } else if punct_token(cs, p) is Some {
                    assert(cs.subrange(p, p + 1) =~= seq![c]);
                } else if c == '-' && next == '>' && p + 1 < cs.len() {
                    assert(cs.subrange(p, p + 2) =~= seq![c, next]);
                } else if c == '>' && next == '>' && p + 1 < cs.len() {
                    assert(cs.subrange(p, p + 2) =~= seq![c, next]);
                } else if c == '=' && !(next == '=' && p + 1 < cs.len()) {
                    assert(cs.subrange(p, p + 1) =~= seq![c]);
                } else {
                    match operator_at(c, next) {
                        Some((op, n)) => {
                            law_operator_spells_its_source(c, next);
                            if n == 1 {
                                assert(cs.subrange(p, p + 1) =~= seq![c, next].subrange(0, 1));
                            } else {
                                assert(p + 1 < cs.len());
                                assert(cs.subrange(p, p + 2) =~= seq![c, next].subrange(0, 2));
                            }
                        },
                        None => {},
                    }
                }
            }
        },
        _ => {},
    }
}

proof fn lemma_scan_spells(cs: Seq<char>, line: nat, off: nat, p: int, acc: Seq<(TokV, crate::diag::Span, u32)>)
    requires
        off + cs.len() < 0x1_0000_0000,
        0 <= p,
        forall|i: int| 0 <= i < acc.len() ==> spelled_at(cs, off, #[trigger] acc[i]),
    ensures
        scan_line(cs, line, off, p, acc) matches Ok(ts) ==> forall|i: int| 0 <= i < ts.len() ==> spelled_at(cs, off, #[trigger] ts[i]),
    decreases cs.len() - p,
{
    if p < cs.len() {
        lemma_token_spells(cs, line, off, p, acc);
        match token_at(cs, line, off, p, acc) {
            ScanStep::Skip(e) => if p < e <= cs.len() {
                lemma_scan_spells(cs, line, off, e, acc);
            },
            ScanStep::Emit(e, t) => if p < e <= cs.len() {
                let tok = (t, at(line, (off + p) as nat), (off + e) as u32);
                assert(tok.1.col == off + p);
                assert(tok.2 == off + e);
                assert(spelled_at(cs, off, tok));
                let acc2 = acc.push(tok);
                assert forall|i: int| 0 <= i < acc2.len() implies spelled_at(cs, off, #[trigger] acc2[i]) by {
                    if i < acc.len() {
                        assert(acc2[i] == acc[i]);
                    }
                }
                lemma_scan_spells(cs, line, off, e, acc2);
            },
            _ => {},
        }
    }
}

/// Every token a line lexes to, where its text says how it is written (a
/// name, a float, a keyword, an operator, a punctuation mark), is spelled
/// by exactly the source characters from its column to its end.
pub proof fn law_tokens_spell_their_source(cs: Seq<char>, line: nat, off: nat)
    requires
        off + cs.len() < 0x1_0000_0000,
    ensures
        line_tokens(cs, line, off) matches Ok(ts) ==> forall|i: int| 0 <= i < ts.len() ==> spelled_at(cs, off, #[trigger] ts[i]),
{
    lemma_scan_spells(cs, line, off, 0, Seq::empty());
}

} // verus!
