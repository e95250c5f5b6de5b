//! The lexer: source text to lines of tokens, with the canonical-form rules
//! that can be checked on characters alone.

use vstd::prelude::*;
use crate::diag::{Diagnostic, Span};
use crate::number::Big;

mod laws;
mod layout;

pub use self::laws::{law_block_escapes, law_line_escapes, law_operator_read_back, law_operator_spells_its_source, law_tokens_spell_their_source, op_spelling, spelled_at, tok_spelling};
pub use self::layout::{law_lexed_layout_is_canonical, lex, lex_checked, lex_outcome, lexed, lines_view, one_rendering, LexSt, Lexed, LineV};


verus! {

/// The operators, as the lexer spells them.
#[derive(Clone, Copy, Debug, PartialEq, Eq, Structural)]
pub enum Op {
    Ge,
    Le,
    EqEq,
    Ne,
    Plus,
    Minus,
    Star,
    Slash,
    Percent,
    Lt,
    Gt,
    Amp,
    Bar,
    Caret,
    And,
    Or,
    Not,
}

#[derive(Debug)]
pub enum Tok {
    Bang,
    Ident(String),
    Int(Big),
    /// A float literal, as written (with its sign when one was folded in).
    Float(String),
    Str(Vec<StrPart>),
    LParen,
    RParen,
    /// The grouping the indented-argument form inserts around a
    /// continuation line; written by nobody.
    LGroup,
    RGroup,
    LBracket,
    RBracket,
    LBrace,
    RBrace,
    Colon,
    Dot,
    Bind,
    Arrow,
    Pipe,
    SeqOp,
    Op(Op),
    Underscore,
    /// The as-pattern's sigil: `r@(rect w h)`.
    At,
    KwFn,
    KwReturn,
    KwType,
    KwPub,
    KwImport,
}

#[derive(Debug)]
pub enum StrPart {
    Lit(String),
    Interp(Vec<(Tok, Span, u32)>),
}

/// A token as a mathematical value.
pub enum TokV {
    Bang,
    Ident(Seq<char>),
    Int(int),
    Float(Seq<char>),
    Str(Seq<PartV>),
    LParen,
    RParen,
    LGroup,
    RGroup,
    LBracket,
    RBracket,
    LBrace,
    RBrace,
    Colon,
    Dot,
    Bind,
    Arrow,
    Pipe,
    SeqOp,
    Op(Op),
    Underscore,
    At,
    KwFn,
    KwReturn,
    KwType,
    KwPub,
    KwImport,
}

pub enum PartV {
    Lit(Seq<char>),
    Interp(Seq<(TokV, Span, u32)>),
}

pub open spec fn tok_view(t: Tok) -> TokV
    decreases t, 0nat,
{
    match t {
        Tok::Bang => TokV::Bang,
        Tok::Ident(s) => TokV::Ident(s@),
        Tok::Int(b) => TokV::Int(b@),
        Tok::Float(s) => TokV::Float(s@),
        Tok::Str(parts) => TokV::Str(parts_view(parts@, parts@.len())),
        Tok::LParen => TokV::LParen,
        Tok::RParen => TokV::RParen,
        Tok::LGroup => TokV::LGroup,
        Tok::RGroup => TokV::RGroup,
        Tok::LBracket => TokV::LBracket,
        Tok::RBracket => TokV::RBracket,
        Tok::LBrace => TokV::LBrace,
        Tok::RBrace => TokV::RBrace,
        Tok::Colon => TokV::Colon,
        Tok::Dot => TokV::Dot,
        Tok::Bind => TokV::Bind,
        Tok::Arrow => TokV::Arrow,
        Tok::Pipe => TokV::Pipe,
        Tok::SeqOp => TokV::SeqOp,
        Tok::Op(o) => TokV::Op(o),
        Tok::Underscore => TokV::Underscore,
        Tok::At => TokV::At,
        Tok::KwFn => TokV::KwFn,
        Tok::KwReturn => TokV::KwReturn,
        Tok::KwType => TokV::KwType,
        Tok::KwPub => TokV::KwPub,
        Tok::KwImport => TokV::KwImport,
    }
}

pub open spec fn parts_view(ps: Seq<StrPart>, n: nat) -> Seq<PartV>
    decreases ps, n,
{
    if n == 0 || n > ps.len() {
        Seq::<PartV>::empty()
    } else {
        parts_view(ps, (n - 1) as nat).push(part_view(ps[n - 1]))
    }
}

pub open spec fn part_view(p: StrPart) -> PartV
    decreases p, 0nat,
{
    match p {
        StrPart::Lit(s) => PartV::Lit(s@),
        StrPart::Interp(ts) => PartV::Interp(toks_view(ts@, ts@.len())),
    }
}

pub open spec fn toks_view(ts: Seq<(Tok, Span, u32)>, n: nat) -> Seq<(TokV, Span, u32)>
    decreases ts, n,
{
    if n == 0 || n > ts.len() {
        Seq::<(TokV, Span, u32)>::empty()
    } else {
        toks_view(ts, (n - 1) as nat).push((tok_view(ts[n - 1].0), ts[n - 1].1, ts[n - 1].2))
    }
}

} // verus!

verus! {

/// A diagnostic as a mathematical value.
pub struct DiagV {
    pub kind: Seq<char>,
    pub message: Seq<char>,
    pub span: Span,
}

pub open spec fn diag_view(d: Diagnostic) -> DiagV {
    DiagV { kind: d.kind@, message: d.message@, span: d.span }
}

pub open spec fn dv(kind: Seq<char>, message: Seq<char>, span: Span) -> DiagV {
    DiagV { kind, message, span }
}

/// The span of a line and column, as `Span::at` makes it.
pub open spec fn at(line: nat, col: nat) -> Span {
    Span { line: line as u32, col: col as u32 }
}

pub open spec fn is_digit(c: char) -> bool {
    '0' <= c <= '9'
}

pub open spec fn is_lower(c: char) -> bool {
    'a' <= c <= 'z'
}

pub open spec fn is_upper(c: char) -> bool {
    'A' <= c <= 'Z'
}

pub open spec fn is_word_char(c: char) -> bool {
    is_lower(c) || is_digit(c) || c == '_'
}

/// Where the run of digits that starts at `p` ends.
pub open spec fn digits_end(cs: Seq<char>, p: nat) -> nat
    decreases cs.len() - p,
{
    if p < cs.len() && is_digit(cs[p as int]) {
        digits_end(cs, p + 1)
    } else {
        p
    }
}

/// A number literal starting at `p`: where it ends, and what it is. A dot
/// with a digit on both sides makes it a float.
pub open spec fn number_tok(cs: Seq<char>, p: nat) -> (nat, TokV) {
    let e = digits_end(cs, p);
    if e + 1 < cs.len() && cs[e as int] == '.' && is_digit(cs[(e + 1) as int]) {
        let f = digits_end(cs, e + 1);
        (f, TokV::Float(cs.subrange(p as int, f as int)))
    } else {
        (e, TokV::Int(crate::number::decimal_value(cs.subrange(p as int, e as int)) as int))
    }
}

/// A number literal with a minus sign folded in.
pub open spec fn negated(t: TokV) -> TokV {
    match t {
        TokV::Int(n) => TokV::Int(-n),
        TokV::Float(s) => TokV::Float(seq!['-'] + s),
        other => other,
    }
}

/// Where the run of word characters starting at `p` ends. A slash pressed
/// tight between word characters qualifies a name (`json/decode`).
pub open spec fn word_end(cs: Seq<char>, p: nat) -> nat
    decreases cs.len() - p,
{
    if p < cs.len() && is_word_char(cs[p as int]) {
        let q = p + 1;
        if q + 1 < cs.len() && cs[q as int] == '/' && (is_lower(cs[(q + 1) as int]) || cs[(q + 1) as int] == '_') {
            word_end(cs, q + 1)
        } else {
            word_end(cs, q)
        }
    } else {
        p
    }
}

/// A word: where it ends, after an optional `!` or `?` naming sigil.
pub open spec fn word_stop(cs: Seq<char>, p: nat) -> nat {
    let e = word_end(cs, p);
    if e < cs.len() && (cs[e as int] == '!' || cs[e as int] == '?') {
        e + 1
    } else {
        e
    }
}

/// The token a word is: a keyword, a spelled operator, the wildcard, or a
/// name.
pub open spec fn word_token(w: Seq<char>) -> TokV {
    if w == seq!['_'] {
        TokV::Underscore
    } else if w == "and"@ {
        TokV::Op(Op::And)
    } else if w == "or"@ {
        TokV::Op(Op::Or)
    } else if w == "not"@ {
        TokV::Op(Op::Not)
    } else if w == "fn"@ {
        TokV::KwFn
    } else if w == "return"@ {
        TokV::KwReturn
    } else if w == "type"@ {
        TokV::KwType
    } else if w == "pub"@ {
        TokV::KwPub
    } else if w == "import"@ {
        TokV::KwImport
    } else {
        TokV::Ident(w)
    }
}

pub open spec fn underscore_message() -> Seq<char> {
    "leading underscores are retired: privacy is `pub`'s absence, and `_` alone is the wildcard"@
}

/// A word starting at `p`: where it ends and its token, or the refusal of a
/// leading underscore.
pub open spec fn word_tok(cs: Seq<char>, line: nat, off: nat, p: nat) -> Result<(nat, TokV), DiagV> {
    let e = word_stop(cs, p);
    let w = cs.subrange(p as int, e as int);
    if w.len() > 1 && w[0] == '_' {
        Err(dv("naming"@, underscore_message(), at(line, off + e)))
    } else {
        Ok((e, word_token(w)))
    }
}

proof fn lemma_digits_end(cs: Seq<char>, p: nat)
    requires
        p <= cs.len(),
    ensures
        p <= digits_end(cs, p) <= cs.len(),
        forall|i: int| p <= i < digits_end(cs, p) ==> is_digit(#[trigger] cs[i]),
        digits_end(cs, p) < cs.len() ==> !is_digit(cs[digits_end(cs, p) as int]),
    decreases cs.len() - p,
{
    if p < cs.len() && is_digit(cs[p as int]) {
        lemma_digits_end(cs, p + 1);
    }
}

proof fn lemma_word_end(cs: Seq<char>, p: nat)
    requires
        p <= cs.len(),
    ensures
        p <= word_end(cs, p) <= cs.len(),
        p < cs.len() && is_word_char(cs[p as int]) ==> p < word_end(cs, p),
    decreases cs.len() - p,
{
    if p < cs.len() && is_word_char(cs[p as int]) {
        let q = p + 1;
        if q + 1 < cs.len() && cs[q as int] == '/' && (is_lower(cs[(q + 1) as int]) || cs[(q + 1) as int] == '_') {
            lemma_word_end(cs, q + 1);
        } else {
            lemma_word_end(cs, q);
        }
    }
}

fn is_digit_char(c: char) -> (r: bool)
    ensures
        r == is_digit(c),
{
    '0' <= c && c <= '9'
}

fn is_lower_char(c: char) -> (r: bool)
    ensures
        r == is_lower(c),
{
    'a' <= c && c <= 'z'
}

fn scan_digits(cs: &[char], p: usize) -> (e: usize)
    requires
        p <= cs@.len(),
    ensures
        e == digits_end(cs@, p as nat),
        p <= e <= cs@.len(),
{
    let mut q = p;
    proof {
        lemma_digits_end(cs@, p as nat);
    }
    while q < cs.len() && is_digit_char(cs[q])
        invariant
            p <= q <= cs@.len(),
            digits_end(cs@, p as nat) == digits_end(cs@, q as nat),
        decreases cs@.len() - q,
    {
        q += 1;
    }
    q
}

/// A number literal starting at `p`, which holds a digit.
fn lex_number(cs: &[char], p: usize) -> (r: (usize, Tok))
    requires
        p < cs@.len(),
        is_digit(cs@[p as int]),
    ensures
        (r.0 as nat, tok_view(r.1)) == number_tok(cs@, p as nat),
        p < r.0 <= cs@.len(),
        r.1 matches Tok::Int(b) ==> b.canonical(),
{
    let e = scan_digits(cs, p);
    proof {
        lemma_digits_end(cs@, p as nat);
    }
    if cs.len() - e > 1 && cs[e] == '.' && is_digit_char(cs[e + 1]) {
        let f = scan_digits(cs, e + 1);
        let text = crate::text::slice_vec(cs, p, f);
        (f, Tok::Float(crate::text::string_from_chars(text.as_slice())))
    } else {
        let text = crate::text::slice_vec(cs, p, e);
        let s = crate::text::string_from_chars(text.as_slice());
        assert(crate::number::all_digits(s@));
        let n = crate::number::big_from_digits(s.as_str());
        (e, Tok::Int(n))
    }
}

} // verus!

verus! {

pub open spec fn tv(ts: Seq<(Tok, Span, u32)>) -> Seq<(TokV, Span, u32)> {
    toks_view(ts, ts.len())
}

pub open spec fn pv(ps: Seq<StrPart>) -> Seq<PartV> {
    parts_view(ps, ps.len())
}

proof fn lemma_toks_view_prefix(s: Seq<(Tok, Span, u32)>, x: (Tok, Span, u32), n: nat)
    requires
        n <= s.len(),
    ensures
        toks_view(s.push(x), n) == toks_view(s, n),
    decreases n,
{
    if n > 0 {
        lemma_toks_view_prefix(s, x, (n - 1) as nat);
        assert(s.push(x)[n - 1] == s[n - 1]);
    }
}

pub proof fn lemma_tv_push(s: Seq<(Tok, Span, u32)>, x: (Tok, Span, u32))
    ensures
        tv(s.push(x)) == tv(s).push((tok_view(x.0), x.1, x.2)),
{
    lemma_toks_view_prefix(s, x, s.len());
    assert(s.push(x)[s.len() as int] == x);
}

proof fn lemma_parts_view_prefix(s: Seq<StrPart>, x: StrPart, n: nat)
    requires
        n <= s.len(),
    ensures
        parts_view(s.push(x), n) == parts_view(s, n),
    decreases n,
{
    if n > 0 {
        lemma_parts_view_prefix(s, x, (n - 1) as nat);
        assert(s.push(x)[n - 1] == s[n - 1]);
    }
}

pub proof fn lemma_pv_push(s: Seq<StrPart>, x: StrPart)
    ensures
        pv(s.push(x)) == pv(s).push(part_view(x)),
{
    lemma_parts_view_prefix(s, x, s.len());
    assert(s.push(x)[s.len() as int] == x);
}

/// Whether a minus before a digit folds into the literal: it does unless
/// what precedes it is a value a binary minus could follow.
pub open spec fn minus_is_prefix(acc: Seq<(TokV, Span, u32)>) -> bool {
    !(acc.len() > 0 && match acc.last().0 {
        TokV::Ident(_) | TokV::Int(_) | TokV::Float(_) | TokV::Str(_) | TokV::RParen
        | TokV::RGroup | TokV::RBracket => true,
        _ => false,
    })
}

/// A dot pressed tight against both neighbours reads a field; with air
/// around it, it is the pipe.
pub open spec fn dot_token(cs: Seq<char>, p: int) -> TokV {
    let tight_left = p > 0 && {
        let q = cs[p - 1];
        is_lower(q) || is_upper(q) || is_digit(q) || q == '_' || q == ')' || q == ']' || q == '!'
    };
    let tight_right = p + 1 < cs.len() && (is_lower(cs[p + 1]) || cs[p + 1] == '_');
    if tight_left && tight_right {
        TokV::Dot
    } else {
        TokV::Pipe
    }
}

/// The one-character punctuation tokens.
pub open spec fn punct_token(cs: Seq<char>, p: int) -> Option<TokV> {
    let c = cs[p];
    if c == '(' {
        Some(TokV::LParen)
    } else if c == ')' {
        Some(TokV::RParen)
    } else if c == '[' {
        Some(TokV::LBracket)
    } else if c == ']' {
        Some(TokV::RBracket)
    } else if c == '!' && !(p + 1 < cs.len() && cs[p + 1] == '=') {
        Some(TokV::Bang)
    } else if c == '@' {
        Some(TokV::At)
    } else if c == '{' {
        Some(TokV::LBrace)
    } else if c == '}' {
        Some(TokV::RBrace)
    } else if c == ':' {
        Some(TokV::Colon)
    } else if c == '.' {
        Some(dot_token(cs, p))
    } else {
        None
    }
}

/// The operator at a character and the one after it (a space when there is
/// none), and how many characters it takes: the first of
/// `>= <= == != + - * / % < > & | ^` that is either both characters or,
/// being one character, the first.
pub open spec fn operator_at(c: char, n: char) -> Option<(Op, int)> {
    if c == '>' && n == '=' {
        Some((Op::Ge, 2))
    } else if c == '<' && n == '=' {
        Some((Op::Le, 2))
    } else if c == '=' && n == '=' {
        Some((Op::EqEq, 2))
    } else if c == '!' && n == '=' {
        Some((Op::Ne, 2))
    } else if c == '+' {
        Some((Op::Plus, 1))
    } else if c == '-' {
        Some((Op::Minus, 1))
    } else if c == '*' {
        Some((Op::Star, 1))
    } else if c == '/' {
        Some((Op::Slash, 1))
    } else if c == '%' {
        Some((Op::Percent, 1))
    } else if c == '<' {
        Some((Op::Lt, 1))
    } else if c == '>' {
        Some((Op::Gt, 1))
    } else if c == '&' {
        Some((Op::Amp, 1))
    } else if c == '|' {
        Some((Op::Bar, 1))
    } else if c == '^' {
        Some((Op::Caret, 1))
    } else {
        None
    }
}

/// What an escape in a one-line string stands for.
pub open spec fn line_escape(e: char) -> Option<char> {
    if e == '"' {
        Some('"')
    } else if e == '\\' {
        Some('\\')
    } else if e == '{' {
        Some('{')
    } else if e == 'n' {
        Some('\n')
    } else if e == 'r' {
        Some('\r')
    } else if e == 't' {
        Some('\t')
    } else {
        None
    }
}

pub open spec fn unknown_escape(e: char) -> Seq<char> {
    "unknown escape `\\"@ + seq![e] + seq!['`']
}

/// Where the braces that open at `q` with `depth` still open close: the
/// position just past the closing brace, if they close.
pub open spec fn brace_close(cs: Seq<char>, q: int, depth: nat) -> Option<int>
    decreases cs.len() - q,
{
    if depth == 0 {
        Some(q)
    } else if q < 0 || q >= cs.len() {
        None
    } else {
        let d: nat = if cs[q] == '{' {
            depth + 1
        } else if cs[q] == '}' {
            (depth - 1) as nat
        } else {
            depth
        };
        brace_close(cs, q + 1, d)
    }
}

pub open spec fn padded(inner: Seq<char>) -> bool {
    inner.len() == 0 || crate::text::is_space(inner[0]) || crate::text::is_space(inner.last())
}

/// An interpolation whose `{` is at `p`: where it ends and its part. The
/// braces wrap the expression exactly, and it lexes as a line of its own
/// at the column it was written in.
pub open spec fn scan_interp(cs: Seq<char>, line: nat, off: nat, p: int) -> Result<(int, PartV), DiagV>
    decreases cs.len(), cs.len() - p, 0nat,
{
    let span = at(line, (off + p) as nat);
    let start = p + 1;
    if p < 0 || p >= cs.len() {
        Err(dv("syntax"@, "unterminated interpolation"@, span))
    } else {
        match brace_close(cs, start, 1) {
            None => Err(dv("syntax"@, "unterminated interpolation"@, span)),
            Some(q) => {
                let inner = cs.subrange(start, q - 1);
                if q - 1 < start || q > cs.len() {
                    Err(dv("syntax"@, "unterminated interpolation"@, span))
                } else if padded(inner) {
                    Err(
                        dv(
                            "formatting"@,
                            "interpolation braces wrap the expression exactly, with no padding"@,
                            span,
                        ),
                    )
                } else {
                    match scan_line(inner, line, (off + start) as nat, 0, Seq::empty()) {
                        Err(d) => Err(d),
                        Ok(ts) => Ok((q, PartV::Interp(ts))),
                    }
                }
            },
        }
    }
}

/// The rest of a one-line string from `p`, with the parts and the literal
/// gathered so far: where it ends and its token.
pub open spec fn scan_string(
    cs: Seq<char>,
    line: nat,
    off: nat,
    p: int,
    parts: Seq<PartV>,
    lit: Seq<char>,
    open: Span,
) -> Result<(int, TokV), DiagV>
    decreases cs.len(), cs.len() - p, 1nat,
{
    if p < 0 || p >= cs.len() {
        Err(dv("syntax"@, "unterminated string"@, open))
    } else {
        let c = cs[p];
        if c == '"' {
            Ok(
                (
                    p + 1,
                    TokV::Str(
                        if lit.len() > 0 {
                            parts.push(PartV::Lit(lit))
                        } else {
                            parts
                        },
                    ),
                ),
            )
        } else if c == '\\' {
            if p + 1 >= cs.len() {
                Err(dv("syntax"@, "unterminated escape"@, at(line, (off + p) as nat)))
            } else {
                match line_escape(cs[p + 1]) {
                    None => Err(dv("syntax"@, unknown_escape(cs[p + 1]), at(line, (off + p) as nat))),
                    Some(r) => scan_string(cs, line, off, p + 2, parts, lit.push(r), open),
                }
            }
        } else if c == '{' {
            let parts2 = if lit.len() > 0 {
                parts.push(PartV::Lit(lit))
            } else {
                parts
            };
            match scan_interp(cs, line, off, p) {
                Err(d) => Err(d),
                Ok((q, part)) => if p < q <= cs.len() {
                    scan_string(cs, line, off, q, parts2.push(part), Seq::empty(), open)
                } else {
                    Err(dv("syntax"@, "unterminated interpolation"@, at(line, (off + p) as nat)))
                },
            }
        } else {
            scan_string(cs, line, off, p + 1, parts, lit.push(c), open)
        }
    }
}

/// What the scanner does at one position of a line.
pub enum ScanStep {
    /// Moves on without a token (a space).
    Skip(int),
    /// The rest of the line is a comment.
    Stop,
    Fail(DiagV),
    /// A token, and where the scan resumes.
    Emit(int, TokV),
}

/// The token that starts at `p`, given the tokens before it.
pub open spec fn token_at(cs: Seq<char>, line: nat, off: nat, p: int, acc: Seq<(TokV, Span, u32)>) -> ScanStep
    decreases cs.len(), cs.len() - p, 2nat,
{
    if p < 0 || p >= cs.len() {
        ScanStep::Stop
    } else {
        let c = cs[p];
        let span = at(line, (off + p) as nat);
        let next = if p + 1 < cs.len() {
            cs[p + 1]
        } else {
            ' '
        };
        if c == ' ' {
            ScanStep::Skip(p + 1)
        } else if c == '#' {
            ScanStep::Stop
        } else if c == '/' && next == '/' && p + 1 < cs.len() {
            ScanStep::Fail(dv("formatting"@, "comments are `#`"@, span))
        } else if is_digit(c) {
            let (e, t) = number_tok(cs, p as nat);
            ScanStep::Emit(e as int, t)
        } else if c == '-' && p + 1 < cs.len() && is_digit(next) && minus_is_prefix(acc) {
            let (e, t) = number_tok(cs, (p + 1) as nat);
            ScanStep::Emit(e as int, negated(t))
        } else if is_lower(c) || c == '_' {
            match word_tok(cs, line, off, p as nat) {
                Err(d) => ScanStep::Fail(d),
                Ok((e, t)) => ScanStep::Emit(e as int, t),
            }
        } else if is_upper(c) {
            ScanStep::Fail(dv("formatting"@, "identifiers are snake_case, all lowercase, always"@, span))
        } else if c == '"' {
            match scan_string(cs, line, off, p + 1, Seq::empty(), Seq::empty(), span) {
                Err(d) => ScanStep::Fail(d),
                Ok((e, t)) => ScanStep::Emit(e, t),
            }
        } else if c == ',' {
            ScanStep::Fail(dv("formatting"@, "kanso has no commas; enumerations are space-separated"@, span))
        } else if punct_token(cs, p) is Some {
            ScanStep::Emit(p + 1, punct_token(cs, p).unwrap())
        } else if c == '-' && next == '>' && p + 1 < cs.len() {
            ScanStep::Emit(p + 2, TokV::Arrow)
        } else if c == '>' && next == '>' && p + 1 < cs.len() {
            ScanStep::Emit(p + 2, TokV::SeqOp)
        } else if c == '=' && !(next == '=' && p + 1 < cs.len()) {
            ScanStep::Emit(p + 1, TokV::Bind)
        } else {
            match operator_at(c, next) {
                Some((op, n)) => ScanStep::Emit(p + n, TokV::Op(op)),
                None => ScanStep::Fail(
                    dv("syntax"@, "unexpected character `"@ + seq![c] + seq!['`'], span),
                ),
            }
        }
    }
}

/// The tokens of a line from `p`, after those in `acc`. Each token carries
/// the span it starts at and the column it ends at.
pub open spec fn scan_line(cs: Seq<char>, line: nat, off: nat, p: int, acc: Seq<(TokV, Span, u32)>) -> Result<
    Seq<(TokV, Span, u32)>,
    DiagV,
>
    decreases cs.len(), cs.len() - p, 3nat,
{
    if p < 0 || p >= cs.len() {
        Ok(acc)
    } else {
        match token_at(cs, line, off, p, acc) {
            ScanStep::Stop => Ok(acc),
            ScanStep::Fail(d) => Err(d),
            ScanStep::Skip(e) => if p < e <= cs.len() {
                scan_line(cs, line, off, e, acc)
            } else {
                Ok(acc)
            },
            ScanStep::Emit(e, t) => if p < e <= cs.len() {
                scan_line(cs, line, off, e, acc.push((t, at(line, (off + p) as nat), (off + e) as u32)))
            } else {
                Ok(acc)
            },
        }
    }
}

/// The tokens of a line, with `off` the column its first character sits in.
pub open spec fn line_tokens(cs: Seq<char>, line: nat, off: nat) -> Result<Seq<(TokV, Span, u32)>, DiagV> {
    scan_line(cs, line, off, 0, Seq::empty())
}

} // verus!

verus! {

fn diag(kind: &str, message: &str, span: Span) -> (d: Diagnostic)
    ensures
        diag_view(d) == dv(kind@, message@, span),
{
    Diagnostic::new(kind, crate::text::string_of(message), span)
}

fn is_lit(w: &[char], lit: &str) -> (r: bool)
    ensures
        r == (w@ == lit@),
{
    let l = crate::text::chars_of(lit);
    crate::text::same_chars(w, l.as_slice())
}

fn word_token_of(w: Vec<char>) -> (t: Tok)
    ensures
        tok_view(t) == word_token(w@),
{
    if w.len() == 1 && w[0] == '_' {
        assert(w@ =~= seq!['_']);
        Tok::Underscore
    } else if is_lit(w.as_slice(), "and") {
        Tok::Op(Op::And)
    } else if is_lit(w.as_slice(), "or") {
        Tok::Op(Op::Or)
    } else if is_lit(w.as_slice(), "not") {
        Tok::Op(Op::Not)
    } else if is_lit(w.as_slice(), "fn") {
        Tok::KwFn
    } else if is_lit(w.as_slice(), "return") {
        Tok::KwReturn
    } else if is_lit(w.as_slice(), "type") {
        Tok::KwType
    } else if is_lit(w.as_slice(), "pub") {
        Tok::KwPub
    } else if is_lit(w.as_slice(), "import") {
        Tok::KwImport
    } else {
        proof {
            if w@ == seq!['_'] {
                assert(w@.len() == 1 && w@[0] == '_');
            }
        }
        Tok::Ident(crate::text::string_from_chars(w.as_slice()))
    }
}

/// A word starting at `p`, which holds a lowercase letter or `_`.
fn lex_word(cs: &[char], line: usize, off: usize, p: usize) -> (r: Result<(usize, Tok), Diagnostic>)
    requires
        p < cs@.len(),
        is_lower(cs@[p as int]) || cs@[p as int] == '_',
        off + cs@.len() <= usize::MAX,
    ensures
        match r {
            Ok((e, t)) => word_tok(cs@, line as nat, off as nat, p as nat) == Ok::<(nat, TokV), DiagV>((e as nat, tok_view(t)))
                && p < e <= cs@.len(),
            Err(d) => word_tok(cs@, line as nat, off as nat, p as nat) == Err::<(nat, TokV), DiagV>(diag_view(d)),
        },
{
    let n = cs.len();
    let mut q = p;
    proof {
        lemma_word_end(cs@, p as nat);
    }
    while q < n && (is_lower_char(cs[q]) || is_digit_char(cs[q]) || cs[q] == '_')
        invariant
            p <= q <= cs@.len() == n,
            word_end(cs@, p as nat) == word_end(cs@, q as nat),
        decreases n - q,
    {
        q += 1;
        if q < n && n - q > 1 && cs[q] == '/' && (is_lower_char(cs[q + 1]) || cs[q + 1] == '_') {
            q += 1;
        }
    }
    proof {
        lemma_word_end(cs@, p as nat);
    }
    if q < n && (cs[q] == '!' || cs[q] == '?') {
        q += 1;
    }
    let w = crate::text::slice_vec(cs, p, q);
    if w.len() > 1 && w[0] == '_' {
        let span = Span::at(line, off + q);
        return Err(diag("naming", "leading underscores are retired: privacy is `pub`'s absence, and `_` alone is the wildcard", span));
    }
    Ok((q, word_token_of(w)))
}

fn punct(cs: &[char], p: usize) -> (r: Option<Tok>)
    requires
        p < cs@.len(),
    ensures
        match r {
            None => punct_token(cs@, p as int) is None,
            Some(t) => punct_token(cs@, p as int) == Some(tok_view(t)),
        },
{
    let c = cs[p];
    let n = cs.len();
    if c == '(' {
        Some(Tok::LParen)
    } else if c == ')' {
        Some(Tok::RParen)
    } else if c == '[' {
        Some(Tok::LBracket)
    } else if c == ']' {
        Some(Tok::RBracket)
    } else if c == '!' && !(n - p > 1 && cs[p + 1] == '=') {
        Some(Tok::Bang)
    } else if c == '@' {
        Some(Tok::At)
    } else if c == '{' {
        Some(Tok::LBrace)
    } else if c == '}' {
        Some(Tok::RBrace)
    } else if c == ':' {
        Some(Tok::Colon)
    } else if c == '.' {
        let tight_left = p > 0 && {
            let q = cs[p - 1];
            is_lower_char(q) || ('A' <= q && q <= 'Z') || is_digit_char(q) || q == '_' || q == ')'
                || q == ']' || q == '!'
        };
        let tight_right = n - p > 1 && (is_lower_char(cs[p + 1]) || cs[p + 1] == '_');
        if tight_left && tight_right {
            Some(Tok::Dot)
        } else {
            Some(Tok::Pipe)
        }
    } else {
        None
    }
}

fn operator(c: char, n: char) -> (r: Option<(Op, usize)>)
    ensures
        match r {
            None => operator_at(c, n) is None,
            Some((op, k)) => operator_at(c, n) == Some((op, k as int)),
        },
{
    if c == '>' && n == '=' {
        Some((Op::Ge, 2))
    } else if c == '<' && n == '=' {
        Some((Op::Le, 2))
    } else if c == '=' && n == '=' {
        Some((Op::EqEq, 2))
    } else if c == '!' && n == '=' {
        Some((Op::Ne, 2))
    } else if c == '+' {
        Some((Op::Plus, 1))
    } else if c == '-' {
        Some((Op::Minus, 1))
    } else if c == '*' {
        Some((Op::Star, 1))
    } else if c == '/' {
        Some((Op::Slash, 1))
    } else if c == '%' {
        Some((Op::Percent, 1))
    } else if c == '<' {
        Some((Op::Lt, 1))
    } else if c == '>' {
        Some((Op::Gt, 1))
    } else if c == '&' {
        Some((Op::Amp, 1))
    } else if c == '|' {
        Some((Op::Bar, 1))
    } else if c == '^' {
        Some((Op::Caret, 1))
    } else {
        None
    }
}

fn escape_of(e: char) -> (r: Option<char>)
    ensures
        r == line_escape(e),
{
    if e == '"' {
        Some('"')
    } else if e == '\\' {
        Some('\\')
    } else if e == '{' {
        Some('{')
    } else if e == 'n' {
        Some('\n')
    } else if e == 'r' {
        Some('\r')
    } else if e == 't' {
        Some('\t')
    } else {
        None
    }
}

fn unknown_escape_diag(e: char, span: Span) -> (d: Diagnostic)
    ensures
        diag_view(d) == dv("syntax"@, unknown_escape(e), span),
{
    let mut m: Vec<char> = Vec::new();
    crate::text::push_str(&mut m, "unknown escape `\\");
    m.push(e);
    m.push('`');
    assert(m@ =~= unknown_escape(e));
    Diagnostic::new("syntax", crate::text::string_from_chars(m.as_slice()), span)
}

} // verus!

verus! {

proof fn lemma_brace_close_bound(cs: Seq<char>, q: int, depth: nat)
    requires
        0 <= q <= cs.len(),
    ensures
        brace_close(cs, q, depth) matches Some(r) ==> q <= r <= cs.len() && (depth > 0 ==> r > q),
    decreases cs.len() - q,
{
    if depth > 0 && q < cs.len() {
        let d: nat = if cs[q] == '{' {
            depth + 1
        } else if cs[q] == '}' {
            (depth - 1) as nat
        } else {
            depth
        };
        lemma_brace_close_bound(cs, q + 1, d);
    }
}

/// An interpolation whose `{` is at `p`.
fn interpolation(cs: &[char], line: usize, off: usize, p: usize) -> (r: Result<(usize, StrPart), Diagnostic>)
    requires
        p < cs@.len(),
        cs@[p as int] == '{',
        off + cs@.len() <= usize::MAX,
    ensures
        match r {
            Ok((q, part)) => scan_interp(cs@, line as nat, off as nat, p as int) == Ok::<(int, PartV), DiagV>((q as int, part_view(part)))
                && p < q <= cs@.len(),
            Err(d) => scan_interp(cs@, line as nat, off as nat, p as int) == Err::<(int, PartV), DiagV>(diag_view(d)),
        },
    decreases cs@.len(), 0nat,
{
    let span = Span::at(line, off + p);
    let n = cs.len();
    let start = p + 1;
    let mut q = start;
    let mut depth: usize = 1;
    proof {
        lemma_brace_close_bound(cs@, start as int, 1);
    }
    while depth > 0
        invariant
            start == p + 1,
            p < cs@.len(),
            span == at(line as nat, (off + p) as nat),
            start <= q <= n == cs@.len(),
            depth <= q - start + 1,
            brace_close(cs@, start as int, 1) == brace_close(cs@, q as int, depth as nat),
        decreases n - q,
    {
        if q >= n {
            return Err(diag("syntax", "unterminated interpolation", span));
        }
        if cs[q] == '{' {
            depth += 1;
        } else if cs[q] == '}' {
            depth -= 1;
        }
        q += 1;
    }
    proof {
        lemma_brace_close_bound(cs@, start as int, 1);
    }
    let inner = crate::text::slice_vec(cs, start, q - 1);
    if inner.len() == 0 || crate::text::is_whitespace(inner[0]) || crate::text::is_whitespace(inner[inner.len() - 1]) {
        return Err(diag("formatting", "interpolation braces wrap the expression exactly, with no padding", span));
    }
    match lex_line(inner.as_slice(), line, off + start) {
        Err(d) => Err(d),
        Ok(ts) => Ok((q, StrPart::Interp(ts))),
    }
}

/// A one-line string whose opening quote is at `p`.
fn lex_string(cs: &[char], line: usize, off: usize, p: usize) -> (r: Result<(usize, Tok), Diagnostic>)
    requires
        p < cs@.len(),
        off + cs@.len() <= usize::MAX,
    ensures
        match r {
            Ok((e, t)) => scan_string(cs@, line as nat, off as nat, p + 1, Seq::empty(), Seq::empty(), at(line as nat, (off + p) as nat))
                == Ok::<(int, TokV), DiagV>((e as int, tok_view(t))) && p < e <= cs@.len(),
            Err(d) => scan_string(cs@, line as nat, off as nat, p + 1, Seq::empty(), Seq::empty(), at(line as nat, (off + p) as nat))
                == Err::<(int, TokV), DiagV>(diag_view(d)),
        },
    decreases cs@.len(), 1nat,
{
    let open = Span::at(line, off + p);
    let n = cs.len();
    let mut q = p + 1;
    let mut parts: Vec<StrPart> = Vec::new();
    let mut lit: Vec<char> = Vec::new();
    let ghost target = scan_string(cs@, line as nat, off as nat, p + 1, Seq::empty(), Seq::empty(), open);
    while q < n
        invariant
            p < q <= n == cs@.len(),
            off + cs@.len() <= usize::MAX,
            open == at(line as nat, (off + p) as nat),
            target == scan_string(cs@, line as nat, off as nat, p + 1, Seq::empty(), Seq::empty(), open),
            target == scan_string(cs@, line as nat, off as nat, q as int, pv(parts@), lit@, open),
        decreases n - q,
    {
        let c = cs[q];
        if c == '"' {
            let ghost before = pv(parts@);
            if lit.len() > 0 {
                let s = crate::text::string_from_chars(lit.as_slice());
                proof {
                    lemma_pv_push(parts@, StrPart::Lit(s));
                }
                parts.push(StrPart::Lit(s));
            }
            return Ok((q + 1, Tok::Str(parts)));
        } else if c == '\\' {
            if n - q <= 1 {
                return Err(diag("syntax", "unterminated escape", Span::at(line, off + q)));
            }
            match escape_of(cs[q + 1]) {
                None => {
                    return Err(unknown_escape_diag(cs[q + 1], Span::at(line, off + q)));
                },
                Some(resolved) => {
                    lit.push(resolved);
                    q += 2;
                },
            }
        } else if c == '{' {
            let ghost parts2 = if lit@.len() > 0 {
                pv(parts@).push(PartV::Lit(lit@))
            } else {
                pv(parts@)
            };
            if lit.len() > 0 {
                let s = crate::text::string_from_chars(lit.as_slice());
                proof {
                    lemma_pv_push(parts@, StrPart::Lit(s));
                }
                parts.push(StrPart::Lit(s));
                lit = Vec::new();
            }
            assert(pv(parts@) == parts2);
            match interpolation(cs, line, off, q) {
                Err(d) => {
                    return Err(d);
                },
                Ok((e, part)) => {
                    proof {
                        lemma_pv_push(parts@, part);
                    }
                    parts.push(part);
                    q = e;
                    lit = Vec::new();
                },
            }
        } else {
            lit.push(c);
            q += 1;
        }
    }
    Err(diag("syntax", "unterminated string", open))
}

/// What `next_token` found at a position.
enum Step {
    Skip(usize),
    Stop,
    Fail(Diagnostic),
    Emit(usize, Tok),
}

/// The token that starts at `q`, given the tokens before it.
fn next_token(cs: &[char], line: usize, off: usize, q: usize, tokens: &Vec<(Tok, Span, u32)>) -> (r: Step)
    requires
        q < cs@.len(),
        off + cs@.len() <= usize::MAX,
    ensures
        match r {
            Step::Skip(e) => token_at(cs@, line as nat, off as nat, q as int, tv(tokens@)) == ScanStep::Skip(e as int) && q < e <= cs@.len(),
            Step::Stop => token_at(cs@, line as nat, off as nat, q as int, tv(tokens@)) == ScanStep::Stop,
            Step::Fail(d) => token_at(cs@, line as nat, off as nat, q as int, tv(tokens@)) == ScanStep::Fail(diag_view(d)),
            Step::Emit(e, t) => token_at(cs@, line as nat, off as nat, q as int, tv(tokens@)) == ScanStep::Emit(e as int, tok_view(t)) && q < e <= cs@.len(),
        },
    decreases cs@.len(), 2nat,
{
    let n = cs.len();
    let c = cs[q];
    let span = Span::at(line, off + q);
    let next = if n - q > 1 { cs[q + 1] } else { ' ' };
    if c == ' ' {
        Step::Skip(q + 1)
    } else if c == '#' {
        Step::Stop
    } else if c == '/' && next == '/' && n - q > 1 {
        Step::Fail(diag("formatting", "comments are `#`", span))
    } else if is_digit_char(c) {
        let (e, t) = lex_number(cs, q);
        Step::Emit(e, t)
    } else if c == '-' && n - q > 1 && is_digit_char(next) && minus_prefix(tokens) {
        let (e, t) = lex_number(cs, q + 1);
        let t = match t {
            Tok::Int(b) => Tok::Int(b.negated()),
            Tok::Float(s) => {
                let mut m: Vec<char> = Vec::new();
                m.push('-');
                crate::text::push_str(&mut m, s.as_str());
                Tok::Float(crate::text::string_from_chars(m.as_slice()))
            },
            other => other,
        };
        Step::Emit(e, t)
    } else if is_lower_char(c) || c == '_' {
        match lex_word(cs, line, off, q) {
            Err(d) => Step::Fail(d),
            Ok((e, t)) => Step::Emit(e, t),
        }
    } else if 'A' <= c && c <= 'Z' {
        Step::Fail(diag("formatting", "identifiers are snake_case, all lowercase, always", span))
    } else if c == '"' {
        match lex_string(cs, line, off, q) {
            Err(d) => Step::Fail(d),
            Ok((e, t)) => Step::Emit(e, t),
        }
    } else if c == ',' {
        Step::Fail(diag("formatting", "kanso has no commas; enumerations are space-separated", span))
    } else {
        match punct(cs, q) {
            Some(t) => Step::Emit(q + 1, t),
            None => {
                if c == '-' && next == '>' && n - q > 1 {
                    Step::Emit(q + 2, Tok::Arrow)
                } else if c == '>' && next == '>' && n - q > 1 {
                    Step::Emit(q + 2, Tok::SeqOp)
                } else if c == '=' && !(next == '=' && n - q > 1) {
                    Step::Emit(q + 1, Tok::Bind)
                } else {
                    match operator(c, next) {
                        Some((op, k)) => {
                            proof {
                                if k == 2 {
                                    assert(n - q > 1);
                                }
                            }
                            Step::Emit(q + k, Tok::Op(op))
                        },
                        None => {
                            let mut m: Vec<char> = Vec::new();
                            crate::text::push_str(&mut m, "unexpected character `");
                            m.push(c);
                            m.push('`');
                            let ghost msg = "unexpected character `"@ + seq![c] + seq!['`'];
                            assert(m@ =~= msg);
                            Step::Fail(Diagnostic::new("syntax", crate::text::string_from_chars(m.as_slice()), span))
                        },
                    }
                }
            },
        }
    }
}

/// The tokens of a line, with `off` the column its first character sits in.
fn lex_line(cs: &[char], line: usize, off: usize) -> (r: Result<Vec<(Tok, Span, u32)>, Diagnostic>)
    requires
        off + cs@.len() <= usize::MAX,
    ensures
        match r {
            Ok(ts) => line_tokens(cs@, line as nat, off as nat) == Ok::<Seq<(TokV, Span, u32)>, DiagV>(tv(ts@)),
            Err(d) => line_tokens(cs@, line as nat, off as nat) == Err::<Seq<(TokV, Span, u32)>, DiagV>(diag_view(d)),
        },
    decreases cs@.len(), 3nat,
{
    let n = cs.len();
    let mut q: usize = 0;
    let mut tokens: Vec<(Tok, Span, u32)> = Vec::new();
    let ghost target = line_tokens(cs@, line as nat, off as nat);
    while q < n
        invariant
            q <= n == cs@.len(),
            off + cs@.len() <= usize::MAX,
            target == line_tokens(cs@, line as nat, off as nat),
            target == scan_line(cs@, line as nat, off as nat, q as int, tv(tokens@)),
        decreases n - q,
    {
        match next_token(cs, line, off, q, &tokens) {
            Step::Skip(e) => {
                q = e;
            },
            Step::Stop => {
                return Ok(tokens);
            },
            Step::Fail(d) => {
                return Err(d);
            },
            Step::Emit(e, t) => {
                let span = Span::at(line, off + q);
                let end = Span::at(line, off + e).col;
                proof {
                    lemma_tv_push(tokens@, (t, span, end));
                }
                tokens.push((t, span, end));
                q = e;
            },
        }
    }
    Ok(tokens)
}

fn minus_prefix(tokens: &Vec<(Tok, Span, u32)>) -> (r: bool)
    ensures
        r == minus_is_prefix(tv(tokens@)),
{
    if tokens.len() == 0 {
        return true;
    }
    let last = &tokens[tokens.len() - 1];
    proof {
        let s = tokens@;
        assert(s =~= s.drop_last().push(s.last()));
        lemma_tv_push(s.drop_last(), s.last());
    }
    match &last.0 {
        Tok::Ident(_) | Tok::Int(_) | Tok::Float(_) | Tok::Str(_) | Tok::RParen | Tok::RGroup
        | Tok::RBracket => false,
        _ => true,
    }
}

} // verus!

verus! {

pub open spec fn dvs(ds: Seq<Diagnostic>) -> Seq<DiagV> {
    ds.map_values(|d: Diagnostic| diag_view(d))
}

pub proof fn lemma_dvs_push(ds: Seq<Diagnostic>, d: Diagnostic)
    ensures
        dvs(ds.push(d)) == dvs(ds).push(diag_view(d)),
{
    assert(dvs(ds.push(d)) =~= dvs(ds).push(diag_view(d)));
}

/// How many spaces canonical form puts between two tokens.
pub open spec fn gap_between(prev: TokV, next: TokV) -> nat {
    match (prev, next) {
        (_, TokV::RParen) | (_, TokV::RGroup) | (_, TokV::RBracket) => 0,
        (TokV::LParen, _) | (TokV::LGroup, _) | (TokV::LBracket, _) => 0,
        (_, TokV::Colon) => 0,
        (_, TokV::Dot) | (TokV::Dot, _) => 0,
        (TokV::RBracket, TokV::Bang) => 0,
        (TokV::Op(Op::Amp), TokV::Ident(_)) => 0,
        (_, TokV::At) | (TokV::At, _) => 0,
        (TokV::LBrace, TokV::RBrace) => 0,
        _ => 1,
    }
}

fn required_gap(prev: &Tok, next: &Tok) -> (r: usize)
    ensures
        r == gap_between(tok_view(*prev), tok_view(*next)),
{
    match (prev, next) {
        (_, Tok::RParen) | (_, Tok::RGroup) | (_, Tok::RBracket) => 0,
        (Tok::LParen, _) | (Tok::LGroup, _) | (Tok::LBracket, _) => 0,
        (_, Tok::Colon) => 0,
        (_, Tok::Dot) | (Tok::Dot, _) => 0,
        (Tok::RBracket, Tok::Bang) => 0,
        (Tok::Op(Op::Amp), Tok::Ident(_)) => 0,
        (_, Tok::At) | (Tok::At, _) => 0,
        (Tok::LBrace, Tok::RBrace) => 0,
        _ => 1,
    }
}

pub open spec fn ends_value(t: TokV) -> bool {
    match t {
        TokV::Ident(_) | TokV::Int(_) | TokV::Float(_) | TokV::Str(_) | TokV::RParen
        | TokV::RGroup | TokV::RBracket | TokV::Bang => true,
        _ => false,
    }
}

/// Walking back from `k` over a run of empty bracket pairs.
pub open spec fn slice_back(ts: Seq<(TokV, Span, u32)>, k: int) -> int
    decreases k,
{
    if k >= 1 && k < ts.len() && ts[k - 1].0 is LBracket && ts[k].0 is RBracket {
        slice_back(ts, if k >= 2 { k - 2 } else { 0 })
    } else {
        k
    }
}

pub open spec fn at_most_one() -> Seq<char> {
    "canonical form requires at most one space here"@
}

/// The message for `name(x)`, written where an application was meant.
pub open spec fn application_message(name: Seq<char>) -> Seq<char> {
    "application is a space, so `"@ + name + " x` calls `"@ + name + "` \u{2014} `"@ + name
        + "(x)` reads as `"@ + name + "` applied to nothing, then a parenthesised `x`"@
}

/// What the spacing rules say about the pair of tokens at `i` and `i + 1`.
pub open spec fn pair_diags(ts: Seq<(TokV, Span, u32)>, line: nat, i: int) -> Seq<DiagV> {
    let prev = ts[i].0;
    let prev_end = ts[i].2;
    let next = ts[i + 1].0;
    let next_col = ts[i + 1].1.col;
    let gap: int = if next_col >= prev_end { next_col - prev_end } else { 0 };
    let here = at(line, next_col as nat);
    if prev is Colon {
        if gap > 1 {
            seq![dv("formatting"@, at_most_one(), here)]
        } else {
            Seq::empty()
        }
    } else if (prev is Ident || prev is RParen || prev is RGroup || prev is RBracket) && next is LBracket {
        if gap > 1 {
            seq![dv("formatting"@, at_most_one(), here)]
        } else {
            Seq::empty()
        }
    } else if prev is Ident && next is LParen && gap == 0 {
        if i + 2 < ts.len() && ts[i + 2].0 is RParen {
            Seq::empty()
        } else {
            seq![dv("formatting"@, application_message(prev->Ident_0), here)]
        }
    } else {
        let infix_amp = prev == TokV::Op(Op::Amp) && next is Ident && i > 0 && ends_value(ts[i - 1].0);
        let slice_marker = prev is RBracket && next is Ident && i > 0 && ts[slice_back(ts, i)].0 is Colon;
        let required: int = if slice_marker {
            0
        } else if infix_amp {
            1
        } else {
            gap_between(prev, next) as int
        };
        if gap != required {
            seq![
                dv(
                    "formatting"@,
                    "canonical form requires "@ + (if required == 0 {
                        "no space"@
                    } else {
                        "exactly one space"@
                    }) + " here"@,
                    here,
                ),
            ]
        } else {
            Seq::empty()
        }
    }
}

/// The spacing diagnostics of the first `k` adjacent pairs.
pub open spec fn spacing_diags(ts: Seq<(TokV, Span, u32)>, line: nat, k: int) -> Seq<DiagV>
    decreases k,
{
    if k <= 0 {
        Seq::empty()
    } else {
        spacing_diags(ts, line, k - 1) + pair_diags(ts, line, k - 1)
    }
}

/// Every adjacent pair of a line checked against the spacing rules.
pub open spec fn spacing_of(ts: Seq<(TokV, Span, u32)>, line: nat) -> Seq<DiagV> {
    spacing_diags(ts, line, ts.len() - 1)
}

proof fn lemma_tv_index(ts: Seq<(Tok, Span, u32)>, i: int)
    requires
        0 <= i < ts.len(),
    ensures
        tv(ts).len() == ts.len(),
        tv(ts)[i] == (tok_view(ts[i].0), ts[i].1, ts[i].2),
{
    lemma_toks_view_index(ts, ts.len(), i);
}

proof fn lemma_toks_view_index(ts: Seq<(Tok, Span, u32)>, n: nat, i: int)
    requires
        0 <= i < n <= ts.len(),
    ensures
        toks_view(ts, n).len() == n,
        toks_view(ts, n)[i] == (tok_view(ts[i].0), ts[i].1, ts[i].2),
    decreases n,
{
    lemma_toks_view_len(ts, n);
    if i < n - 1 {
        lemma_toks_view_index(ts, (n - 1) as nat, i);
    }
}

proof fn lemma_toks_view_len(ts: Seq<(Tok, Span, u32)>, n: nat)
    requires
        n <= ts.len(),
    ensures
        toks_view(ts, n).len() == n,
    decreases n,
{
    if n > 0 {
        lemma_toks_view_len(ts, (n - 1) as nat);
    }
}


fn application_diag(name: &String, span: Span) -> (d: Diagnostic)
    ensures
        diag_view(d) == dv("formatting"@, application_message(name@), span),
{
    let mut m: Vec<char> = Vec::new();
    crate::text::push_str(&mut m, "application is a space, so `");
    crate::text::push_str(&mut m, name.as_str());
    crate::text::push_str(&mut m, " x` calls `");
    crate::text::push_str(&mut m, name.as_str());
    crate::text::push_str(&mut m, "` \u{2014} `");
    crate::text::push_str(&mut m, name.as_str());
    crate::text::push_str(&mut m, "(x)` reads as `");
    crate::text::push_str(&mut m, name.as_str());
    crate::text::push_str(&mut m, "` applied to nothing, then a parenthesised `x`");
    assert(m@ =~= application_message(name@));
    Diagnostic::new("formatting", crate::text::string_from_chars(m.as_slice()), span)
}

fn value_end(t: &Tok) -> (r: bool)
    ensures
        r == ends_value(tok_view(*t)),
{
    match t {
        Tok::Ident(_) | Tok::Int(_) | Tok::Float(_) | Tok::Str(_) | Tok::RParen | Tok::RGroup
        | Tok::RBracket | Tok::Bang => true,
        _ => false,
    }
}

/// The spacing rule's answer for the pair at `i` and `i + 1`.
fn check_pair(tokens: &[(Tok, Span, u32)], line: usize, i: usize) -> (r: Option<Diagnostic>)
    requires
        i + 1 < tokens@.len(),
    ensures
        match r {
            None => pair_diags(tv(tokens@), line as nat, i as int) == Seq::<DiagV>::empty(),
            Some(d) => pair_diags(tv(tokens@), line as nat, i as int) == seq![diag_view(d)],
        },
{
    let ghost ts = tv(tokens@);
    proof {
        lemma_tv_index(tokens@, i as int);
        lemma_tv_index(tokens@, i + 1);
        if i > 0 {
            lemma_tv_index(tokens@, i - 1);
        }
        if i + 2 < tokens@.len() {
            lemma_tv_index(tokens@, i + 2);
        }
    }
    let prev = &tokens[i].0;
    let prev_end = tokens[i].2;
    let next = &tokens[i + 1].0;
    let next_col = tokens[i + 1].1.col;
    let gap: u32 = if next_col >= prev_end { next_col - prev_end } else { 0 };
    let here = Span::at(line, next_col as usize);
    if matches!(prev, Tok::Colon) {
        if gap > 1 {
            return Some(diag("formatting", "canonical form requires at most one space here", here));
        }
        return None;
    }
    if (matches!(prev, Tok::Ident(_)) || matches!(prev, Tok::RParen) || matches!(prev, Tok::RGroup)
        || matches!(prev, Tok::RBracket)) && matches!(next, Tok::LBracket) {
        if gap > 1 {
            return Some(diag("formatting", "canonical form requires at most one space here", here));
        }
        return None;
    }
    match (prev, next) {
        (Tok::Ident(name), Tok::LParen) => {
            if gap == 0 {
                if i + 2 < tokens.len() && matches!(tokens[i + 2].0, Tok::RParen) {
                    return None;
                }
                return Some(application_diag(name, here));
            }
        },
        _ => {},
    }
    let infix_amp = matches!(prev, Tok::Op(Op::Amp)) && matches!(next, Tok::Ident(_)) && i > 0
        && value_end(&tokens[i - 1].0);
    let slice_marker = matches!(prev, Tok::RBracket) && matches!(next, Tok::Ident(_)) && i > 0 && {
        let mut k = i;
        while k >= 1 && matches!(tokens[k - 1].0, Tok::LBracket) && matches!(tokens[k].0, Tok::RBracket)
            invariant
                k <= i < tokens@.len(),
                slice_back(ts, i as int) == slice_back(ts, k as int),
                ts == tv(tokens@),
            decreases k,
        {
            proof {
                lemma_tv_index(tokens@, k as int);
                lemma_tv_index(tokens@, k - 1);
            }
            k = if k >= 2 { k - 2 } else { 0 };
        }
        proof {
            lemma_tv_index(tokens@, k as int);
            if k >= 1 {
                lemma_tv_index(tokens@, k - 1);
            }
        }
        matches!(tokens[k].0, Tok::Colon)
    };
    let required: u32 = if slice_marker {
        0
    } else if infix_amp {
        1
    } else {
        required_gap(prev, next) as u32
    };
    if gap != required {
        let mut m: Vec<char> = Vec::new();
        crate::text::push_str(&mut m, "canonical form requires ");
        if required == 0 {
            crate::text::push_str(&mut m, "no space");
        } else {
            crate::text::push_str(&mut m, "exactly one space");
        }
        crate::text::push_str(&mut m, " here");
        let ghost want = "canonical form requires "@ + (if required == 0 {
            "no space"@
        } else {
            "exactly one space"@
        }) + " here"@;
        assert(m@ =~= want);
        Some(Diagnostic::new("formatting", crate::text::string_from_chars(m.as_slice()), here))
    } else {
        None
    }
}

/// Checks every adjacent pair of a line against the spacing rules.
fn validate_spacing(tokens: &[(Tok, Span, u32)], line: usize, diags: &mut Vec<Diagnostic>)
    ensures
        dvs(final(diags)@) == dvs(old(diags)@) + spacing_of(tv(tokens@), line as nat),
{
    let mut i: usize = 0;
    proof {
        lemma_toks_view_len(tokens@, tokens@.len());
    }
    if tokens.len() < 2 {
        assert(dvs(diags@) =~= dvs(old(diags)@) + spacing_of(tv(tokens@), line as nat));
        return;
    }
    let n = tokens.len();
    while i + 1 < n
        invariant
            n == tokens@.len(),
            i + 1 <= tokens@.len(),
            tv(tokens@).len() == tokens@.len(),
            dvs(diags@) == dvs(old(diags)@) + spacing_diags(tv(tokens@), line as nat, i as int),
        decreases tokens@.len() - i,
    {
        let ghost before = diags@;
        match check_pair(tokens, line, i) {
            None => {
                assert(dvs(diags@) =~= dvs(old(diags)@) + spacing_diags(tv(tokens@), line as nat, i + 1));
            },
            Some(d) => {
                diags.push(d);
                proof {
                    lemma_dvs_push(before, d);
                }
                assert(dvs(diags@) =~= dvs(old(diags)@) + spacing_diags(tv(tokens@), line as nat, i + 1));
            },
        }
        i += 1;
    }
}

} // verus!

verus! {

/// One line of tokens: the source line it starts on, its indentation, and
/// each token with where it starts and the column it ends at.
#[derive(Debug)]
pub struct Line {
    pub number: usize,
    pub indent: usize,
    pub tokens: Vec<(Tok, Span, u32)>,
}

/// Whether the token at `i` opens a source line of its own: a `>>`
/// continuation's first token.
pub open spec fn leads_line(ts: Seq<(TokV, Span, u32)>, number: nat, i: int) -> bool {
    i > 0 && ts[i - 1].1.line != ts[i].1.line && ts[i].1.line as nat != number
}

/// Whether any `>>` of the first `k` tokens leads a line.
pub open spec fn wrapped_upto(ts: Seq<(TokV, Span, u32)>, number: nat, k: int) -> bool
    decreases k,
{
    if k <= 0 {
        false
    } else {
        wrapped_upto(ts, number, k - 1) || (ts[k - 1].0 is SeqOp && leads_line(ts, number, k - 1))
    }
}

pub open spec fn partial_chain_message() -> Seq<char> {
    "no partial chaining: a chain fits on one line, or each step gets its own `>>` continuation line"@
}

pub open spec fn opens(t: TokV) -> bool {
    t is LParen || t is LGroup || t is LBracket || t is LBrace
}

pub open spec fn closes(t: TokV) -> bool {
    t is RParen || t is RGroup || t is RBracket || t is RBrace
}

/// The first top-level `>>` from `i` on that does not lead its line, at
/// bracket depth `depth`.
pub open spec fn chain_scan(ts: Seq<(TokV, Span, u32)>, number: nat, i: int, depth: nat) -> Seq<DiagV>
    decreases ts.len() - i,
{
    if i < 0 || i >= ts.len() {
        Seq::empty()
    } else if opens(ts[i].0) {
        chain_scan(ts, number, i + 1, depth + 1)
    } else if closes(ts[i].0) {
        chain_scan(ts, number, i + 1, if depth > 0 { (depth - 1) as nat } else { 0 })
    } else if ts[i].0 is SeqOp && depth == 0 && !leads_line(ts, number, i) {
        seq![dv("formatting"@, partial_chain_message(), ts[i].1)]
    } else {
        chain_scan(ts, number, i + 1, depth)
    }
}

/// A statement wrapped across `>>` continuation lines gives every step its
/// own line: no step shares a line with another.
pub open spec fn partial_chain_diags(ts: Seq<(TokV, Span, u32)>, number: nat) -> Seq<DiagV> {
    if wrapped_upto(ts, number, ts.len() as int) {
        chain_scan(ts, number, 0, 0)
    } else {
        Seq::empty()
    }
}

fn leads(tokens: &Vec<(Tok, Span, u32)>, number: usize, i: usize) -> (r: bool)
    requires
        i < tokens@.len(),
    ensures
        r == leads_line(tv(tokens@), number as nat, i as int),
{
    proof {
        lemma_tv_index(tokens@, i as int);
        if i > 0 {
            lemma_tv_index(tokens@, i - 1);
        }
    }
    i > 0 && tokens[i - 1].1.line != tokens[i].1.line && tokens[i].1.line as usize != number
}

fn check_partial_chain(line: &Line, diags: &mut Vec<Diagnostic>)
    ensures
        dvs(final(diags)@) == dvs(old(diags)@) + partial_chain_diags(tv(line.tokens@), line.number as nat),
{
    let ts = &line.tokens;
    let ghost v = tv(ts@);
    proof {
        lemma_toks_view_len(ts@, ts@.len());
    }
    let n = ts.len();
    let mut i: usize = 0;
    let mut wrapped = false;
    while i < n
        invariant
            i <= n == ts@.len() == v.len(),
            v == tv(ts@),
            ts@ == line.tokens@,
            wrapped == wrapped_upto(v, line.number as nat, i as int),
        decreases n - i,
    {
        proof {
            lemma_tv_index(ts@, i as int);
        }
        if matches!(ts[i].0, Tok::SeqOp) && leads(ts, line.number, i) {
            wrapped = true;
        }
        i += 1;
    }
    if !wrapped {
        assert(dvs(diags@) =~= dvs(old(diags)@) + partial_chain_diags(v, line.number as nat));
        return;
    }
    let mut depth: usize = 0;
    let mut k: usize = 0;
    while k < n
        invariant
            k <= n == ts@.len() == v.len(),
            v == tv(ts@),
            depth <= k,
            ts@ == line.tokens@,
            diags@ == old(diags)@,
            wrapped_upto(v, line.number as nat, v.len() as int),
            chain_scan(v, line.number as nat, 0, 0) == chain_scan(v, line.number as nat, k as int, depth as nat),
        decreases n - k,
    {
        proof {
            lemma_tv_index(ts@, k as int);
        }
        let t = &ts[k].0;
        if matches!(t, Tok::LParen) || matches!(t, Tok::LGroup) || matches!(t, Tok::LBracket) || matches!(t, Tok::LBrace) {
            depth += 1;
        } else if matches!(t, Tok::RParen) || matches!(t, Tok::RGroup) || matches!(t, Tok::RBracket) || matches!(t, Tok::RBrace) {
            depth = if depth > 0 { depth - 1 } else { 0 };
        } else if matches!(t, Tok::SeqOp) && depth == 0 && !leads(ts, line.number, k) {
            let d = diag("formatting", "no partial chaining: a chain fits on one line, or each step gets its own `>>` continuation line", ts[k].1);
            assert(diag_view(d) == dv("formatting"@, partial_chain_message(), ts@[k as int].1));
            assert(chain_scan(v, line.number as nat, k as int, depth as nat) == seq![diag_view(d)]);
            diags.push(d);
            proof {
                lemma_dvs_push(old(diags)@, d);
            }
            assert(dvs(diags@) =~= dvs(old(diags)@) + seq![diag_view(d)]);
            return;
        }
        k += 1;
    }
    assert(dvs(diags@) =~= dvs(old(diags)@) + partial_chain_diags(v, line.number as nat));
}

/// What kanso uses instead of a keyword the reader brought with them.
pub open spec fn form_for(head: Seq<char>) -> Option<Seq<char>> {
    if head == "for"@ || head == "while"@ || head == "loop"@ || head == "repeat"@ || head == "until"@ {
        Some("repetition is recursion, and a chain of list verbs covers most of it"@)
    } else if head == "def"@ || head == "func"@ || head == "function"@ || head == "define"@ {
        Some("a function is `fn name params`"@)
    } else if head == "class"@ || head == "struct"@ || head == "record"@ || head == "data"@ {
        Some("a record is `type name` with its fields indented under it"@)
    } else if head == "switch"@ || head == "match"@ || head == "case"@ || head == "when"@ {
        Some("dispatch is one arm per shape, written as separate `fn` clauses"@)
    } else if head == "try"@ || head == "catch"@ || head == "except"@ || head == "rescue"@ {
        Some("a failure rides the same rails as a value; an arm names the err"@)
    } else {
        None
    }
}

fn kanso_form_for(head: &str) -> (r: Option<&'static str>)
    ensures
        match r {
            None => form_for(head@) is None,
            Some(s) => form_for(head@) == Some(s@),
        },
{
    let h = crate::text::chars_of(head);
    let h = h.as_slice();
    if is_lit(h, "for") || is_lit(h, "while") || is_lit(h, "loop") || is_lit(h, "repeat") || is_lit(h, "until") {
        Some("repetition is recursion, and a chain of list verbs covers most of it")
    } else if is_lit(h, "def") || is_lit(h, "func") || is_lit(h, "function") || is_lit(h, "define") {
        Some("a function is `fn name params`")
    } else if is_lit(h, "class") || is_lit(h, "struct") || is_lit(h, "record") || is_lit(h, "data") {
        Some("a record is `type name` with its fields indented under it")
    } else if is_lit(h, "switch") || is_lit(h, "match") || is_lit(h, "case") || is_lit(h, "when") {
        Some("dispatch is one arm per shape, written as separate `fn` clauses")
    } else if is_lit(h, "try") || is_lit(h, "catch") || is_lit(h, "except") || is_lit(h, "rescue") {
        Some("a failure rides the same rails as a value; an arm names the err")
    } else {
        None
    }
}

} // verus!

verus! {

pub const MAX_WIDTH: usize = 80;

/// The pieces a line's tokens fall into, one per source line they came
/// from: where the piece starts, where it ends, and its first span.
pub open spec fn pieces_of(ts: Seq<(TokV, Span, u32)>, k: int) -> Seq<(int, int, Span)>
    decreases k,
{
    if k <= 0 {
        Seq::empty()
    } else {
        let ps = pieces_of(ts, k - 1);
        let (_, span, end) = ts[k - 1];
        if ps.len() > 0 && ps.last().2.line == span.line {
            ps.update(ps.len() - 1, (ps.last().0, end as int, ps.last().2))
        } else {
            ps.push((span.col as int, end as int, span))
        }
    }
}

/// The width of the pieces from `k` on, each with the space that would
/// join it to the one before.
pub open spec fn rest_width(ps: Seq<(int, int, Span)>, k: int) -> int
    decreases ps.len() - k,
{
    if k < 0 || k >= ps.len() {
        0
    } else {
        1 + (ps[k].1 - ps[k].0) + rest_width(ps, k + 1)
    }
}

/// How wide the spliced one-line form of a continued statement would be.
pub open spec fn spliced_width(ps: Seq<(int, int, Span)>) -> int {
    ps[0].1 - 1 + rest_width(ps, 1)
}

/// Whether a line's token columns run forward: every token ends where it
/// starts or later, columns count from one, and tokens from one source line
/// follow each other.
pub open spec fn runs_forward(ts: Seq<(TokV, Span, u32)>) -> bool {
    &&& forall|i: int| 0 <= i < ts.len() ==> 1 <= (#[trigger] ts[i]).1.col <= ts[i].2
    &&& forall|i: int, k: int|
        #![trigger ts[i], ts[k]]
        0 <= i && k == i + 1 && k < ts.len() && ts[i].1.line == ts[k].1.line ==> ts[i].2 <= ts[k].1.col
}

pub open spec fn needless_message(width: int) -> Seq<char> {
    "needless continuation: this statement fits on one line ("@ + crate::text::digits_of(
        width as nat,
    ) + " characters)"@
}

/// One meaning, one rendering: a statement split across continuation lines
/// is only legal when the spliced one-line form would not fit. One that
/// opens a block with another language's keyword is told what kanso uses.
pub open spec fn needless_diags(ts: Seq<(TokV, Span, u32)>) -> Seq<DiagV> {
    let ps = pieces_of(ts, ts.len() as int);
    if ps.len() < 2 {
        Seq::empty()
    } else {
        let width = spliced_width(ps);
        if width > MAX_WIDTH {
            Seq::empty()
        } else if ts[0].0 is Ident && form_for(ts[0].0->Ident_0) is Some {
            let head = ts[0].0->Ident_0;
            seq![
                dv(
                    "syntax"@,
                    "kanso has no `"@ + head + "` \u{2014} "@ + form_for(head).unwrap(),
                    ts[0].1,
                ),
            ]
        } else {
            seq![dv("formatting"@, needless_message(width), ps[1].2)]
        }
    }
}

proof fn lemma_pieces(ts: Seq<(TokV, Span, u32)>, k: int)
    requires
        0 <= k <= ts.len(),
        runs_forward(ts),
    ensures
        pieces_of(ts, k).len() <= k,
        k > 0 ==> pieces_of(ts, k).len() > 0,
        k > 0 ==> pieces_of(ts, k).last().2.line == ts[k - 1].1.line,
        k > 0 ==> pieces_of(ts, k).last().1 == ts[k - 1].2,
        forall|j: int| 0 <= j < pieces_of(ts, k).len() ==> 1 <= (#[trigger] pieces_of(ts, k)[j]).0 <= pieces_of(ts, k)[j].1,
        forall|j: int| 0 <= j < pieces_of(ts, k).len() ==> (#[trigger] pieces_of(ts, k)[j]).1 < 0x1_0000_0000,
    decreases k,
{
    if k > 0 {
        lemma_pieces(ts, k - 1);
        let ps = pieces_of(ts, k - 1);
        assert(1 <= ts[k - 1].1.col <= ts[k - 1].2);
        if k >= 2 {
            assert(0 <= k - 2 < ts.len() - 1);
        }
    }
}

proof fn lemma_rest_width(ps: Seq<(int, int, Span)>, k: int)
    requires
        0 <= k,
        forall|j: int| 0 <= j < ps.len() ==> (#[trigger] ps[j]).0 <= ps[j].1,
    ensures
        rest_width(ps, k) >= 0,
    decreases ps.len() - k,
{
    if k < ps.len() {
        lemma_rest_width(ps, k + 1);
    }
}

fn check_needless_continuation(line: &Line, diags: &mut Vec<Diagnostic>)
    requires
        runs_forward(tv(line.tokens@)),
    ensures
        dvs(final(diags)@) == dvs(old(diags)@) + needless_diags(tv(line.tokens@)),
{
    let ts = &line.tokens;
    let ghost v = tv(ts@);
    proof {
        lemma_toks_view_len(ts@, ts@.len());
    }
    let n = ts.len();
    let mut pieces: Vec<(u32, u32, Span)> = Vec::new();
    let mut i: usize = 0;
    while i < n
        invariant
            i <= n == ts@.len() == v.len(),
            v == tv(ts@),
            runs_forward(v),
            pieces@.len() == pieces_of(v, i as int).len(),
            forall|j: int| 0 <= j < pieces@.len() ==> (#[trigger] pieces@[j]).0 as int == pieces_of(v, i as int)[j].0
                && pieces@[j].1 as int == pieces_of(v, i as int)[j].1 && pieces@[j].2 == pieces_of(v, i as int)[j].2,
        decreases n - i,
    {
        proof {
            lemma_tv_index(ts@, i as int);
        }
        let span = ts[i].1;
        let end = ts[i].2;
        let np = pieces.len();
        if np > 0 && pieces[np - 1].2.line == span.line {
            let first = pieces[np - 1];
            pieces.set(np - 1, (first.0, end, first.2));
        } else {
            pieces.push((span.col, end, span));
        }
        i += 1;
    }
    assert(v.len() == ts@.len());
    proof {
        lemma_pieces(v, v.len() as int);
    }
    let ghost ps = pieces_of(v, v.len() as int);
    if pieces.len() < 2 {
        assert(dvs(diags@) =~= dvs(old(diags)@) + needless_diags(v));
        return;
    }
    proof {
        lemma_rest_width(ps, 1);
    }
    let mut width: u64 = pieces[0].1 as u64 - 1;
    if width > MAX_WIDTH as u64 {
        assert(dvs(diags@) =~= dvs(old(diags)@) + needless_diags(v));
        return;
    }
    let mut k: usize = 1;
    while k < pieces.len()
        invariant
            1 <= k <= pieces@.len() == ps.len(),
            ps == pieces_of(v, v.len() as int),
            v == tv(line.tokens@),
            diags@ == old(diags)@,
            width <= MAX_WIDTH,
            spliced_width(ps) == width + rest_width(ps, k as int),
            forall|j: int| 0 <= j < pieces@.len() ==> (#[trigger] pieces@[j]).0 as int == ps[j].0
                && pieces@[j].1 as int == ps[j].1 && pieces@[j].2 == ps[j].2,
            forall|j: int| 0 <= j < ps.len() ==> 1 <= (#[trigger] ps[j]).0 <= ps[j].1,
        decreases pieces@.len() - k,
    {
        width = width + 1 + (pieces[k].1 - pieces[k].0) as u64;
        k += 1;
        proof {
            lemma_rest_width(ps, k as int);
        }
        if width > MAX_WIDTH as u64 {
            assert(dvs(diags@) =~= dvs(old(diags)@) + needless_diags(v));
            return;
        }
    }
    assert(spliced_width(ps) == width);
    proof {
        lemma_tv_index(ts@, 0);
    }
    let ghost before = diags@;
    match &ts[0].0 {
        Tok::Ident(head) => {
            match kanso_form_for(head.as_str()) {
                Some(instead) => {
                    let mut m: Vec<char> = Vec::new();
                    crate::text::push_str(&mut m, "kanso has no `");
                    crate::text::push_str(&mut m, head.as_str());
                    crate::text::push_str(&mut m, "` \u{2014} ");
                    crate::text::push_str(&mut m, instead);
                    let d = Diagnostic::new("syntax", crate::text::string_from_chars(m.as_slice()), ts[0].1);
                    assert(diag_view(d) == needless_diags(v)[0]);
                    diags.push(d);
                    proof {
                        lemma_dvs_push(before, d);
                    }
                    assert(dvs(diags@) =~= dvs(old(diags)@) + needless_diags(v));
                    return;
                },
                None => {},
            }
        },
        _ => {},
    }
    let mut m: Vec<char> = Vec::new();
    crate::text::push_str(&mut m, "needless continuation: this statement fits on one line (");
    crate::text::push_u64(width, &mut m);
    crate::text::push_str(&mut m, " characters)");
    let d = Diagnostic::new("formatting", crate::text::string_from_chars(m.as_slice()), pieces[1].2);
    assert(diag_view(d) == needless_diags(v)[0]);
    diags.push(d);
    proof {
        lemma_dvs_push(before, d);
    }
    assert(dvs(diags@) =~= dvs(old(diags)@) + needless_diags(v));
}

} // verus!

verus! {

/// Where a text block opens on a line, scanning from `i` with `in_str`
/// saying whether a one-line string is open: the position of the `"""`, if
/// the line has one outside a string and before a comment. An escape inside
/// a string skips the character it escapes.
pub open spec fn opener_from(cs: Seq<char>, i: int, in_str: bool) -> Option<int>
    decreases cs.len() + 2 - i,
{
    if i < 0 || i >= cs.len() {
        None
    } else {
        let c = cs[i];
        if c == '\\' && in_str {
            opener_from(cs, i + 2, in_str)
        } else if c == '"' && in_str {
            opener_from(cs, i + 1, false)
        } else if c == '"' && crate::text::has_prefix(cs.subrange(i, cs.len() as int), "\"\"\""@) {
            Some(i)
        } else if c == '"' {
            opener_from(cs, i + 1, true)
        } else if c == '#' && !in_str {
            None
        } else {
            opener_from(cs, i + 1, in_str)
        }
    }
}

/// The byte offset of the `"""` that opens a text block on this line, if it
/// has one: the column a caller slicing the line's bytes would use. A
/// `"""` inside a string is no opener, and a comment ends the scan.
pub fn block_opener(content: &str) -> (r: Option<usize>)
    requires
        crate::text::byte_len(content@) <= usize::MAX,
    ensures
        r == (match opener_from(content@, 0, false) {
            Some(i) => Some(crate::text::byte_len(content@.subrange(0, i)) as usize),
            None => None::<usize>,
        }),
{
    let cs = crate::text::chars_of(content);
    match opener_column(cs.as_slice()) {
        None => None,
        Some(i) => {
            let mut n: usize = 0;
            let mut k: usize = 0;
            proof {
                assert(cs@.subrange(0, 0) =~= Seq::<char>::empty());
            }
            while k < i
                invariant
                    k <= i < cs@.len(),
                    cs@ == content@,
                    crate::text::byte_len(content@) <= usize::MAX,
                    n == crate::text::byte_len(cs@.subrange(0, k as int)),
                decreases i - k,
            {
                proof {
                    assert(cs@.subrange(0, k + 1).drop_last() =~= cs@.subrange(0, k as int));
                    crate::text::lemma_byte_len_concat(cs@.subrange(0, k + 1), cs@.subrange(k + 1, cs@.len() as int));
                    assert(cs@.subrange(0, k + 1) + cs@.subrange(k + 1, cs@.len() as int) =~= cs@);
                }
                let c = cs[k];
                let w: usize = if (c as u32) < 0x80 {
                    1
                } else if (c as u32) < 0x800 {
                    2
                } else if (c as u32) < 0x10000 {
                    3
                } else {
                    4
                };
                n = n + w;
                k += 1;
            }
            Some(n)
        },
    }
}

/// The character position of the `"""` that opens a text block on this
/// line, if it has one: where a caller slicing the line's characters cuts.
fn opener_column(cs: &[char]) -> (r: Option<usize>)
    ensures
        match r {
            None => opener_from(cs@, 0, false) is None,
            Some(i) => opener_from(cs@, 0, false) == Some(i as int) && i < cs@.len(),
        },
{
    let n = cs.len();
    let mut i: usize = 0;
    let mut in_str = false;
    let fence = crate::text::chars_of("\"\"\"");
    while i < n
        invariant
            n == cs@.len(),
            fence@ == "\"\"\""@,
            opener_from(cs@, 0, false) == opener_from(cs@, i as int, in_str),
        decreases n - i,
    {
        let c = cs[i];
        if c == '\\' && in_str {
            if n - i < 2 {
                assert(opener_from(cs@, i + 2, in_str) is None);
                return None;
            }
            i += 2;
        } else if c == '"' && in_str {
            in_str = false;
            i += 1;
        } else if c == '"' && crate::text::prefix_at(cs, i, fence.as_slice()) {
            return Some(i);
        } else if c == '"' {
            in_str = true;
            i += 1;
        } else if c == '#' && !in_str {
            return None;
        } else {
            i += 1;
        }
    }
    None
}

/// What an escape in a text block stands for; `\n` and `\"` are refused
/// there because a line break and a quote are written plainly.
pub open spec fn block_escape(e: char, span: Span) -> Result<char, DiagV> {
    if e == '\\' {
        Ok('\\')
    } else if e == '{' {
        Ok('{')
    } else if e == 'r' {
        Ok('\r')
    } else if e == 't' {
        Ok('\t')
    } else if e == 'n' {
        Err(dv("formatting"@, "a newline inside a text block is a line break, not `\\n`"@, span))
    } else if e == '"' {
        Err(dv("formatting"@, "a quote inside a text block is written plainly"@, span))
    } else {
        Err(dv("syntax"@, unknown_escape(e), span))
    }
}

/// One line of a text block from `p`, with the parts and literal gathered
/// so far: the parts and literal after it.
pub open spec fn scan_block_text(cs: Seq<char>, line: nat, p: int, parts: Seq<PartV>, lit: Seq<char>) -> Result<
    (Seq<PartV>, Seq<char>),
    DiagV,
>
    decreases cs.len() - p,
{
    if p < 0 || p >= cs.len() {
        Ok((parts, lit))
    } else {
        let c = cs[p];
        let span = at(line, (1 + p) as nat);
        if c == '\\' {
            if p + 1 >= cs.len() {
                Err(dv("syntax"@, "unterminated escape"@, span))
            } else {
                match block_escape(cs[p + 1], span) {
                    Err(d) => Err(d),
                    Ok(r) => scan_block_text(cs, line, p + 2, parts, lit.push(r)),
                }
            }
        } else if c == '{' {
            let parts2 = if lit.len() > 0 {
                parts.push(PartV::Lit(lit))
            } else {
                parts
            };
            match scan_interp(cs, line, 1, p) {
                Err(d) => Err(d),
                Ok((q, part)) => if p < q <= cs.len() {
                    scan_block_text(cs, line, q, parts2.push(part), Seq::empty())
                } else {
                    Err(dv("syntax"@, "unterminated interpolation"@, span))
                },
            }
        } else {
            scan_block_text(cs, line, p + 1, parts, lit.push(c))
        }
    }
}

fn block_escape_of(e: char, span: Span) -> (r: Result<char, Diagnostic>)
    ensures
        match r {
            Ok(c) => block_escape(e, span) == Ok::<char, DiagV>(c),
            Err(d) => block_escape(e, span) == Err::<char, DiagV>(diag_view(d)),
        },
{
    if e == '\\' {
        Ok('\\')
    } else if e == '{' {
        Ok('{')
    } else if e == 'r' {
        Ok('\r')
    } else if e == 't' {
        Ok('\t')
    } else if e == 'n' {
        Err(diag("formatting", "a newline inside a text block is a line break, not `\\n`", span))
    } else if e == '"' {
        Err(diag("formatting", "a quote inside a text block is written plainly", span))
    } else {
        Err(unknown_escape_diag(e, span))
    }
}

/// One line of a text block, its text starting at column one.
fn block_text(cs: &[char], line: usize, parts: &mut Vec<StrPart>, lit: &mut Vec<char>) -> (r: Result<(), Diagnostic>)
    requires
        1 + cs@.len() <= usize::MAX,
    ensures
        match r {
            Ok(()) => scan_block_text(cs@, line as nat, 0, pv(old(parts)@), old(lit)@) == Ok::<(Seq<PartV>, Seq<char>), DiagV>((pv(final(parts)@), final(lit)@)),
            Err(d) => scan_block_text(cs@, line as nat, 0, pv(old(parts)@), old(lit)@) == Err::<(Seq<PartV>, Seq<char>), DiagV>(diag_view(d)),
        },
{
    let n = cs.len();
    let mut p: usize = 0;
    let ghost target = scan_block_text(cs@, line as nat, 0, pv(parts@), lit@);
    while p < n
        invariant
            p <= n == cs@.len(),
            1 + cs@.len() <= usize::MAX,
            target == scan_block_text(cs@, line as nat, 0, pv(old(parts)@), old(lit)@),
            target == scan_block_text(cs@, line as nat, p as int, pv(parts@), lit@),
        decreases n - p,
    {
        let c = cs[p];
        let span = Span::at(line, 1 + p);
        if c == '\\' {
            if n - p < 2 {
                return Err(diag("syntax", "unterminated escape", span));
            }
            match block_escape_of(cs[p + 1], span) {
                Err(d) => {
                    return Err(d);
                },
                Ok(r) => {
                    lit.push(r);
                    p += 2;
                },
            }
        } else if c == '{' {
            if lit.len() > 0 {
                let s = crate::text::string_from_chars(lit.as_slice());
                proof {
                    lemma_pv_push(parts@, StrPart::Lit(s));
                }
                parts.push(StrPart::Lit(s));
                *lit = Vec::new();
            }
            match interpolation(cs, line, 1, p) {
                Err(d) => {
                    return Err(d);
                },
                Ok((q, part)) => {
                    proof {
                        lemma_pv_push(parts@, part);
                    }
                    parts.push(part);
                    p = q;
                    *lit = Vec::new();
                },
            }
        } else {
            lit.push(c);
            p += 1;
        }
    }
    Ok(())
}

/// The parts and literal after the lines of a text block from the `k`th,
/// each line's literal ending in a line break.
pub open spec fn scan_block_body(body: Seq<(usize, Seq<char>)>, k: int, parts: Seq<PartV>, lit: Seq<char>) -> Result<
    (Seq<PartV>, Seq<char>),
    DiagV,
>
    decreases body.len() - k,
{
    if k < 0 || k >= body.len() {
        Ok((parts, lit))
    } else {
        match scan_block_text(body[k].1, body[k].0 as nat, 0, parts, lit) {
            Err(d) => Err(d),
            Ok((ps, l)) => scan_block_body(body, k + 1, ps, l.push('\n')),
        }
    }
}

pub open spec fn short_block_message() -> Seq<char> {
    "a text block holds two or more lines; one line is written `\"...\"`"@
}

/// A statement whose last token is a text block: the part before the `"""`
/// lexes as an ordinary line, and the block's lines become one string token
/// whose span stays on the opening line.
pub open spec fn block_line_tokens(
    prefix: Seq<char>,
    line: nat,
    off: nat,
    open_col: nat,
    body: Seq<(usize, Seq<char>)>,
) -> Result<Seq<(TokV, Span, u32)>, DiagV> {
    match line_tokens(prefix, line, off) {
        Err(d) => Err(d),
        Ok(ts) => match scan_block_body(body, 0, Seq::empty(), Seq::empty()) {
            Err(d) => Err(d),
            Ok((ps, lit)) => {
                let parts = if lit.len() > 0 {
                    ps.push(PartV::Lit(lit))
                } else {
                    ps
                };
                if body.len() < 2 {
                    Err(dv("formatting"@, short_block_message(), at(line, open_col)))
                } else {
                    Ok(ts.push((TokV::Str(parts), at(line, open_col), #[verifier::truncate] ((open_col + 3) as u32))))
                }
            },
        },
    }
}

pub open spec fn body_view(body: Seq<(usize, Vec<char>)>) -> Seq<(usize, Seq<char>)> {
    body.map_values(|b: (usize, Vec<char>)| (b.0, b.1@))
}

fn lex_line_with_block(prefix: &[char], line: usize, off: usize, open_col: usize, body: &Vec<(usize, Vec<char>)>) -> (r: Result<
    Vec<(Tok, Span, u32)>,
    Diagnostic,
>)
    requires
        off + prefix@.len() <= usize::MAX,
        open_col + 3 <= usize::MAX,
        forall|i: int| 0 <= i < body@.len() ==> 1 + (#[trigger] body@[i]).1@.len() <= usize::MAX,
    ensures
        match r {
            Ok(ts) => block_line_tokens(prefix@, line as nat, off as nat, open_col as nat, body_view(body@))
                == Ok::<Seq<(TokV, Span, u32)>, DiagV>(tv(ts@)),
            Err(d) => block_line_tokens(prefix@, line as nat, off as nat, open_col as nat, body_view(body@))
                == Err::<Seq<(TokV, Span, u32)>, DiagV>(diag_view(d)),
        },
{
    let mut lexed = match lex_line(prefix, line, off) {
        Err(d) => {
            return Err(d);
        },
        Ok(ts) => ts,
    };
    let ghost bv = body_view(body@);
    let mut parts: Vec<StrPart> = Vec::new();
    let mut lit: Vec<char> = Vec::new();
    let mut k: usize = 0;
    while k < body.len()
        invariant
            k <= body@.len() == bv.len(),
            bv == body_view(body@),
            forall|i: int| 0 <= i < body@.len() ==> 1 + (#[trigger] body@[i]).1@.len() <= usize::MAX,
            scan_block_body(bv, 0, Seq::empty(), Seq::empty()) == scan_block_body(bv, k as int, pv(parts@), lit@),
            line_tokens(prefix@, line as nat, off as nat) == Ok::<Seq<(TokV, Span, u32)>, DiagV>(tv(lexed@)),
        decreases body@.len() - k,
    {
        let (number, text) = &body[k];
        assert(bv[k as int] == (*number, text@));
        match block_text(text.as_slice(), *number, &mut parts, &mut lit) {
            Err(d) => {
                return Err(d);
            },
            Ok(()) => {},
        }
        lit.push('\n');
        k += 1;
    }
    if lit.len() > 0 {
        let s = crate::text::string_from_chars(lit.as_slice());
        proof {
            lemma_pv_push(parts@, StrPart::Lit(s));
        }
        parts.push(StrPart::Lit(s));
    }
    if body.len() < 2 {
        return Err(diag("formatting", "a text block holds two or more lines; one line is written `\"...\"`", Span::at(line, open_col)));
    }
    let span = Span::at(line, open_col);
    let end = #[verifier::truncate] ((open_col + 3) as u32);
    let t = Tok::Str(parts);
    proof {
        lemma_tv_push(lexed@, (t, span, end));
    }
    lexed.push((t, span, end));
    Ok(lexed)
}

} // verus!
