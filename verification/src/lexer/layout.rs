//! The layout of a file: its lines, their indentation, text blocks, and the
//! continuation forms that splice one source line into the statement above.

use vstd::prelude::*;
use crate::diag::{Diagnostic, Span};
use crate::text::{byte_len, digits_of, has_prefix, index_of, leading_space, lines_of, trim_end, trim_start};
use super::{
    at, block_line_tokens, body_view, diag, dv, dvs, lemma_dvs_push, line_tokens, needless_diags, opener_from,
    partial_chain_diags, spacing_of, tv, DiagV, Line, TokV,
};
use super::{
    lemma_toks_view_len, lemma_tv_index, lemma_tv_push, runs_forward, scan_line, tok_view, token_at, ScanStep, Tok,
};

verus! {

pub open spec fn tab_message() -> Seq<char> {
    "tabs are not part of the canonical grammar; indent with spaces"@
}

pub open spec fn trailing_message() -> Seq<char> {
    "trailing whitespace is not part of the canonical grammar"@
}

/// A line of `indent` spaces and the three quotes that close a text block.
pub open spec fn fence_of(indent: nat) -> Seq<char> {
    Seq::new(indent, |i: int| ' ') + "\"\"\""@
}

/// How many bytes of leading whitespace `s` has: how far `trim_start`
/// moves its start.
pub open spec fn lead_bytes(s: Seq<char>) -> nat {
    byte_len(s.subrange(0, leading_space(s) as int))
}

/// The character position, from `k` on, at which the first `b` bytes of
/// `s` end; none when `b` bytes end inside a character or past the end.
pub open spec fn cut_from(s: Seq<char>, b: nat, k: int) -> Option<int>
    decreases s.len() - k,
{
    if k < 0 || k > s.len() {
        None
    } else if byte_len(s.subrange(0, k)) == b {
        Some(k)
    } else if byte_len(s.subrange(0, k)) > b || k == s.len() {
        None
    } else {
        cut_from(s, b, k + 1)
    }
}

pub open spec fn closing_message(alone: bool) -> Seq<char> {
    if alone {
        "the closing `\"\"\"` sits alone on its line"@
    } else {
        "the closing `\"\"\"` sits at the column its opening line starts in"@
    }
}

pub open spec fn shallow_message(inner: nat, found: nat) -> Seq<char> {
    "a text block's lines sit "@ + digits_of(inner)
        + " spaces in, under the `\"\"\"` that opened it \u{2014} this one is at column "@
        + digits_of(found + 1)
}

pub open spec fn unterminated_block_message(indent: nat) -> Seq<char> {
    "unterminated text block \u{2014} the closing `\"\"\"` sits alone at column "@ + digits_of(
        indent + 1,
    )
}

/// What reading a text block's lines yields: the lines it holds (each with
/// its line number, stripped of the block's indentation), the index of the
/// first line after it, the diagnostics on the way, and whether a line's
/// indentation would have to be cut inside a character.
pub struct Gathered {
    pub body: Seq<(usize, Seq<char>)>,
    pub next: int,
    pub diags: Seq<DiagV>,
    pub split: bool,
}

/// The lines of a text block opened at `indent` on line `open_line`, read
/// from the line at index `row`, after `body` and `ds`. Content sits at the
/// opening indent plus two; a shallower line ends the block, and a line
/// that is only the fence closes it.
pub open spec fn gather(
    raws: Seq<Seq<char>>,
    row: int,
    indent: nat,
    open_line: nat,
    body: Seq<(usize, Seq<char>)>,
    ds: Seq<DiagV>,
) -> Gathered
    decreases raws.len() - row,
{
    if row < 0 || row >= raws.len() {
        Gathered {
            body,
            next: row,
            diags: ds.push(dv("syntax"@, unterminated_block_message(indent), at(open_line, indent + 1))),
            split: false,
        }
    } else {
        let raw = raws[row];
        let number = (row + 1) as nat;
        let trimmed = trim_end(raw);
        let fence = fence_of(indent);
        if trimmed == fence {
            Gathered { body, next: row + 1, diags: ds, split: false }
        } else if trim_start(trimmed) == "\"\"\""@ || has_prefix(trimmed, fence) {
            Gathered {
                body,
                next: row + 1,
                diags: ds.push(
                    dv(
                        "syntax"@,
                        closing_message(has_prefix(trimmed, fence)),
                        at(number, lead_bytes(trimmed) + 1),
                    ),
                ),
                split: false,
            }
        } else {
            let ds1 = if trimmed != raw {
                ds.push(dv("formatting"@, trailing_message(), at(number, byte_len(trimmed) + 1)))
            } else {
                ds
            };
            let tab = index_of(trimmed, '\t');
            if tab >= 0 {
                gather(
                    raws,
                    row + 1,
                    indent,
                    open_line,
                    body,
                    ds1.push(dv("formatting"@, tab_message(), at(number, (tab + 1) as nat))),
                )
            } else if trimmed.len() == 0 {
                gather(raws, row + 1, indent, open_line, body.push((number as usize, Seq::empty())), ds1)
            } else if lead_bytes(trimmed) < indent + 2 {
                Gathered {
                    body,
                    next: row,
                    diags: ds1.push(
                        dv(
                            "syntax"@,
                            shallow_message(indent + 2, lead_bytes(trimmed)),
                            at(number, lead_bytes(trimmed) + 1),
                        ),
                    ),
                    split: false,
                }
            } else {
                match cut_from(trimmed, indent + 2, 0) {
                    None => Gathered { body, next: row + 1, diags: ds1, split: true },
                    Some(k) => gather(
                        raws,
                        row + 1,
                        indent,
                        open_line,
                        body.push((number as usize, trimmed.subrange(k, trimmed.len() as int))),
                        ds1,
                    ),
                }
            }
        }
    }
}

pub proof fn lemma_gather_next(
    raws: Seq<Seq<char>>,
    row: int,
    indent: nat,
    open_line: nat,
    body: Seq<(usize, Seq<char>)>,
    ds: Seq<DiagV>,
)
    requires
        0 <= row <= raws.len(),
    ensures
        row <= gather(raws, row, indent, open_line, body, ds).next <= raws.len(),
        gather(raws, row, indent, open_line, body, ds).body.len() <= body.len() + raws.len() - row,
    decreases raws.len() - row,
{
    if row < raws.len() {
        let raw = raws[row];
        let number = (row + 1) as nat;
        let trimmed = trim_end(raw);
        let ds1 = if trimmed != raw {
            ds.push(dv("formatting"@, trailing_message(), at(number, byte_len(trimmed) + 1)))
        } else {
            ds
        };
        let tab = index_of(trimmed, '\t');
        lemma_gather_next(raws, row + 1, indent, open_line, body, ds1.push(dv("formatting"@, tab_message(), at(number, (tab + 1) as nat))));
        lemma_gather_next(raws, row + 1, indent, open_line, body.push((number as usize, Seq::empty())), ds1);
        match cut_from(trimmed, indent + 2, 0) {
            None => {},
            Some(k) => {
                lemma_gather_next(
                    raws,
                    row + 1,
                    indent,
                    open_line,
                    body.push((number as usize, trimmed.subrange(k, trimmed.len() as int))),
                    ds1,
                );
            },
        }
    }
}

pub open spec fn raws_view(raws: Seq<Vec<char>>) -> Seq<Seq<char>> {
    raws.map_values(|r: Vec<char>| r@)
}

/// Where the first `b` bytes of `s` end, as a character position.
fn byte_cut(s: &[char], b: usize) -> (r: Option<usize>)
    requires
        4 * s@.len() <= usize::MAX,
    ensures
        match r {
            None => cut_from(s@, b as nat, 0) is None,
            Some(k) => cut_from(s@, b as nat, 0) == Some(k as int) && k <= s@.len(),
        },
{
    let n = s.len();
    let mut k: usize = 0;
    let mut used: usize = 0;
    assert(s@.subrange(0, 0) =~= Seq::<char>::empty());
    while k < n && used < b
        invariant
            k <= n == s@.len(),
            4 * s@.len() <= usize::MAX,
            used == byte_len(s@.subrange(0, k as int)),
            cut_from(s@, b as nat, 0) == cut_from(s@, b as nat, k as int),
        decreases n - k,
    {
        proof {
            assert(s@.subrange(0, k + 1).drop_last() =~= s@.subrange(0, k as int));
            crate::text::lemma_byte_len_bounds(s@.subrange(0, k as int));
        }
        used = used + crate::text::utf8_width_of(s[k]);
        k += 1;
    }
    if used == b {
        Some(k)
    } else {
        None
    }
}

/// A fence line: `indent` spaces and three quotes.
fn fence_chars(indent: usize) -> (f: Vec<char>)
    ensures
        f@ == fence_of(indent as nat),
{
    let mut f: Vec<char> = Vec::new();
    let mut i: usize = 0;
    while i < indent
        invariant
            i <= indent,
            f@ == Seq::new(i as nat, |j: int| ' '),
        decreases indent - i,
    {
        f.push(' ');
        i += 1;
        assert(f@ =~= Seq::new(i as nat, |j: int| ' '));
    }
    f.push('"');
    f.push('"');
    f.push('"');
    proof {
        reveal_strlit("\"\"\"");
    }
    assert(f@ =~= fence_of(indent as nat));
    f
}

fn numbered_diag(kind: &str, before: &str, n: usize, span: Span) -> (d: Diagnostic)
    ensures
        d.kind@ == kind@,
        d.message@ == before@ + digits_of(n as nat),
        d.span == span,
{
    let mut m: Vec<char> = Vec::new();
    crate::text::push_str(&mut m, before);
    crate::text::push_u64(n as u64, &mut m);
    assert(n as u64 as nat == n as nat);
    assert(m@ =~= before@ + digits_of(n as nat));
    Diagnostic::new(kind, crate::text::string_from_chars(m.as_slice()), span)
}

fn shallow_diag(inner: usize, found: usize, span: Span) -> (d: Diagnostic)
    requires
        found < usize::MAX,
    ensures
        super::diag_view(d) == dv("syntax"@, shallow_message(inner as nat, found as nat), span),
{
    let mut m: Vec<char> = Vec::new();
    crate::text::push_str(&mut m, "a text block's lines sit ");
    crate::text::push_u64(inner as u64, &mut m);
    crate::text::push_str(&mut m, " spaces in, under the `\"\"\"` that opened it \u{2014} this one is at column ");
    crate::text::push_u64((found + 1) as u64, &mut m);
    assert(inner as u64 as nat == inner as nat);
    assert((found + 1) as u64 as nat == found as nat + 1);
    assert(m@ =~= shallow_message(inner as nat, found as nat));
    Diagnostic::new("syntax", crate::text::string_from_chars(m.as_slice()), span)
}

fn unterminated_block_diag(indent: usize, span: Span) -> (d: Diagnostic)
    requires
        indent < usize::MAX,
    ensures
        super::diag_view(d) == dv("syntax"@, unterminated_block_message(indent as nat), span),
{
    let d = numbered_diag("syntax", "unterminated text block \u{2014} the closing `\"\"\"` sits alone at column ", indent + 1, span);
    assert(super::diag_view(d).message =~= unterminated_block_message(indent as nat));
    d
}

/// The lines of a text block, from the line at index `from`; see `gather`.
fn gather_block(
    raws: &Vec<Vec<char>>,
    from: usize,
    indent: usize,
    open_line: usize,
    diags: &mut Vec<Diagnostic>,
) -> (r: (Vec<(usize, Vec<char>)>, usize, bool))
    requires
        from <= raws@.len() <= 0x4000_0000,
        indent + 2 < 0x1_0000_0000,
        forall|i: int| 0 <= i < raws@.len() ==> (#[trigger] raws@[i])@.len() < 0x4000_0000,
    ensures
        ({
            let g = gather(raws_view(raws@), from as int, indent as nat, open_line as nat, Seq::empty(), Seq::empty());
            &&& body_view(r.0@) == g.body
            &&& r.1 as int == g.next
            &&& dvs(final(diags)@) == dvs(old(diags)@) + g.diags
            &&& r.2 == g.split
        }),
        forall|i: int| 0 <= i < r.0@.len() ==> (#[trigger] r.0@[i]).1@.len() < 0x4000_0000,
{
    let ghost rv = raws_view(raws@);
    let ghost target = gather(rv, from as int, indent as nat, open_line as nat, Seq::empty(), Seq::empty());
    let fence = fence_chars(indent);
    let quotes = crate::text::chars_of("\"\"\"");
    let inner = indent + 2;
    let mut body: Vec<(usize, Vec<char>)> = Vec::new();
    let ghost mut said: Seq<DiagV> = Seq::empty();
    let mut row = from;
    assert(body_view(body@) =~= Seq::<(usize, Seq<char>)>::empty());
    assert(dvs(diags@) =~= dvs(old(diags)@) + said);
    while row < raws.len()
        invariant
            from <= row <= raws@.len() <= 0x4000_0000,
            indent + 2 < 0x1_0000_0000,
            inner == indent + 2,
            rv == raws_view(raws@),
            rv.len() == raws@.len(),
            forall|i: int| 0 <= i < raws@.len() ==> (#[trigger] raws@[i])@.len() < 0x4000_0000,
            fence@ == fence_of(indent as nat),
            quotes@ == "\"\"\""@,
            target == gather(rv, from as int, indent as nat, open_line as nat, Seq::empty(), Seq::empty()),
            target == gather(rv, row as int, indent as nat, open_line as nat, body_view(body@), said),
            dvs(diags@) == dvs(old(diags)@) + said,
            forall|i: int| 0 <= i < body@.len() ==> (#[trigger] body@[i]).1@.len() < 0x4000_0000,
        decreases raws@.len() - row,
    {
        let raw = &raws[row];
        let number = row + 1;
        assert(rv[row as int] == raw@);
        let n = raw.len();
        let tlen = crate::text::trimmed_end(raw.as_slice(), n);
        let trimmed = crate::text::slice_vec(raw.as_slice(), 0, tlen);
        proof {
            assert(raw@.subrange(0, n as int) =~= raw@);
            crate::text::lemma_trim_end_prefix(raw@);
        }
        assert(trimmed@ == trim_end(raw@));
        let lead = crate::text::leading_spaces(trimmed.as_slice(), 0, tlen);
        proof {
            assert(trimmed@.subrange(0, tlen as int) =~= trimmed@);
            crate::text::lemma_leading_space(trimmed@);
            crate::text::lemma_byte_len_bounds(trimmed@);
        }
        if crate::text::same_chars(trimmed.as_slice(), fence.as_slice()) {
            return (body, row + 1, false);
        }
        let alone = crate::text::prefix_at(trimmed.as_slice(), 0, fence.as_slice());
        assert(trimmed@.subrange(0, tlen as int) =~= trimmed@);
        let only_quotes = tlen - lead == 3 && crate::text::prefix_at(trimmed.as_slice(), lead, quotes.as_slice());
        proof {
            reveal_strlit("\"\"\"");
            let ts = trim_start(trimmed@);
            assert(ts == trimmed@.subrange(lead as int, tlen as int));
            if tlen - lead == 3 {
                assert(trimmed@.subrange(lead as int, tlen as int).subrange(0, 3) =~= trimmed@.subrange(lead as int, tlen as int));
            }
        }
        assert(only_quotes == (trim_start(trimmed@) == "\"\"\""@));
        let lead_b = crate::text::byte_len_of(trimmed.as_slice(), 0, lead);
        proof {
            crate::text::lemma_byte_len_bounds(trimmed@.subrange(0, lead as int));
        }
        assert(lead_b == lead_bytes(trimmed@));
        if only_quotes || alone {
            let d = if alone {
                diag("syntax", "the closing `\"\"\"` sits alone on its line", Span::at(number, lead_b + 1))
            } else {
                diag("syntax", "the closing `\"\"\"` sits at the column its opening line starts in", Span::at(number, lead_b + 1))
            };
            proof {
                lemma_dvs_push(diags@, d);
            }
            diags.push(d);
            proof {
                said = said.push(super::diag_view(d));
            }
            return (body, row + 1, false);
        }
        if tlen != n {
            let whole = crate::text::byte_len_of(raw.as_slice(), 0, tlen);
            let d = diag("formatting", "trailing whitespace is not part of the canonical grammar", Span::at(number, whole + 1));
            proof {
                lemma_dvs_push(diags@, d);
            }
            diags.push(d);
            proof {
                said = said.push(super::diag_view(d));
            }
        }
        assert(trimmed@ != raw@ <==> tlen != n);
        match crate::text::find_char(trimmed.as_slice(), '\t') {
            Some(tab) => {
                let d = diag("formatting", "tabs are not part of the canonical grammar; indent with spaces", Span::at(number, tab + 1));
                proof {
                    lemma_dvs_push(diags@, d);
                }
                diags.push(d);
                proof {
                    said = said.push(super::diag_view(d));
                }
                row += 1;
            },
            None => {
                if tlen == 0 {
                    let ghost bv = body_view(body@);
                    body.push((number, Vec::new()));
                    assert(body_view(body@) =~= bv.push((number, Seq::<char>::empty())));
                    row += 1;
                } else if lead_b < inner {
                    let d = shallow_diag(inner, lead_b, Span::at(number, lead_b + 1));
                    proof {
                        lemma_dvs_push(diags@, d);
                    }
                    diags.push(d);
                    proof {
                        said = said.push(super::diag_view(d));
                    }
                    return (body, row, false);
                } else {
                    match byte_cut(trimmed.as_slice(), inner) {
                        None => {
                            return (body, row + 1, true);
                        },
                        Some(k) => {
                            let text = crate::text::slice_vec(trimmed.as_slice(), k, tlen);
                            let ghost bv = body_view(body@);
                            body.push((number, text));
                            assert(body_view(body@) =~= bv.push((number, trimmed@.subrange(k as int, tlen as int))));
                            row += 1;
                        },
                    }
                }
            },
        }
    }
    let d = unterminated_block_diag(indent, Span::at(open_line, indent + 1));
    proof {
        lemma_dvs_push(diags@, d);
    }
    diags.push(d);
    proof {
        said = said.push(super::diag_view(d));
    }
    (body, row, false)
}

} // verus!


verus! {

/// A line of tokens as a mathematical value.
pub struct LineV {
    pub number: nat,
    pub indent: nat,
    pub tokens: Seq<(TokV, Span, u32)>,
}

pub open spec fn line_view(l: Line) -> LineV {
    LineV { number: l.number as nat, indent: l.indent as nat, tokens: tv(l.tokens@) }
}

pub open spec fn lines_view(ls: Seq<Line>) -> Seq<LineV> {
    ls.map_values(|l: Line| line_view(l))
}

/// Where reading a file's lines stands: the lines of tokens so far, the
/// blank lines, the diagnostics, and whether a text block's indentation
/// would have had to be cut inside a character.
pub struct LexSt {
    pub lines: Seq<LineV>,
    pub blanks: Seq<usize>,
    pub diags: Seq<DiagV>,
    pub split: bool,
}

pub open spec fn say(st: LexSt, d: DiagV) -> LexSt {
    LexSt { lines: st.lines, blanks: st.blanks, diags: st.diags.push(d), split: st.split }
}

pub open spec fn say_all(st: LexSt, ds: Seq<DiagV>) -> LexSt {
    LexSt { lines: st.lines, blanks: st.blanks, diags: st.diags + ds, split: st.split }
}

pub open spec fn add_line(st: LexSt, l: LineV) -> LexSt {
    LexSt { lines: st.lines.push(l), blanks: st.blanks, diags: st.diags, split: st.split }
}

/// The last line with `ts` spliced onto its tokens.
pub open spec fn extend_last(st: LexSt, ts: Seq<(TokV, Span, u32)>) -> LexSt {
    let p = st.lines.last();
    LexSt {
        lines: st.lines.update(
            st.lines.len() - 1,
            LineV { number: p.number, indent: p.indent, tokens: p.tokens + ts },
        ),
        blanks: st.blanks,
        diags: st.diags,
        split: st.split,
    }
}

pub open spec fn width_message(width: nat) -> Seq<char> {
    "a line holds at most 80 characters \u{2014} this one has "@ + digits_of(width)
}

pub open spec fn nothing_follows_message() -> Seq<char> {
    "a text block opens at the end of its line \u{2014} nothing follows `\"\"\"`"@
}

pub open spec fn continuation_message() -> Seq<char> {
    "a `.` continuation line sits directly under its statement, indented two spaces deeper"@
}

pub open spec fn indent_message(indent: nat) -> Seq<char> {
    "indentation must be 0 or 2 spaces, found "@ + digits_of(indent)
}

pub open spec fn newline_message() -> Seq<char> {
    "file must end with exactly one newline"@
}

pub open spec fn ident_is(t: TokV, name: Seq<char>) -> bool {
    t is Ident && t->Ident_0 == name
}

/// A line whose first token makes it a header: `fn`, `type` or `pub`.
pub open spec fn starts_header(ts: Seq<(TokV, Span, u32)>) -> bool {
    ts.len() > 0 && (ts[0].0 is KwFn || ts[0].0 is KwType || ts[0].0 is KwPub)
}

/// A header that takes no indented argument: `fn`, `type`, `import` or `pub`.
pub open spec fn starts_arg_header(ts: Seq<(TokV, Span, u32)>) -> bool {
    ts.len() > 0 && (ts[0].0 is KwFn || ts[0].0 is KwType || ts[0].0 is KwImport || ts[0].0 is KwPub)
}

pub open spec fn ends_bind(ts: Seq<(TokV, Span, u32)>) -> bool {
    ts.len() > 0 && ts.last().0 is Bind
}

/// A line that holds branch lines under it: `if cond`, `x = if cond`,
/// `else`, `build`, `x = build`.
pub open spec fn block_header(ts: Seq<(TokV, Span, u32)>) -> bool {
    ||| ts.len() >= 1 && ident_is(ts[0].0, "if"@)
    ||| ts.len() >= 3 && ts[0].0 is Ident && ts[1].0 is Bind && ident_is(ts[2].0, "if"@)
    ||| ts.len() == 1 && ident_is(ts[0].0, "else"@)
    ||| ts.len() == 1 && ident_is(ts[0].0, "build"@)
    ||| ts.len() == 3 && ts[0].0 is Ident && ts[1].0 is Bind && ident_is(ts[2].0, "build"@)
}

/// An indented argument line's tokens inside the grouping that makes the
/// parser read them as one parenthesized argument.
pub open spec fn grouped(ts: Seq<(TokV, Span, u32)>, number: nat) -> Seq<(TokV, Span, u32)> {
    let close = at(
        number,
        if ts.len() > 0 {
            ts.last().2 as nat
        } else {
            1
        },
    );
    seq![(TokV::LGroup, at(number, 1), 1u32)] + ts + seq![(TokV::RGroup, close, close.col)]
}

/// A line that starts a statement of its own.
pub open spec fn new_line(st: LexSt, number: nat, indent: nat, content: Seq<char>) -> LexSt {
    match line_tokens(content, number, indent + 1) {
        Ok(ts) => add_line(say_all(st, spacing_of(ts, number)), LineV { number, indent, tokens: ts }),
        Err(d) => say(st, d),
    }
}

/// A line with no text block: a `.` or `>>` continuation, a branch line
/// or a sibling, an indented argument, a comment, or a statement.
pub open spec fn plain_step(st: LexSt, number: nat, indent: nat, content: Seq<char>) -> LexSt {
    let has = st.lines.len() > 0;
    let p = st.lines.last();
    let cont_ok = has && indent == p.indent + 2 && !(st.blanks.len() > 0 && st.blanks.last() as int == number - 1);
    let wrappable = has && !starts_header(p.tokens) && !ends_bind(p.tokens);
    let dot = has_prefix(content, ". "@);
    let seq_cont = has_prefix(content, ">> "@) && cont_ok && wrappable;
    if dot || seq_cont {
        if !cont_ok {
            say(st, dv("formatting"@, continuation_message(), at(number, 1)))
        } else {
            match line_tokens(content, number, indent + 1) {
                Ok(ts) => extend_last(say_all(st, spacing_of(ts, number)), ts),
                Err(d) => say(st, d),
            }
        }
    } else if (has && block_header(p.tokens) && indent == p.indent + 2) || (has && indent > 2 && indent % 2 == 0
        && indent <= p.indent) {
        new_line(st, number, indent, content)
    } else if cont_ok && !starts_arg_header(p.tokens) && !ends_bind(p.tokens) {
        match line_tokens(content, number, indent + 1) {
            Ok(ts) => extend_last(say_all(st, spacing_of(ts, number)), grouped(ts, number)),
            Err(d) => say(st, d),
        }
    } else if indent != 0 && indent != 2 {
        say(st, dv("formatting"@, indent_message(indent), at(number, 1)))
    } else if content.len() > 0 && content[0] == '#' {
        st
    } else {
        new_line(st, number, indent, content)
    }
}

/// A line whose statement ends in a text block: the block's lines are read
/// here, and the reading resumes after them.
pub open spec fn block_step(
    raws: Seq<Seq<char>>,
    row: int,
    st: LexSt,
    number: nat,
    indent: nat,
    content: Seq<char>,
    col: int,
) -> (LexSt, int) {
    if content.len() - col != 3 {
        (say(st, dv("syntax"@, nothing_follows_message(), at(number, (indent + col + 4) as nat))), row + 1)
    } else {
        let g = gather(raws, row + 1, indent, number, Seq::empty(), Seq::empty());
        let st1 = LexSt { lines: st.lines, blanks: st.blanks, diags: st.diags + g.diags, split: g.split };
        if g.split {
            (st1, g.next)
        } else {
            match block_line_tokens(content.subrange(0, col), number, indent + 1, (indent + 1 + col) as nat, g.body) {
                Ok(ts) => (add_line(say_all(st1, spacing_of(ts, number)), LineV { number, indent, tokens: ts }), g.next),
                Err(d) => (say(st1, d), g.next),
            }
        }
    }
}

/// One source line read: the state after it and the index of the next line
/// to read.
pub open spec fn lex_step(raws: Seq<Seq<char>>, row: int, st: LexSt) -> (LexSt, int) {
    let raw = raws[row];
    let number = (row + 1) as nat;
    let tab = index_of(raw, '\t');
    if tab >= 0 {
        (say(st, dv("formatting"@, tab_message(), at(number, (tab + 1) as nat))), row + 1)
    } else {
        let trimmed = trim_end(raw);
        let st1 = if trimmed != raw {
            say(st, dv("formatting"@, trailing_message(), at(number, byte_len(trimmed) + 1)))
        } else {
            st
        };
        if trimmed.len() == 0 {
            (LexSt { lines: st1.lines, blanks: st1.blanks.push(number as usize), diags: st1.diags, split: st1.split }, row + 1)
        } else {
            let st2 = if trimmed.len() > 80 {
                say(st1, dv("formatting"@, width_message(trimmed.len()), at(number, 81)))
            } else {
                st1
            };
            let lead = leading_space(trimmed);
            let indent = lead_bytes(trimmed);
            let content = trimmed.subrange(lead as int, trimmed.len() as int);
            match opener_from(content, 0, false) {
                Some(col) => block_step(raws, row, st2, number, indent, content, col),
                None => (plain_step(st2, number, indent, content), row + 1),
            }
        }
    }
}

/// The state after reading the lines from index `row` on.
pub open spec fn lex_from(raws: Seq<Seq<char>>, row: int, st: LexSt) -> LexSt
    decreases raws.len() - row,
{
    if row < 0 || row >= raws.len() || st.split {
        st
    } else {
        let (st2, next) = lex_step(raws, row, st);
        if row < next <= raws.len() {
            lex_from(raws, next, st2)
        } else {
            st2
        }
    }
}

/// The checks on whole statements, line by line: a needless continuation,
/// then partial chaining.
pub open spec fn line_checks(ls: Seq<LineV>) -> Seq<DiagV>
    decreases ls.len(),
{
    if ls.len() == 0 {
        Seq::empty()
    } else {
        line_checks(ls.drop_last()) + needless_diags(ls.last().tokens) + partial_chain_diags(
            ls.last().tokens,
            ls.last().number,
        )
    }
}

pub open spec fn end_diags(source: Seq<char>) -> Seq<DiagV> {
    if source.len() > 0 && source.last() != '\n' {
        seq![dv("formatting"@, newline_message(), at(lines_of(source).len(), 1))]
    } else {
        Seq::empty()
    }
}

/// Reading a whole file's lines.
pub open spec fn lex_outcome(source: Seq<char>) -> LexSt {
    lex_from(
        lines_of(source),
        0,
        LexSt { lines: Seq::empty(), blanks: Seq::empty(), diags: end_diags(source), split: false },
    )
}

/// What lexing a file gives: its lines of tokens and blank line numbers,
/// or every diagnostic in the order they were found.
pub open spec fn lexed(source: Seq<char>) -> Result<(Seq<LineV>, Seq<usize>), Seq<DiagV>> {
    let st = lex_outcome(source);
    let all = st.diags + line_checks(st.lines);
    if all.len() == 0 {
        Ok((st.lines, st.blanks))
    } else {
        Err(all)
    }
}

} // verus!

verus! {

/// Every line's tokens run forward, and no token comes from a source line
/// past `upto`.
pub open spec fn settled(ls: Seq<LineV>, upto: int) -> bool {
    forall|i: int|
        0 <= i < ls.len() ==> {
            &&& runs_forward((#[trigger] ls[i]).tokens)
            &&& forall|j: int| 0 <= j < ls[i].tokens.len() ==> (#[trigger] ls[i].tokens[j]).1.line as int <= upto
        }
}

/// Tokens from one source line `line`, starting at column `off` or later
/// and ending by column `end`.
pub open spec fn on_line(ts: Seq<(TokV, Span, u32)>, line: nat, off: nat, end: int) -> bool {
    &&& runs_forward(ts)
    &&& forall|j: int|
        0 <= j < ts.len() ==> (#[trigger] ts[j]).1.line == line as u32 && off <= ts[j].1.col && ts[j].2 <= end
}

proof fn lemma_scan_forward(cs: Seq<char>, line: nat, off: nat, p: int, acc: Seq<(TokV, Span, u32)>)
    requires
        0 <= p <= cs.len(),
        1 <= off,
        off + cs.len() < 0x1_0000_0000,
        on_line(acc, line, off, off + p),
    ensures
        scan_line(cs, line, off, p, acc) is Ok ==> on_line(scan_line(cs, line, off, p, acc)->Ok_0, line, off, (off + cs.len()) as int),
    decreases cs.len() - p,
{
    if p < cs.len() {
        match token_at(cs, line, off, p, acc) {
            ScanStep::Skip(e) => {
                if p < e <= cs.len() {
                    lemma_scan_forward(cs, line, off, e, acc);
                }
            },
            ScanStep::Emit(e, t) => {
                if p < e <= cs.len() {
                    let x = (t, at(line, (off + p) as nat), (off + e) as u32);
                    let acc2 = acc.push(x);
                    assert forall|j: int, k: int|
                        #![trigger acc2[j], acc2[k]]
                        0 <= j && k == j + 1 && k < acc2.len() && acc2[j].1.line == acc2[k].1.line implies acc2[j].2 <= acc2[k].1.col by {
                        if k < acc.len() {
                            assert(acc[j] == acc2[j] && acc[k] == acc2[k]);
                        } else {
                            assert(acc2[j] == acc.last());
                        }
                    }
                    assert(on_line(acc2, line, off, off + e));
                    lemma_scan_forward(cs, line, off, e, acc2);
                }
            },
            _ => {},
        }
    }
}

proof fn lemma_line_forward(cs: Seq<char>, line: nat, off: nat)
    requires
        1 <= off,
        off + cs.len() < 0x1_0000_0000,
    ensures
        line_tokens(cs, line, off) is Ok ==> on_line(line_tokens(cs, line, off)->Ok_0, line, off, (off + cs.len()) as int),
{
    lemma_scan_forward(cs, line, off, 0, Seq::empty());
}

proof fn lemma_forward_concat(a: Seq<(TokV, Span, u32)>, b: Seq<(TokV, Span, u32)>)
    requires
        runs_forward(a),
        runs_forward(b),
        a.len() > 0 && b.len() > 0 ==> a.last().1.line != b[0].1.line || a.last().2 <= b[0].1.col,
    ensures
        runs_forward(a + b),
{
    let c = a + b;
    assert forall|i: int| 0 <= i < c.len() implies 1 <= (#[trigger] c[i]).1.col <= c[i].2 by {
        if i < a.len() {
            assert(c[i] == a[i]);
        } else {
            assert(c[i] == b[i - a.len()]);
        }
    }
    assert forall|i: int, k: int|
        #![trigger c[i], c[k]]
        0 <= i && k == i + 1 && k < c.len() && c[i].1.line == c[k].1.line implies c[i].2 <= c[k].1.col by {
        if i < a.len() - 1 {
            assert(c[i] == a[i] && c[k] == a[k]);
        } else if i == a.len() - 1 {
            assert(c[i] == a.last() && c[k] == b[0]);
        } else {
            assert(c[i] == b[i - a.len()] && c[k] == b[k - a.len()]);
        }
    }
}

proof fn lemma_grouped_forward(ts: Seq<(TokV, Span, u32)>, number: nat, off: nat, end: int)
    requires
        1 <= off,
        number < 0x1_0000_0000,
        end < 0x1_0000_0000,
        on_line(ts, number, off, end),
    ensures
        runs_forward(grouped(ts, number)),
        forall|j: int| 0 <= j < grouped(ts, number).len() ==> (#[trigger] grouped(ts, number)[j]).1.line == number as u32,
{
    let open: Seq<(TokV, Span, u32)> = seq![(TokV::LGroup, at(number, 1), 1u32)];
    let close = at(number, if ts.len() > 0 { ts.last().2 as nat } else { 1 });
    let shut: Seq<(TokV, Span, u32)> = seq![(TokV::RGroup, close, close.col)];
    if ts.len() > 0 {
        assert(ts.last().2 >= ts.last().1.col >= 1);
    }
    assert(close.col >= 1);
    lemma_forward_concat(open, ts);
    if ts.len() > 0 {
        assert((open + ts).last() == ts.last());
    }
    lemma_forward_concat(open + ts, shut);
    assert forall|j: int| 0 <= j < grouped(ts, number).len() implies (#[trigger] grouped(ts, number)[j]).1.line == number as u32 by {
        let g = grouped(ts, number);
        if j == 0 {
        } else if j <= ts.len() {
            assert(g[j] == ts[j - 1]);
        } else {
            assert(g[j] == shut[0]);
        }
    }
}

proof fn lemma_block_forward(
    prefix: Seq<char>,
    number: nat,
    off: nat,
    open_col: nat,
    body: Seq<(usize, Seq<char>)>,
)
    requires
        1 <= off,
        open_col == off + prefix.len(),
        open_col + 3 < 0x1_0000_0000,
    ensures
        block_line_tokens(prefix, number, off, open_col, body) is Ok ==> on_line(
            block_line_tokens(prefix, number, off, open_col, body)->Ok_0,
            number,
            off,
            (open_col + 3) as int,
        ),
{
    lemma_line_forward(prefix, number, off);
    match block_line_tokens(prefix, number, off, open_col, body) {
        Ok(all) => {
            let ts = line_tokens(prefix, number, off)->Ok_0;
            let x = all.last();
            assert(all == ts.push(x));
            assert forall|j: int, k: int|
                #![trigger all[j], all[k]]
                0 <= j && k == j + 1 && k < all.len() && all[j].1.line == all[k].1.line implies all[j].2 <= all[k].1.col by {
                if k < ts.len() {
                    assert(all[j] == ts[j] && all[k] == ts[k]);
                } else {
                    assert(all[j] == ts[j]);
                }
            }
            assert forall|j: int| 0 <= j < all.len() implies (#[trigger] all[j]).1.line == number as u32 && off <= all[j].1.col && all[j].2 <= open_col + 3 by {
                if j < ts.len() {
                    assert(all[j] == ts[j]);
                }
            }
        },
        Err(_) => {},
    }
}

proof fn lemma_tv_concat(a: Seq<(Tok, Span, u32)>, b: Seq<(Tok, Span, u32)>)
    ensures
        tv(a + b) == tv(a) + tv(b),
    decreases b.len(),
{
    if b.len() == 0 {
        assert(a + b =~= a);
        assert(tv(a) + tv(b) =~= tv(a));
    } else {
        let b0 = b.drop_last();
        lemma_tv_concat(a, b0);
        assert(a + b =~= (a + b0).push(b.last()));
        assert(b =~= b0.push(b.last()));
        lemma_tv_push(a + b0, b.last());
        lemma_tv_push(b0, b.last());
        assert(tv(a) + tv(b0).push((tok_view(b.last().0), b.last().1, b.last().2)) =~= (tv(a) + tv(b0)).push(
            (tok_view(b.last().0), b.last().1, b.last().2),
        ));
    }
}

fn tok_ident_is(t: &Tok, name: &str) -> (r: bool)
    ensures
        r == ident_is(tok_view(*t), name@),
{
    match t {
        Tok::Ident(s) => crate::text::same_text(s.as_str(), name),
        _ => false,
    }
}

fn starts_header_of(ts: &Vec<(Tok, Span, u32)>, import: bool) -> (r: bool)
    ensures
        r == if import {
            starts_arg_header(tv(ts@))
        } else {
            starts_header(tv(ts@))
        },
{
    proof {
        lemma_toks_view_len(ts@, ts@.len());
    }
    if ts.len() == 0 {
        return false;
    }
    proof {
        lemma_tv_index(ts@, 0);
    }
    match &ts[0].0 {
        Tok::KwFn => true,
        Tok::KwType => true,
        Tok::KwPub => true,
        Tok::KwImport => import,
        _ => false,
    }
}

fn ends_bind_of(ts: &Vec<(Tok, Span, u32)>) -> (r: bool)
    ensures
        r == ends_bind(tv(ts@)),
{
    proof {
        lemma_toks_view_len(ts@, ts@.len());
    }
    if ts.len() == 0 {
        return false;
    }
    proof {
        lemma_tv_index(ts@, ts@.len() - 1);
    }
    matches!(ts[ts.len() - 1].0, Tok::Bind)
}

fn block_header_of(ts: &Vec<(Tok, Span, u32)>) -> (r: bool)
    ensures
        r == block_header(tv(ts@)),
{
    proof {
        lemma_toks_view_len(ts@, ts@.len());
    }
    let n = ts.len();
    if n == 0 {
        return false;
    }
    proof {
        lemma_tv_index(ts@, 0);
    }
    if tok_ident_is(&ts[0].0, "if") {
        return true;
    }
    if n == 1 {
        return tok_ident_is(&ts[0].0, "else") || tok_ident_is(&ts[0].0, "build");
    }
    if n < 3 {
        return false;
    }
    proof {
        lemma_tv_index(ts@, 1);
        lemma_tv_index(ts@, 2);
    }
    let shaped = matches!(ts[0].0, Tok::Ident(_)) && matches!(ts[1].0, Tok::Bind);
    shaped && (tok_ident_is(&ts[2].0, "if") || (n == 3 && tok_ident_is(&ts[2].0, "build")))
}

} // verus!

verus! {

pub open spec fn st_of(lines: Seq<Line>, blanks: Seq<usize>, diags: Seq<Diagnostic>, split: bool) -> LexSt {
    LexSt { lines: lines_view(lines), blanks, diags: dvs(diags), split }
}

proof fn lemma_lines_view_push(ls: Seq<Line>, l: Line)
    ensures
        lines_view(ls.push(l)) == lines_view(ls).push(line_view(l)),
{
    assert(lines_view(ls.push(l)) =~= lines_view(ls).push(line_view(l)));
}

proof fn lemma_lines_view_last(ls: Seq<Line>, l: Line)
    requires
        ls.len() > 0,
    ensures
        lines_view(ls.drop_last().push(l)) == lines_view(ls).update(ls.len() - 1, line_view(l)),
{
    assert(lines_view(ls.drop_last().push(l)) =~= lines_view(ls).update(ls.len() - 1, line_view(l)));
}

/// Lexes `content` as a statement's line of its own.
fn new_line_row(number: usize, indent: usize, content: &Vec<char>, lines: &mut Vec<Line>, diags: &mut Vec<Diagnostic>)
    requires
        1 <= number < 0x4000_0001,
        indent + 1 + content@.len() < 0x1_0000_0000,
        settled(lines_view(old(lines)@), number - 1),
    ensures
        st_of(final(lines)@, Seq::empty(), final(diags)@, false) == new_line(
            st_of(old(lines)@, Seq::empty(), old(diags)@, false),
            number as nat,
            indent as nat,
            content@,
        ),
        settled(lines_view(final(lines)@), number as int),
{
    proof {
        lemma_line_forward(content@, number as nat, (indent + 1) as nat);
    }
    match super::lex_line(content.as_slice(), number, indent + 1) {
        Ok(ts) => {
            let ghost before = diags@;
            super::validate_spacing(ts.as_slice(), number, diags);
            let l = Line { number, indent, tokens: ts };
            proof {
                lemma_lines_view_push(lines@, l);
            }
            lines.push(l);
        },
        Err(d) => {
            proof {
                lemma_dvs_push(diags@, d);
            }
            diags.push(d);
        },
    }
}

} // verus!

verus! {

proof fn lemma_settled_with(ls: Seq<LineV>, upto: int, ts: Seq<(TokV, Span, u32)>, number: nat)
    requires
        ls.len() > 0,
        settled(ls, upto),
        upto < number < 0x1_0000_0000,
        runs_forward(ts),
        forall|j: int| 0 <= j < ts.len() ==> (#[trigger] ts[j]).1.line == number as u32,
    ensures
        settled(
            ls.update(
                ls.len() - 1,
                LineV { number: ls.last().number, indent: ls.last().indent, tokens: ls.last().tokens + ts },
            ),
            number as int,
        ),
{
    let p = ls.last();
    let last = ls.len() - 1;
    assert(runs_forward(ls[last].tokens));
    if p.tokens.len() > 0 && ts.len() > 0 {
        assert(p.tokens[p.tokens.len() - 1].1.line as int <= upto);
        assert(ts[0].1.line == number as u32);
    }
    lemma_forward_concat(p.tokens, ts);
    let all = p.tokens + ts;
    assert forall|j: int| 0 <= j < all.len() implies (#[trigger] all[j]).1.line as int <= number by {
        if j < p.tokens.len() {
            assert(all[j] == p.tokens[j]);
            assert(ls[last].tokens[j].1.line as int <= upto);
        } else {
            assert(all[j] == ts[j - p.tokens.len()]);
        }
    }
}

/// Splices `ts` onto the last line's tokens.
fn splice_last(lines: &mut Vec<Line>, ts: Vec<(Tok, Span, u32)>)
    requires
        old(lines)@.len() > 0,
    ensures
        lines_view(final(lines)@) == extend_last(st_of(old(lines)@, Seq::empty(), Seq::empty(), false), tv(ts@)).lines,
{
    let mut ts = ts;
    let ghost old_ts = ts@;
    let ghost before = lines@;
    let mut p = lines.pop().unwrap();
    let ghost p_ts = p.tokens@;
    p.tokens.append(&mut ts);
    proof {
        lemma_tv_concat(p_ts, old_ts);
        lemma_lines_view_last(before, p);
    }
    lines.push(p);
}

/// A line with no text block; see `plain_step`.
fn plain_row(
    number: usize,
    indent: usize,
    content: &Vec<char>,
    lines: &mut Vec<Line>,
    blanks: &Vec<usize>,
    diags: &mut Vec<Diagnostic>,
)
    requires
        1 <= number < 0x4000_0001,
        indent + 1 + content@.len() < 0x1_0000_0000,
        settled(lines_view(old(lines)@), number - 1),
    ensures
        st_of(final(lines)@, blanks@, final(diags)@, false) == plain_step(
            st_of(old(lines)@, blanks@, old(diags)@, false),
            number as nat,
            indent as nat,
            content@,
        ),
        settled(lines_view(final(lines)@), number as int),
{
    let ghost st = st_of(lines@, blanks@, diags@, false);
    let has = lines.len() > 0;
    let mut p_indent: usize = 0;
    let mut header = false;
    let mut arg_header = false;
    let mut binds = false;
    let mut block_head = false;
    if has {
        let p = &lines[lines.len() - 1];
        assert(st.lines.last() == line_view(*p));
        p_indent = p.indent;
        header = starts_header_of(&p.tokens, false);
        arg_header = starts_header_of(&p.tokens, true);
        binds = ends_bind_of(&p.tokens);
        block_head = block_header_of(&p.tokens);
    }
    let after_blank = blanks.len() > 0 && blanks[blanks.len() - 1] == number - 1;
    let cont_ok = has && indent >= 2 && indent - 2 == p_indent && !after_blank;
    let wrappable = has && !header && !binds;
    let dot = crate::text::prefix_at(content.as_slice(), 0, crate::text::chars_of(". ").as_slice());
    let seq_cont = crate::text::prefix_at(content.as_slice(), 0, crate::text::chars_of(">> ").as_slice()) && cont_ok
        && wrappable;
    assert(content@.subrange(0, content@.len() as int) =~= content@);
    if dot || seq_cont {
        if !cont_ok {
            let d = diag(
                "formatting",
                "a `.` continuation line sits directly under its statement, indented two spaces deeper",
                Span::at(number, 1),
            );
            proof {
                lemma_dvs_push(diags@, d);
            }
            diags.push(d);
            return;
        }
        proof {
            lemma_line_forward(content@, number as nat, (indent + 1) as nat);
        }
        match super::lex_line(content.as_slice(), number, indent + 1) {
            Ok(ts) => {
                super::validate_spacing(ts.as_slice(), number, diags);
                proof {
                    lemma_settled_with(lines_view(lines@), number - 1, tv(ts@), number as nat);
                }
                splice_last(lines, ts);
            },
            Err(d) => {
                proof {
                    lemma_dvs_push(diags@, d);
                }
                diags.push(d);
            },
        }
        return;
    }
    let block_child = has && block_head && indent >= 2 && indent - 2 == p_indent;
    let sibling = has && indent > 2 && indent % 2 == 0 && indent <= p_indent;
    if block_child || sibling {
        let ghost bl = blanks@;
        new_line_row(number, indent, content, lines, diags);
        return;
    }
    if cont_ok && !arg_header && !binds {
        proof {
            lemma_line_forward(content@, number as nat, (indent + 1) as nat);
        }
        match super::lex_line(content.as_slice(), number, indent + 1) {
            Ok(ts) => {
                super::validate_spacing(ts.as_slice(), number, diags);
                let close_col: u32 = if ts.len() > 0 {
                    ts[ts.len() - 1].2
                } else {
                    1
                };
                let close = Span::at(number, close_col as usize);
                let mut group: Vec<(Tok, Span, u32)> = Vec::new();
                let open = Span::at(number, 1);
                group.push((Tok::LGroup, open, 1));
                let ghost g0 = group@;
                let ghost mid = ts@;
                let mut ts = ts;
                group.append(&mut ts);
                let ghost g1 = group@;
                group.push((Tok::RGroup, close, close.col));
                proof {
                    lemma_tv_push(Seq::empty(), (Tok::LGroup, open, 1u32));
                    lemma_tv_concat(g0, mid);
                    lemma_tv_push(g1, (Tok::RGroup, close, close.col));
                    lemma_toks_view_len(mid, mid.len());
                    if mid.len() > 0 {
                        lemma_tv_index(mid, mid.len() - 1);
                    }
                    assert(g0 =~= Seq::<(Tok, Span, u32)>::empty().push((Tok::LGroup, open, 1u32)));
                    assert(tv(group@) =~= grouped(tv(mid), number as nat));
                    lemma_line_forward(content@, number as nat, (indent + 1) as nat);
                    lemma_grouped_forward(tv(mid), number as nat, (indent + 1) as nat, (indent + 1 + content@.len()) as int);
                    lemma_settled_with(lines_view(lines@), number - 1, tv(group@), number as nat);
                }
                splice_last(lines, group);
            },
            Err(d) => {
                proof {
                    lemma_dvs_push(diags@, d);
                }
                diags.push(d);
            },
        }
        return;
    }
    if indent != 0 && indent != 2 {
        let d = numbered_diag("formatting", "indentation must be 0 or 2 spaces, found ", indent, Span::at(number, 1));
        proof {
            lemma_dvs_push(diags@, d);
        }
        diags.push(d);
        return;
    }
    if content.len() > 0 && content[0] == '#' {
        return;
    }
    new_line_row(number, indent, content, lines, diags);
}

} // verus!

verus! {

/// A line whose statement ends in a text block; see `block_step`.
fn block_row(
    raws: &Vec<Vec<char>>,
    row: usize,
    indent: usize,
    content: &Vec<char>,
    col: usize,
    lines: &mut Vec<Line>,
    diags: &mut Vec<Diagnostic>,
) -> (r: (usize, bool))
    requires
        row < raws@.len() <= 0x4000_0000,
        forall|i: int| 0 <= i < raws@.len() ==> (#[trigger] raws@[i])@.len() < 0x4000_0000,
        col < content@.len(),
        indent + 1 + content@.len() + 3 < 0x1_0000_0000,
        settled(lines_view(old(lines)@), row as int),
    ensures
        (st_of(final(lines)@, Seq::empty(), final(diags)@, r.1), r.0 as int) == block_step(
            raws_view(raws@),
            row as int,
            st_of(old(lines)@, Seq::empty(), old(diags)@, false),
            (row + 1) as nat,
            indent as nat,
            content@,
            col as int,
        ),
        row < r.0 <= raws@.len(),
        settled(lines_view(final(lines)@), r.0 as int),
{
    let number = row + 1;
    if content.len() - col != 3 {
        let d = diag(
            "syntax",
            "a text block opens at the end of its line \u{2014} nothing follows `\"\"\"`",
            Span::at(number, indent + col + 4),
        );
        proof {
            lemma_dvs_push(diags@, d);
        }
        diags.push(d);
        return (row + 1, false);
    }
    let ghost before = diags@;
    proof {
        lemma_gather_next(raws_view(raws@), row + 1, indent as nat, number as nat, Seq::empty(), Seq::empty());
    }
    let (body, next, split) = gather_block(raws, row + 1, indent, number, diags);
    if split {
        return (next, true);
    }
    let prefix = crate::text::slice_vec(content.as_slice(), 0, col);
    proof {
        lemma_block_forward(prefix@, number as nat, (indent + 1) as nat, (indent + 1 + col) as nat, body_view(body@));
    }
    match super::lex_line_with_block(prefix.as_slice(), number, indent + 1, indent + 1 + col, &body) {
        Ok(ts) => {
            super::validate_spacing(ts.as_slice(), number, diags);
            let l = Line { number, indent, tokens: ts };
            proof {
                lemma_lines_view_push(lines@, l);
            }
            lines.push(l);
        },
        Err(d) => {
            proof {
                lemma_dvs_push(diags@, d);
            }
            diags.push(d);
        },
    }
    (next, false)
}

} // verus!

verus! {

/// One source line read; see `lex_step`.
fn lex_row(
    raws: &Vec<Vec<char>>,
    row: usize,
    lines: &mut Vec<Line>,
    blanks: &mut Vec<usize>,
    diags: &mut Vec<Diagnostic>,
) -> (r: (usize, bool))
    requires
        row < raws@.len() <= 0x4000_0000,
        forall|i: int| 0 <= i < raws@.len() ==> (#[trigger] raws@[i])@.len() < 0x4000_0000,
        settled(lines_view(old(lines)@), row as int),
    ensures
        (st_of(final(lines)@, final(blanks)@, final(diags)@, r.1), r.0 as int) == lex_step(
            raws_view(raws@),
            row as int,
            st_of(old(lines)@, old(blanks)@, old(diags)@, false),
        ),
        row < r.0 <= raws@.len(),
        settled(lines_view(final(lines)@), r.0 as int),
{
    let raw = &raws[row];
    let number = row + 1;
    assert(raws_view(raws@)[row as int] == raw@);
    match crate::text::find_char(raw.as_slice(), '\t') {
        Some(t) => {
            let d = diag("formatting", "tabs are not part of the canonical grammar; indent with spaces", Span::at(number, t + 1));
            proof {
                lemma_dvs_push(diags@, d);
            }
            diags.push(d);
            return (row + 1, false);
        },
        None => {},
    }
    let n = raw.len();
    let tlen = crate::text::trimmed_end(raw.as_slice(), n);
    let ghost trimmed = trim_end(raw@);
    proof {
        assert(raw@.subrange(0, n as int) =~= raw@);
        crate::text::lemma_trim_end_prefix(raw@);
        crate::text::lemma_byte_len_bounds(raw@.subrange(0, tlen as int));
    }
    if tlen != n {
        let b = crate::text::byte_len_of(raw.as_slice(), 0, tlen);
        let d = diag("formatting", "trailing whitespace is not part of the canonical grammar", Span::at(number, b + 1));
        proof {
            lemma_dvs_push(diags@, d);
        }
        diags.push(d);
    }
    assert(trimmed != raw@ <==> tlen != n);
    if tlen == 0 {
        blanks.push(number);
        return (row + 1, false);
    }
    if tlen > 80 {
        let d = numbered_diag(
            "formatting",
            "a line holds at most 80 characters \u{2014} this one has ",
            tlen,
            Span::at(number, 81),
        );
        proof {
            lemma_dvs_push(diags@, d);
        }
        diags.push(d);
    }
    let lead = crate::text::leading_spaces(raw.as_slice(), 0, tlen);
    let indent = crate::text::byte_len_of(raw.as_slice(), 0, lead);
    let content = crate::text::slice_vec(raw.as_slice(), lead, tlen);
    proof {
        assert(trimmed == raw@.subrange(0, tlen as int));
        crate::text::lemma_leading_space(trimmed);
        assert(trimmed.subrange(0, lead as int) =~= raw@.subrange(0, lead as int));
        assert(trimmed.subrange(lead as int, tlen as int) =~= content@);
        if lead == tlen {
            assert(crate::text::is_space(trimmed[tlen - 1]));
        }
        crate::text::lemma_byte_len_bounds(raw@.subrange(0, lead as int));
    }
    assert(indent == lead_bytes(trimmed));
    match super::opener_column(content.as_slice()) {
        Some(col) => block_row(raws, row, indent, &content, col, lines, diags),
        None => {
            plain_row(number, indent, &content, lines, blanks, diags);
            (row + 1, false)
        },
    }
}

/// A file's lines of tokens and the numbers of its blank lines.
pub struct Lexed {
    pub lines: Vec<Line>,
    pub blank_lines: Vec<usize>,
}

/// Lexes a source file: every line to tokens, with the layout rules
/// (indentation, continuations, text blocks, width, trailing whitespace,
/// tabs, the final newline) checked on the way. Every diagnostic is
/// collected; the lines come back only when there are none.
///
/// Spans hold `u32` lines and columns, and a column can count bytes, so a
/// source is held under 2^30 characters.
pub fn lex(source: &str) -> (r: Result<Lexed, Vec<Diagnostic>>)
    requires
        source@.len() < 0x4000_0000,
        !lex_outcome(source@).split,
    ensures
        match r {
            Ok(l) => lexed(source@) == Ok::<(Seq<LineV>, Seq<usize>), Seq<DiagV>>(
                (lines_view(l.lines@), l.blank_lines@),
            ),
            Err(ds) => lexed(source@) == Err::<(Seq<LineV>, Seq<usize>), Seq<DiagV>>(dvs(ds@)),
        },
{
    lex_or_split(source).0
}

/// Lexes a source file as `lex` does, first checking what `lex` asks: the
/// source is held under 2^30 characters, and no text block's line splits a
/// character where the block's indentation is cut. `None` when either does
/// not hold.
pub fn lex_checked(source: &str) -> (r: Option<Result<Lexed, Vec<Diagnostic>>>)
    ensures
        r is None <==> (source@.len() >= 0x4000_0000 || lex_outcome(source@).split),
        r matches Some(x) ==> match x {
            Ok(l) => lexed(source@) == Ok::<(Seq<LineV>, Seq<usize>), Seq<DiagV>>(
                (lines_view(l.lines@), l.blank_lines@),
            ),
            Err(ds) => lexed(source@) == Err::<(Seq<LineV>, Seq<usize>), Seq<DiagV>>(dvs(ds@)),
        },
{
    let n = crate::text::chars_of(source).len();
    if n >= 0x4000_0000 {
        return None;
    }
    let (r, split) = lex_or_split(source);
    if split {
        None
    } else {
        Some(r)
    }
}

/// Lexes a source file and says whether a text block's line split a
/// character at the block's indentation; the answer is `lex`'s where it
/// did not.
fn lex_or_split(source: &str) -> (r: (Result<Lexed, Vec<Diagnostic>>, bool))
    requires
        source@.len() < 0x4000_0000,
    ensures
        r.1 == lex_outcome(source@).split,
        !r.1 ==> match r.0 {
            Ok(l) => lexed(source@) == Ok::<(Seq<LineV>, Seq<usize>), Seq<DiagV>>(
                (lines_view(l.lines@), l.blank_lines@),
            ),
            Err(ds) => lexed(source@) == Err::<(Seq<LineV>, Seq<usize>), Seq<DiagV>>(dvs(ds@)),
        },
{
    let chars = crate::text::chars_of(source);
    let raws = crate::text::lines(chars.as_slice());
    proof {
        crate::text::lemma_lines_bounds(source@);
    }
    let ghost rv = raws_view(raws@);
    assert(rv =~= lines_of(source@));
    let mut diags: Vec<Diagnostic> = Vec::new();
    let mut lines: Vec<Line> = Vec::new();
    let mut blanks: Vec<usize> = Vec::new();
    if chars.len() > 0 && chars[chars.len() - 1] != '\n' {
        let d = diag("formatting", "file must end with exactly one newline", Span::at(raws.len(), 1));
        diags.push(d);
    }
    assert(dvs(diags@) =~= end_diags(source@));
    assert(lines_view(lines@) =~= Seq::<LineV>::empty());
    let mut row: usize = 0;
    while row < raws.len()
        invariant
            row <= raws@.len() <= 0x4000_0000,
            forall|i: int| 0 <= i < raws@.len() ==> (#[trigger] raws@[i])@.len() < 0x4000_0000,
            rv == raws_view(raws@),
            rv == lines_of(source@),
            lex_outcome(source@) == lex_from(rv, row as int, st_of(lines@, blanks@, diags@, false)),
            settled(lines_view(lines@), row as int),
        decreases raws@.len() - row,
    {
        proof {
            assert forall|i: int| 0 <= i < raws@.len() implies (#[trigger] raws@[i])@.len() < 0x4000_0000 by {
                assert(rv[i] == raws@[i]@);
            }
        }
        let ghost st = st_of(lines@, blanks@, diags@, false);
        let (next, split) = lex_row(&raws, row, &mut lines, &mut blanks, &mut diags);
        if split {
            assert(lex_from(rv, next as int, st_of(lines@, blanks@, diags@, true)) == st_of(lines@, blanks@, diags@, true));
            return (Err(diags), true);
        }
        row = next;
    }
    let ghost base = dvs(diags@);
    let ghost lv = lines_view(lines@);
    assert(lex_outcome(source@) == st_of(lines@, blanks@, diags@, false));
    let mut k: usize = 0;
    assert(lv.subrange(0, 0) =~= Seq::<LineV>::empty());
    while k < lines.len()
        invariant
            k <= lines@.len(),
            lv == lines_view(lines@),
            settled(lv, row as int),
            dvs(diags@) == base + line_checks(lv.subrange(0, k as int)),
        decreases lines@.len() - k,
    {
        let line = &lines[k];
        assert(lv[k as int] == line_view(*line));
        super::check_needless_continuation(line, &mut diags);
        super::check_partial_chain(line, &mut diags);
        proof {
            let upto = lv.subrange(0, k + 1);
            assert(upto.drop_last() =~= lv.subrange(0, k as int));
            assert(upto.last() == lv[k as int]);
        }
        k += 1;
    }
    assert(lv.subrange(0, lines@.len() as int) =~= lv);
    if diags.len() == 0 {
        (Ok(Lexed { lines, blank_lines: blanks }), false)
    } else {
        (Err(diags), false)
    }
}

} // verus!

verus! {

proof fn lemma_step_grows(raws: Seq<Seq<char>>, row: int, st: LexSt)
    requires
        0 <= row < raws.len(),
    ensures
        lex_step(raws, row, st).0.diags.len() >= st.diags.len(),
{
}

proof fn lemma_lex_from_grows(raws: Seq<Seq<char>>, row: int, st: LexSt)
    ensures
        lex_from(raws, row, st).diags.len() >= st.diags.len(),
    decreases raws.len() - row,
{
    if !(row < 0 || row >= raws.len() || st.split) {
        lemma_step_grows(raws, row, st);
        let (st2, next) = lex_step(raws, row, st);
        if row < next <= raws.len() {
            lemma_lex_from_grows(raws, next, st2);
        }
    }
}

/// A statement line in one rendering: on one source line, or wrapped
/// because its one-line form would not fit.
pub open spec fn one_rendering(ts: Seq<(TokV, Span, u32)>) -> bool {
    let ps = super::pieces_of(ts, ts.len() as int);
    ps.len() < 2 || super::spliced_width(ps) > super::MAX_WIDTH
}

proof fn lemma_line_checks_empty(ls: Seq<LineV>)
    requires
        line_checks(ls).len() == 0,
    ensures
        forall|i: int| 0 <= i < ls.len() ==> needless_diags((#[trigger] ls[i]).tokens).len() == 0,
        forall|i: int| 0 <= i < ls.len() ==> partial_chain_diags((#[trigger] ls[i]).tokens, ls[i].number).len() == 0,
    decreases ls.len(),
{
    if ls.len() > 0 {
        lemma_line_checks_empty(ls.drop_last());
        assert forall|i: int| 0 <= i < ls.len() implies needless_diags((#[trigger] ls[i]).tokens).len() == 0
            && partial_chain_diags(ls[i].tokens, ls[i].number).len() == 0 by {
            if i < ls.len() - 1 {
                assert(ls.drop_last()[i] == ls[i]);
            }
        }
    }
}

/// A file that lexes is in canonical layout: it ends with its newline, no
/// statement is wrapped where its one-line form would fit (one meaning, one
/// rendering), and no `>>` chain is wrapped only partly.
pub proof fn law_lexed_layout_is_canonical(source: Seq<char>)
    requires
        lexed(source) is Ok,
    ensures
        source.len() == 0 || source.last() == '\n',
        forall|i: int| 0 <= i < lexed(source)->Ok_0.0.len() ==> one_rendering(#[trigger] lexed(source)->Ok_0.0[i].tokens),
        forall|i: int|
            0 <= i < lexed(source)->Ok_0.0.len() ==> partial_chain_diags(
                #[trigger] lexed(source)->Ok_0.0[i].tokens,
                lexed(source)->Ok_0.0[i].number,
            ).len() == 0,
{
    let st = lex_outcome(source);
    let start = LexSt { lines: Seq::empty(), blanks: Seq::empty(), diags: end_diags(source), split: false };
    lemma_lex_from_grows(lines_of(source), 0, start);
    assert(st.diags.len() + line_checks(st.lines).len() == 0);
    lemma_line_checks_empty(st.lines);
    let ls = lexed(source)->Ok_0.0;
    assert(ls == st.lines);
    assert forall|i: int| 0 <= i < ls.len() implies one_rendering(#[trigger] ls[i].tokens) by {
        assert(needless_diags(ls[i].tokens).len() == 0);
    }
}

} // verus!
