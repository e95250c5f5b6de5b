use kanso::diag::Diagnostic;
use kanso::lexer::{block_opener, lex, lex_checked, Lexed, StrPart, Tok};

fn lexes(source: &str) -> Lexed {
    match lex(source) {
        Ok(l) => l,
        Err(ds) => panic!("expected no diagnostics, got {:?}", ds),
    }
}

fn refused(source: &str) -> Vec<Diagnostic> {
    match lex(source) {
        Ok(_) => panic!("expected diagnostics"),
        Err(ds) => ds,
    }
}

fn messages(ds: &[Diagnostic]) -> Vec<(String, u32, u32)> {
    ds.iter().map(|d| (d.message.clone(), d.span.line, d.span.col)).collect()
}

fn is_ident(t: &Tok, name: &str) -> bool {
    matches!(t, Tok::Ident(n) if n == name)
}

#[test]
fn a_statement_lexes_to_one_line_of_tokens() {
    let l = lexes("main = 1\n");
    assert_eq!(l.lines.len(), 1);
    assert!(l.blank_lines.is_empty());
    let line = &l.lines[0];
    assert_eq!((line.number, line.indent), (1, 0));
    assert_eq!(line.tokens.len(), 3);
    assert!(is_ident(&line.tokens[0].0, "main"));
    assert_eq!((line.tokens[0].1.line, line.tokens[0].1.col, line.tokens[0].2), (1, 1, 5));
    assert!(matches!(line.tokens[1].0, Tok::Bind));
    assert_eq!((line.tokens[1].1.col, line.tokens[1].2), (6, 7));
    match &line.tokens[2].0 {
        Tok::Int(b) => assert_eq!((b.negative, b.digits.clone()), (false, vec![1])),
        other => panic!("expected an int, got {:?}", other),
    }
    assert_eq!((line.tokens[2].1.col, line.tokens[2].2), (8, 9));
}

#[test]
fn blank_lines_and_comments_are_not_statements() {
    let l = lexes("# the answer\nx = 1\n\ny = 2\n");
    assert_eq!(l.lines.len(), 2);
    assert_eq!(l.blank_lines, vec![3]);
    assert_eq!(l.lines[0].number, 2);
    assert_eq!(l.lines[1].number, 4);
}

#[test]
fn a_file_ends_with_a_newline() {
    let ds = refused("main = 1");
    assert_eq!(messages(&ds), vec![("file must end with exactly one newline".to_string(), 1, 1)]);
    assert_eq!(ds[0].kind, "formatting");
}

#[test]
fn trailing_whitespace_is_refused_at_its_byte_column() {
    let ds = refused("main = 1 \n");
    assert_eq!(messages(&ds), vec![("trailing whitespace is not part of the canonical grammar".to_string(), 1, 9)]);
    // The column counts bytes: `é` is two of them.
    let ds = refused("s = \"é\" \n");
    assert_eq!(messages(&ds)[0].2, 9);
}

#[test]
fn a_tab_is_refused_at_its_character_column() {
    let ds = refused("x = \"é\"\t\n");
    assert_eq!(
        messages(&ds),
        vec![("tabs are not part of the canonical grammar; indent with spaces".to_string(), 1, 8)]
    );
}

#[test]
fn a_line_holds_at_most_eighty_characters() {
    let long = format!("# {}\n", "a".repeat(79));
    let ds = refused(&long);
    assert_eq!(
        messages(&ds),
        vec![("a line holds at most 80 characters \u{2014} this one has 81".to_string(), 1, 81)]
    );
    let fits = format!("# {}\n", "a".repeat(78));
    assert!(lex(&fits).is_ok());
}

#[test]
fn indentation_is_zero_or_two_spaces() {
    let ds = refused("   x = 1\n");
    assert_eq!(messages(&ds), vec![("indentation must be 0 or 2 spaces, found 3".to_string(), 1, 1)]);
}

#[test]
fn a_needless_continuation_is_refused() {
    let ds = refused("main = foo\n  . bar\n");
    assert_eq!(
        messages(&ds),
        vec![("needless continuation: this statement fits on one line (16 characters)".to_string(), 2, 3)]
    );
}

#[test]
fn a_dot_line_must_sit_under_its_statement() {
    let ds = refused("main = foo\n    . bar\n");
    assert_eq!(
        messages(&ds),
        vec![(
            "a `.` continuation line sits directly under its statement, indented two spaces deeper".to_string(),
            2,
            1
        )]
    );
}

#[test]
fn an_indented_argument_is_grouped_into_its_statement() {
    let head = format!("f = g {}", "a".repeat(72));
    assert_eq!(head.chars().count(), 78);
    let l = lexes(&format!("{head}\n  h 2\n"));
    assert_eq!(l.lines.len(), 1);
    let toks = &l.lines[0].tokens;
    assert_eq!(toks.len(), 8);
    assert!(matches!(toks[4].0, Tok::LGroup));
    assert_eq!((toks[4].1.line, toks[4].1.col, toks[4].2), (2, 1, 1));
    assert!(is_ident(&toks[5].0, "h"));
    assert_eq!((toks[5].1.line, toks[5].1.col, toks[5].2), (2, 3, 4));
    assert!(matches!(toks[7].0, Tok::RGroup));
    assert_eq!((toks[7].1.line, toks[7].1.col, toks[7].2), (2, 6, 6));
}

#[test]
fn a_short_indented_argument_is_a_needless_continuation() {
    let ds = refused("f = g 1\n  h 2\n");
    assert_eq!(
        messages(&ds),
        vec![("needless continuation: this statement fits on one line (13 characters)".to_string(), 2, 1)]
    );
}

#[test]
fn a_text_block_becomes_one_string() {
    let l = lexes("x = \"\"\"\n  hello\n  world\n\"\"\"\n");
    assert_eq!(l.lines.len(), 1);
    let toks = &l.lines[0].tokens;
    assert_eq!(toks.len(), 3);
    match &toks[2].0 {
        Tok::Str(parts) => {
            assert_eq!(parts.len(), 1);
            assert!(matches!(&parts[0], StrPart::Lit(s) if s == "hello\nworld\n"));
        }
        other => panic!("expected a string, got {:?}", other),
    }
    assert_eq!((toks[2].1.line, toks[2].1.col, toks[2].2), (1, 5, 8));
}

#[test]
fn an_unclosed_text_block_says_where_its_fence_goes() {
    let ds = refused("x = \"\"\"\n  hello\n  world\n");
    assert_eq!(
        messages(&ds),
        vec![("unterminated text block \u{2014} the closing `\"\"\"` sits alone at column 1".to_string(), 1, 1)]
    );
}

#[test]
fn a_text_block_line_sits_under_its_opening() {
    let ds = refused("x = \"\"\"\n  hello\n world\n\"\"\"\n");
    let m = messages(&ds);
    assert_eq!(
        m[0],
        (
            "a text block's lines sit 2 spaces in, under the `\"\"\"` that opened it \u{2014} this one is at column 2"
                .to_string(),
            3,
            2
        )
    );
}

#[test]
fn nothing_follows_a_text_block_opener() {
    let ds = refused("x = \"\"\" y\n");
    assert_eq!(
        messages(&ds),
        vec![("a text block opens at the end of its line \u{2014} nothing follows `\"\"\"`".to_string(), 1, 8)]
    );
}

#[test]
fn every_diagnostic_is_collected() {
    let ds = refused("a = 1 \n\tb = 2\n   c = 3");
    assert_eq!(ds.len(), 4);
    assert_eq!(ds[0].message, "file must end with exactly one newline");
    assert_eq!((ds[0].span.line, ds[0].span.col), (3, 1));
}

#[test]
fn block_opener_counts_bytes() {
    assert_eq!(block_opener("x = \"\"\""), Some(4));
    assert_eq!(block_opener("\u{e9} = \"\"\""), Some(5));
    assert_eq!(block_opener("x = \"a\" # \"\"\""), None);
    assert_eq!(block_opener("x = \"a\\\"\"\"\""), None);
}

#[test]
fn lex_checked_answers_what_lex_does() {
    let src = "main = print \"hi\"\n";
    let checked = lex_checked(src).expect("a short source with no text block is lexed");
    let direct = lexes(src);
    let got = checked.expect("no diagnostics");
    assert_eq!(got.lines.len(), direct.lines.len());
    assert_eq!(got.blank_lines, direct.blank_lines);
    assert!(matches!(lex_checked("x = 1"), Some(Err(_))));
}
