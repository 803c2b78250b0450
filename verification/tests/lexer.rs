//! Tokens and indentation.
use xia::lexer::{lex, TokKind};


fn kinds(src: &str) -> Vec<TokKind> {
    lex(src).unwrap().into_iter().map(|t| t.kind).collect()
}

#[test]
fn simple_tokens() {
    assert_eq!(
        kinds("let x = 1 + 2.5"),
        vec![
            TokKind::Let,
            TokKind::Ident("x".into()),
            TokKind::Assign,
            TokKind::Int(1),
            TokKind::Plus,
            TokKind::Float("2.5".into()),
            TokKind::Newline,
            TokKind::Eof
        ]
    );
}

#[test]
fn indent_dedent() {
    let src = "if x:\n    y = 1\nz = 2\n";
    assert_eq!(
        kinds(src),
        vec![
            TokKind::If,
            TokKind::Ident("x".into()),
            TokKind::Colon,
            TokKind::Newline,
            TokKind::Indent,
            TokKind::Ident("y".into()),
            TokKind::Assign,
            TokKind::Int(1),
            TokKind::Newline,
            TokKind::Dedent,
            TokKind::Ident("z".into()),
            TokKind::Assign,
            TokKind::Int(2),
            TokKind::Newline,
            TokKind::Eof
        ]
    );
}

#[test]
fn nested_dedents_at_eof() {
    let src = "if a:\n    if b:\n        x = 1\n";
    let toks = kinds(src);
    let dedents = toks.iter().filter(|t| **t == TokKind::Dedent).count();
    assert_eq!(dedents, 2);
    assert_eq!(*toks.last().unwrap(), TokKind::Eof);
}

#[test]
fn implicit_line_joining_in_parens() {
    let src = "f(1,\n  2)\n";
    let toks = kinds(src);
    let newlines = toks.iter().filter(|t| **t == TokKind::Newline).count();
    assert_eq!(newlines, 1, "newline inside parens must be joined");
}

#[test]
fn comments_and_blank_lines_ignored() {
    let src = "# header\n\nx = 1  # trailing\n";
    assert_eq!(
        kinds(src),
        vec![TokKind::Ident("x".into()), TokKind::Assign, TokKind::Int(1), TokKind::Newline, TokKind::Eof]
    );
}

#[test]
fn string_escapes() {
    let toks = kinds("s = \"a\\n\\\"b\\\"\"");
    assert!(matches!(&toks[2], TokKind::Str(s) if s == "a\n\"b\""));
}

#[test]
fn for_in_keywords() {
    assert_eq!(
        kinds("for i in range(3)"),
        vec![
            TokKind::For,
            TokKind::Ident("i".into()),
            TokKind::In,
            TokKind::Ident("range".into()),
            TokKind::LParen,
            TokKind::Int(3),
            TokKind::RParen,
            TokKind::Newline,
            TokKind::Eof
        ]
    );
}

#[test]
fn bad_unindent_is_error() {
    let src = "if a:\n        x = 1\n    y = 2\n";
    assert!(lex(src).is_err());
}
