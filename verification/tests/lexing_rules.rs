//! Tokens, positions and errors of the lexer in detail.
use xia::diag::Span;
use xia::lexer::{lex, unescape, LexError, TokKind, Token};

fn tokens(src: &str) -> Vec<Token> {
    lex(src).unwrap()
}

fn fault(src: &str) -> LexError {
    lex(src).unwrap_err()
}

#[test]
fn spans_count_bytes_from_one() {
    let e = fault("let é = 1\n");
    assert_eq!(e.span, Span::new(1, 5, 2));
    assert_eq!(e.message, "unexpected character `é`");
    let toks = tokens("x = \"ü\" + y\n");
    assert_eq!(toks[2].span, Span::new(1, 5, 4));
    assert_eq!(toks[3].span, Span::new(1, 10, 1));
    assert_eq!(toks[4].span, Span::new(1, 12, 1));
    // structural tokens know their line alone
    assert_eq!(toks[5].span, Span::line_only(1));
}

#[test]
fn unknown_characters_are_reported_where_they_stand() {
    let e = fault("x = 1 ? 2\n");
    assert_eq!(e.message, "unexpected character `?`");
    assert_eq!(e.span, Span::new(1, 7, 1));
    assert_eq!(e.to_text(), "lex error (line 1): unexpected character `?`");
    let d = e.into_diagnostic();
    assert_eq!(d.phase, "lex");
}

#[test]
fn integers_are_held_to_64_bits() {
    let toks = tokens("9223372036854775807\n");
    assert_eq!(toks[0].kind, TokKind::Int(9223372036854775807));
    assert!(lex("9223372036854775808\n").is_err());
}

#[test]
fn bad_indentation_and_its_message() {
    let e = fault("if a:\n        x = 1\n    y = 2\n");
    assert_eq!(e.span.line, 3);
    assert!(e.message.contains("indent"), "got: {}", e.message);
}

#[test]
fn escapes_are_resolved_once() {
    assert_eq!(unescape("\"a\\nb\""), "a\nb");
    assert_eq!(unescape("\"tab\\t|\""), "tab\t|");
    assert_eq!(unescape("\"\\\\n\""), "\\n");
    assert_eq!(unescape("\"q\\\"q\""), "q\"q");
    assert_eq!(unescape("\"plain\""), "plain");
    assert_eq!(unescape("\"\""), "");
}

#[test]
fn interpolated_strings_are_tokens_of_their_own() {
    let toks = tokens("s = f\"a {x}\"\n");
    assert_eq!(toks[2].kind, TokKind::FStr("a {x}".into()));
    // a name that merely begins with `f` is none
    let toks = tokens("foo = 1\n");
    assert_eq!(toks[0].kind, TokKind::Ident("foo".into()));
}

#[test]
fn streams_end_once_and_blocks_balance() {
    let src = "fn f():\n    if true:\n        while true:\n            break\n";
    let toks = tokens(src);
    let ends = toks.iter().filter(|t| t.kind == TokKind::Eof).count();
    assert_eq!(ends, 1);
    assert_eq!(toks.last().unwrap().kind, TokKind::Eof);
    let mut level: i64 = 0;
    for t in &toks {
        if t.kind == TokKind::Indent {
            level += 1;
        }
        if t.kind == TokKind::Dedent {
            level -= 1;
        }
        assert!(level >= 0);
    }
    assert_eq!(level, 0);
}

#[test]
fn empty_source_is_an_end_of_file() {
    let toks = tokens("");
    assert_eq!(toks.len(), 1);
    assert_eq!(toks[0].kind, TokKind::Eof);
}

#[test]
fn marks_take_the_longest_match() {
    let kinds: Vec<TokKind> = tokens("a <= b == c -> ... . != >= < >\n")
        .into_iter()
        .map(|t| t.kind)
        .collect();
    assert_eq!(kinds[1], TokKind::Le);
    assert_eq!(kinds[3], TokKind::EqEq);
    assert_eq!(kinds[5], TokKind::Arrow);
    assert_eq!(kinds[6], TokKind::Ellipsis);
    assert_eq!(kinds[7], TokKind::Dot);
    assert_eq!(kinds[8], TokKind::NotEq);
    assert_eq!(kinds[9], TokKind::Ge);
    assert_eq!(kinds[10], TokKind::Lt);
    assert_eq!(kinds[11], TokKind::Gt);
}

#[test]
fn tokens_name_themselves() {
    assert_eq!(TokKind::Ident("x".into()).to_text(), "identifier `x`");
    assert_eq!(TokKind::Int(-3).to_text(), "integer `-3`");
    assert_eq!(TokKind::Newline.to_text(), "newline");
    assert_eq!(TokKind::Colon.to_text(), "`Colon`");
    assert_eq!(TokKind::Eof.to_text(), "end of file");
}

#[test]
fn blank_lines_and_comments_do_not_count() {
    let lines = ["fn f(", "    a: int,", "        b: int):", "    if a > b:", "        print(", "  a)", "    print(b)", "f(1, 2)"];
    let kinds = |lines: &[&str], end: &str| -> Vec<TokKind> {
        tokens(&(lines.join("\n") + end)).into_iter().map(|t| t.kind).collect()
    };
    let plain = kinds(&lines, "\n");
    assert_eq!(kinds(&lines, ""), plain);
    for blank in ["", "   ", "# c", "            # ) : \" $ \t", "#"] {
        for at in 0..=lines.len() {
            let mut more = lines.to_vec();
            more.insert(at, blank);
            assert_eq!(kinds(&more, "\n"), plain, "{blank:?} at {at}");
        }
    }
    let bad = ["if a:", "        x = 1", "    y = 2"];
    for at in 0..=bad.len() {
        let mut more = bad.to_vec();
        more.insert(at, "  # c");
        assert!(lex(&more.join("\n")).is_err());
    }
}
