//! Rendering of diagnostics.
use xia::diag::{Diagnostic, Span};


#[test]
fn renders_caret_under_the_span() {
    let src = "fn main() -> int:\n    return \"oops\"\n";
    let d = Diagnostic {
        phase: "semantic",
        span: Span::new(2, 12, 6),
        message: "return type mismatch".into(),
    };
    let out = d.render("test.xia", src);
    assert!(out.contains("--> test.xia:2:12"));
    assert!(out.contains("2 |     return \"oops\""));
    assert!(out.contains("|            ^^^^^^"));
}

#[test]
fn line_only_span_omits_caret() {
    let d = Diagnostic {
        phase: "parse",
        span: Span::line_only(1),
        message: "oops".into(),
    };
    let out = d.render("t.xia", "let x = 1\n");
    assert!(out.contains("--> t.xia:1\n"));
    assert!(!out.contains('^'));
}

#[test]
fn renders_as_documented() {
    let d = Diagnostic {
        phase: "semantic",
        span: Span::new(2, 12, 6),
        message: "return type mismatch: function returns int but got str".into(),
    };
    let out = d.render("examples/bad.xia", "fn main() -> int:\n    return \"oops\"\n");
    let lines: Vec<&str> = out.lines().collect();
    assert_eq!(
        lines,
        [
            "return type mismatch: function returns int but got str",
            "  --> examples/bad.xia:2:12",
            "   |",
            " 2 |     return \"oops\"",
            "   |            ^^^^^^",
        ]
    );
}
