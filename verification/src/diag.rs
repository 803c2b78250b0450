//! Shared diagnostics: source spans and caret-style error rendering.
//!
//! Every front-end error (lex, parse, sema) carries a [`Span`]; the CLI
//! renders it against the source text:
//!
//! ```text
//! return type mismatch: function returns int but got str
//!   --> examples/bad.xia:2:12
//!    |
//!  2 |     return "oops"
//!    |            ^^^^^^
//! ```
use vstd::prelude::*;
use crate::text::{
    bytes_between, cat4, cat5, cat6, cat7, chars_of, dec_usize, repeat_char, split_lines, text_of,
};

verus! {

#[derive(Debug, Clone, Copy, PartialEq, Eq, Structural)]
pub struct Span {
    /// 1-based source line.
    pub line: usize,
    /// 1-based column; 0 means "line precision only" (no caret is drawn).
    pub col: usize,
    /// Width of the underlined region in bytes (clamped to at least 1).
    pub len: usize,
}

impl Span {
    pub fn new(line: usize, col: usize, len: usize) -> (s: Self)
        ensures
            s == (Span { line, col, len }),
    {
        Span { line, col, len }
    }

    /// The span of a whole line.
    pub open spec fn of_line(line: usize) -> Span {
        Span { line, col: 0, len: 0 }
    }

    pub fn line_only(line: usize) -> (s: Self)
        ensures
            s == Span::of_line(line),
    {
        Span { line, col: 0, len: 0 }
    }
}

impl Default for Span {
    fn default() -> (s: Self)
        ensures
            s == (Span { line: 0, col: 0, len: 0 }),
    {
        Span { line: 0, col: 0, len: 0 }
    }
}

/// What every phase reports when it refuses a program: a place and a message.
#[verifier::ext_equal]
pub struct Fault {
    pub span: Span,
    pub message: Seq<char>,
}

#[derive(Debug, Clone)]
pub struct Diagnostic {
    pub phase: &'static str,
    pub span: Span,
    pub message: String,
}

/// The first line of a rendered diagnostic: the message, an arrow, the path
/// and the position, the column only where there is one.
pub open spec fn heading(message: Seq<char>, span: Span, path: Seq<char>) -> Seq<char> {
    let place = message + "\n  --> "@ + path + ":"@ + crate::text::dec(span.line as nat);
    if span.col > 0 {
        place + ":"@ + crate::text::dec(span.col as nat) + "\n"@
    } else {
        place + "\n"@
    }
}

/// The source line under a gutter, and below it the caret underline where the
/// column lies on the line (or just past its end).
pub open spec fn excerpt(span: Span, line: Seq<char>) -> Seq<char> {
    let n = crate::text::dec(span.line as nat);
    let pad = crate::text::repeated(' ', n.len());
    let shown = " "@ + pad + " |\n "@ + n + " | "@ + line + "\n"@;
    if 0 < span.col && span.col <= crate::text::byte_len(line) + 1 {
        let width: nat = if span.len > 1 {
            span.len as nat
        } else {
            1
        };
        shown + (" "@ + pad + " | "@ + crate::text::repeated(' ', (span.col - 1) as nat)
            + crate::text::repeated('^', width) + "\n"@)
    } else {
        shown
    }
}

/// A rendered diagnostic: the heading, and the excerpt where the source has
/// such a line (line 0 shows the first one).
pub open spec fn rendered(message: Seq<char>, span: Span, path: Seq<char>, source: Seq<char>)
    -> Seq<
    char,
> {
    let all = crate::text::lines(source);
    let index = if span.line > 0 {
        span.line - 1
    } else {
        0
    };
    if index < all.len() {
        heading(message, span, path) + excerpt(span, all[index])
    } else {
        heading(message, span, path)
    }
}

impl Diagnostic {
    /// Render the message followed by the source line and a caret underline.
    pub fn render(&self, path: &str, source: &str) -> (out: String)
        ensures
            out@ == rendered(self.message@, self.span, path@, source@),
    {
        let number = dec_usize(self.span.line);
        let place = cat5(self.message.as_str(), "\n  --> ", path, ":", number.as_str());
        let mut out = if self.span.col > 0 {
            let column = dec_usize(self.span.col);
            cat4(place.as_str(), ":", column.as_str(), "\n")
        } else {
            crate::text::cat2(place.as_str(), "\n")
        };
        let all = split_lines(&chars_of(source));
        let index: usize = self.span.line.saturating_sub(1);
        if index < all.len() {
            let line = &all[index];
            assert(line@ == crate::text::nested(all@)[index as int]);
            let shown_line = text_of(line, 0, line.len());
            assert(shown_line@ =~= line@);
            let digits = chars_of(number.as_str()).len();
            let pad = repeat_char(' ', digits);
            let shown = cat7(
                " ",
                pad.as_str(),
                " |\n ",
                number.as_str(),
                " | ",
                shown_line.as_str(),
                "\n",
            );
            let bytes = bytes_between(line, 0, line.len());
            assert(line@.subrange(0, line@.len() as int) =~= line@);
            let ghost top = out@;
            out.append(shown.as_str());
            if self.span.col > 0 && self.span.col - 1 <= bytes {
                let wide: usize = if self.span.len > 1 {
                    self.span.len
                } else {
                    1
                };
                let blanks = repeat_char(' ', self.span.col - 1);
                let carets = repeat_char('^', wide);
                let under = cat6(
                    " ",
                    pad.as_str(),
                    " | ",
                    blanks.as_str(),
                    carets.as_str(),
                    "\n",
                );
                out.append(under.as_str());
                assert(out@ =~= top + (shown@ + under@));
            }
        }
        out
    }

    /// The one-line form: phase, line and message.
    pub fn to_text(&self) -> (s: String)
        ensures
            s@ == self.phase@ + " error (line "@ + crate::text::dec(self.span.line as nat)
                + "): "@ + self.message@,
    {
        let n = dec_usize(self.span.line);
        cat5(self.phase, " error (line ", n.as_str(), "): ", self.message.as_str())
    }
}

} // verus!
